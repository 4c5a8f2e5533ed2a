//! The NACA 4-series section code: four decimal digits giving the maximum
//! camber (percent of chord), its position (tenths of chord) and the
//! thickness (percent of chord).
use vstd::prelude::*;
use crate::diagnostic::{error_view, Code, Diagnostic, DiagnosticView};
use crate::text::{chars_of, is_digit, is_digit_spec, str_debug, str_debug_text};

verus! {

/// The digits of a NACA 4-series code, or why the code is refused: a
/// character that is not a decimal digit, a count other than four, or a
/// camber without a camber position.
pub open spec fn naca4_spec(code: Seq<char>) -> Result<Seq<u8>, DiagnosticView> {
    if exists|i: int| 0 <= i < code.len() && !is_digit_spec(#[trigger] code[i]) {
        Err(error_view(Code::InvalidProfile, "NACA code "@ + str_debug_text(code) + " must be four decimal digits"@))
    } else if code.len() != 4 {
        Err(
            error_view(Code::InvalidProfile, "NACA code "@ + str_debug_text(code) + " must have exactly four digits"@),
        )
    } else {
        let d = code.map_values(|c: char| (c as u32 - 48) as u8);
        if d[0] > 0 && d[1] == 0 {
            Err(
                error_view(
                    Code::InvalidProfile,
                    "NACA code "@ + str_debug_text(code) + " declares camber without a camber position"@,
                ),
            )
        } else {
            Ok(d)
        }
    }
}

pub open spec fn view_digits_result(r: Result<Vec<u8>, Diagnostic>) -> Result<Seq<u8>, DiagnosticView> {
    match r {
        Ok(v) => Ok(v@),
        Err(d) => Err(d@),
    }
}

fn refusal(code: &str, reason: &str) -> (r: Diagnostic)
    ensures
        r@ == error_view(Code::InvalidProfile, "NACA code "@ + str_debug_text(code@) + reason@),
{
    let mut message = String::from_str("NACA code ");
    let shown = str_debug(code);
    message.append(shown.as_str());
    message.append(reason);
    Diagnostic::error(Code::InvalidProfile, message)
}

/// The four digits of a NACA 4-series code, checked.
pub fn naca4_digits(code: &str) -> (r: Result<Vec<u8>, Diagnostic>)
    ensures
        view_digits_result(r) == naca4_spec(code@),
{
    let chars = chars_of(code);
    let mut digits: Vec<u8> = Vec::new();
    let mut i: usize = 0;
    while i < chars.len()
        invariant
            i <= chars@.len(),
            chars@ == code@,
            digits@ == chars@.take(i as int).map_values(|c: char| (c as u32 - 48) as u8),
            forall|j: int| 0 <= j < i ==> is_digit_spec(#[trigger] chars@[j]),
        decreases chars@.len() - i,
    {
        let c = chars[i];
        if !is_digit(c) {
            return Err(refusal(code, " must be four decimal digits"));
        }
        digits.push(((c as u32) - 48) as u8);
        i = i + 1;
        assert(digits@ =~= chars@.take(i as int).map_values(|c: char| (c as u32 - 48) as u8));
    }
    assert(chars@.take(i as int) =~= chars@);
    if digits.len() != 4 {
        return Err(refusal(code, " must have exactly four digits"));
    }
    if digits[0] > 0 && digits[1] == 0 {
        return Err(refusal(code, " declares camber without a camber position"));
    }
    Ok(digits)
}

/// A NACA 4-series code is read only when it is exactly four decimal
/// digits; its digits are then the four characters' values, in order, and
/// a code with camber names its position. Every code of that shape is read.
pub proof fn law_naca4_shape(code: Seq<char>)
    ensures
        naca4_spec(code) is Ok ==> {
            let d = naca4_spec(code)->Ok_0;
            &&& code.len() == 4
            &&& d.len() == 4
            &&& forall|i: int| 0 <= i < 4 ==> '0' <= #[trigger] code[i] <= '9' && d[i] as int == code[i] as int - 48
            &&& !(d[0] > 0 && d[1] == 0)
        },
        (code.len() == 4 && (forall|i: int| 0 <= i < 4 ==> '0' <= #[trigger] code[i] <= '9') && !(code[0] != '0'
            && code[1] == '0')) ==> naca4_spec(code) is Ok,
{
    if code.len() == 4 && (forall|i: int| 0 <= i < 4 ==> '0' <= #[trigger] code[i] <= '9') {
        assert(!exists|i: int| 0 <= i < code.len() && !is_digit_spec(#[trigger] code[i]));
    }
}

} // verus!
