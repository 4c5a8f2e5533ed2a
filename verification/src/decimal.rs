//! Decimal numbers as written in text: an optional sign, then a decimal
//! mantissa with an optional exponent, or `inf`, `infinity`, `nan` in any
//! letter case (the syntax Rust's floating-point parser reads). Values are
//! kept exact; rounding to a machine number happens outside the library.
use vstd::prelude::*;
use crate::ast::{Number, SpecNumber};
use crate::lexer::{
    dot_count, exponent_digit_start, exponent_start, is_run_char, lexeme_number, mant_digits,
    number_end, read_number, run_end, scan_digits, scan_run, digit_end,
};
use crate::text::is_digit_spec;

verus! {

broadcast use vstd::std_specs::vec::axiom_spec_len;

#[derive(Debug, PartialEq)]
pub enum Magnitude {
    Finite(Number),
    Infinite,
    NotANumber,
}

pub enum SpecMagnitude {
    Finite(SpecNumber),
    Infinite,
    NotANumber,
}

/// A decimal value read from text.
#[derive(Debug, PartialEq)]
pub struct Decimal {
    pub negative: bool,
    pub magnitude: Magnitude,
}

pub struct SpecDecimal {
    pub negative: bool,
    pub magnitude: SpecMagnitude,
}

impl View for Decimal {
    type V = SpecDecimal;

    open spec fn view(&self) -> SpecDecimal {
        SpecDecimal {
            negative: self.negative,
            magnitude: match self.magnitude {
                Magnitude::Finite(n) => SpecMagnitude::Finite(n@),
                Magnitude::Infinite => SpecMagnitude::Infinite,
                Magnitude::NotANumber => SpecMagnitude::NotANumber,
            },
        }
    }
}

/// Exactly one: a single digit `1` at exponent zero.
pub open spec fn one_spec() -> SpecDecimal {
    SpecDecimal {
        negative: false,
        magnitude: SpecMagnitude::Finite(SpecNumber { digits: seq![1u8], exponent: 0 }),
    }
}

impl Decimal {
    pub fn one() -> (r: Decimal)
        ensures
            r@ == one_spec(),
    {
        let mut digits: Vec<u8> = Vec::new();
        digits.push(1u8);
        assert(digits@ =~= seq![1u8]);
        Decimal { negative: false, magnitude: Magnitude::Finite(Number { digits, exponent: 0 }) }
    }

    /// An equal copy.
    pub fn duplicate(&self) -> (r: Decimal)
        ensures
            r@ == self@,
    {
        Decimal {
            negative: self.negative,
            magnitude: match &self.magnitude {
                Magnitude::Finite(n) => Magnitude::Finite(n.duplicate()),
                Magnitude::Infinite => Magnitude::Infinite,
                Magnitude::NotANumber => Magnitude::NotANumber,
            },
        }
    }
}

pub open spec fn lower_char(c: char) -> char {
    if 'A' <= c <= 'Z' {
        ((c as u32) + 32) as char
    } else {
        c
    }
}

/// ASCII letters folded to lower case.
pub open spec fn lower_ascii(s: Seq<char>) -> Seq<char> {
    s.map_values(|c: char| lower_char(c))
}

pub open spec fn has_digit(s: Seq<char>) -> bool {
    exists|j: int| 0 <= j < s.len() && is_digit_spec(#[trigger] s[j])
}

/// The value of a mantissa-and-exponent text; `None` unless the whole text
/// is one: digits with at most one dot and at least one digit, then an
/// optional exponent with at least one digit.
pub open spec fn unsigned_number(b: Seq<char>) -> Option<SpecNumber> {
    if b.len() > 0 && is_run_char(b[0]) && number_end(b, 0) == b.len() && has_digit(
        b.subrange(0, run_end(b, 0)),
    ) {
        lexeme_number(b, 0)
    } else {
        None
    }
}

/// The decimal a text spells, if it spells one.
pub open spec fn decimal_spec(s: Seq<char>) -> Option<SpecDecimal> {
    let signed = s.len() > 0 && (s[0] == '+' || s[0] == '-');
    let negative = signed && s[0] == '-';
    let b = if signed {
        s.subrange(1, s.len() as int)
    } else {
        s
    };
    if lower_ascii(b) == "inf"@ || lower_ascii(b) == "infinity"@ {
        Some(SpecDecimal { negative, magnitude: SpecMagnitude::Infinite })
    } else if lower_ascii(b) == "nan"@ {
        Some(SpecDecimal { negative, magnitude: SpecMagnitude::NotANumber })
    } else {
        match unsigned_number(b) {
            Some(n) => Some(SpecDecimal { negative, magnitude: SpecMagnitude::Finite(n) }),
            None => None,
        }
    }
}

pub open spec fn view_decimal_option(r: Option<Decimal>) -> Option<SpecDecimal> {
    match r {
        Some(d) => Some(d@),
        None => None,
    }
}

fn lower_equals(b: &Vec<char>, word: &str) -> (r: bool)
    requires
        word@ == lower_ascii(word@),
    ensures
        r == (lower_ascii(b@) == word@),
{
    let w = crate::text::chars_of(word);
    if b.len() != w.len() {
        return false;
    }
    let mut i: usize = 0;
    while i < b.len()
        invariant
            i <= b@.len() == w@.len(),
            w@ == word@,
            forall|k: int| 0 <= k < i ==> lower_char(b@[k]) == w@[k],
        decreases b@.len() - i,
    {
        let c = b[i];
        let lc = if 'A' <= c && c <= 'Z' {
            ((c as u32) + 32) as u8 as char
        } else {
            c
        };
        assert(lc == lower_char(c)) by {
            if 'A' <= c <= 'Z' {
                assert(((c as u32) + 32) < 128);
            }
        }
        if lc != w[i] {
            assert(lower_ascii(b@)[i as int] != word@[i as int]);
            return false;
        }
        i = i + 1;
    }
    assert(lower_ascii(b@) =~= w@);
    true
}

/// Reads the decimal a text spells, if it spells one.
pub fn read_decimal(s: &Vec<char>) -> (r: Option<Decimal>)
    ensures
        view_decimal_option(r) == decimal_spec(s@),
        r matches Some(d) ==> (d.magnitude matches Magnitude::Finite(n) ==> n.wf()),
{
    let signed = s.len() > 0 && (s[0] == '+' || s[0] == '-');
    let negative = signed && s[0] == '-';
    let mut b: Vec<char> = Vec::new();
    let start: usize = if signed {
        1
    } else {
        0
    };
    let mut k = start;
    while k < s.len()
        invariant
            start <= k <= s@.len(),
            start <= 1,
            b@ == s@.subrange(start as int, k as int),
        decreases s@.len() - k,
    {
        b.push(s[k]);
        k = k + 1;
        assert(b@ =~= s@.subrange(start as int, k as int));
    }
    if !signed {
        assert(b@ =~= s@);
    }
    proof {
        reveal_strlit("inf");
        reveal_strlit("infinity");
        reveal_strlit("nan");
        assert("inf"@ =~= lower_ascii("inf"@));
        assert("infinity"@ =~= lower_ascii("infinity"@));
        assert("nan"@ =~= lower_ascii("nan"@));
    }
    if lower_equals(&b, "inf") || lower_equals(&b, "infinity") {
        return Some(Decimal { negative, magnitude: Magnitude::Infinite });
    }
    if lower_equals(&b, "nan") {
        return Some(Decimal { negative, magnitude: Magnitude::NotANumber });
    }
    if b.len() == 0 || !(is_digit_char(b[0]) || b[0] == '.') {
        return None;
    }
    let r = scan_run(&b, 0);
    let end = match exponent_digit_start(&b, r) {
        Some(x) => scan_digits(&b, x),
        None => r,
    };
    if end != b.len() {
        return None;
    }
    let mut found = false;
    let mut j: usize = 0;
    while j < r
        invariant
            j <= r <= b@.len(),
            found == exists|q: int| 0 <= q < j && is_digit_spec(#[trigger] b@.subrange(0, r as int)[q]),
        decreases r - j,
    {
        if is_digit_char(b[j]) {
            found = true;
            assert(is_digit_spec(b@.subrange(0, r as int)[j as int]));
        }
        j = j + 1;
    }
    if !found {
        return None;
    }
    match read_number(&b, 0, r) {
        Some(n) => Some(Decimal { negative, magnitude: Magnitude::Finite(n) }),
        None => None,
    }
}

fn is_digit_char(c: char) -> (r: bool)
    ensures
        r == is_digit_spec(c),
{
    '0' <= c && c <= '9'
}

} // verus!
