//! Tokenizer for the expression language.
//!
//! References (`@...`) are lexed as a single token using the
//! longest-identifier rule: whitespace or an operator ends a reference.
//! Offsets are byte offsets into the source.
use crate::ast::{Number, SpecNumber};
use crate::number::{canonical, canonicalize, reading, EXPONENT_CAP};
use crate::text::{
    char_debug, char_debug_text, chars_of, is_alnum, is_alnum_spec, is_alpha, is_alpha_spec,
    is_digit, is_digit_spec, is_whitespace, is_whitespace_spec, string_from_chars,
};
use vstd::prelude::*;

verus! {

#[derive(Debug, Clone, PartialEq)]
pub enum Token {
    Number(Number),
    /// A `@`-reference without the `@`, e.g. `param.wing.rootChord`.
    Reference(String),
    /// A bare identifier, only valid as a function name.
    Ident(String),
    Plus,
    Minus,
    Star,
    Slash,
    LeftParen,
    RightParen,
    Comma,
    Equal,
    NotEqual,
    Less,
    LessEqual,
    Greater,
    GreaterEqual,
}

pub enum SpecToken {
    Number(SpecNumber),
    Reference(Seq<char>),
    Ident(Seq<char>),
    Plus,
    Minus,
    Star,
    Slash,
    LeftParen,
    RightParen,
    Comma,
    Equal,
    NotEqual,
    Less,
    LessEqual,
    Greater,
    GreaterEqual,
}

impl View for Token {
    type V = SpecToken;

    open spec fn view(&self) -> SpecToken {
        match self {
            Token::Number(n) => SpecToken::Number(n@),
            Token::Reference(t) => SpecToken::Reference(t@),
            Token::Ident(t) => SpecToken::Ident(t@),
            Token::Plus => SpecToken::Plus,
            Token::Minus => SpecToken::Minus,
            Token::Star => SpecToken::Star,
            Token::Slash => SpecToken::Slash,
            Token::LeftParen => SpecToken::LeftParen,
            Token::RightParen => SpecToken::RightParen,
            Token::Comma => SpecToken::Comma,
            Token::Equal => SpecToken::Equal,
            Token::NotEqual => SpecToken::NotEqual,
            Token::Less => SpecToken::Less,
            Token::LessEqual => SpecToken::LessEqual,
            Token::Greater => SpecToken::Greater,
            Token::GreaterEqual => SpecToken::GreaterEqual,
        }
    }
}

#[derive(Debug, Clone)]
pub struct Spanned {
    pub token: Token,
    pub offset: usize,
}

pub struct SpecSpanned {
    pub token: SpecToken,
    pub offset: int,
}

impl View for Spanned {
    type V = SpecSpanned;

    open spec fn view(&self) -> SpecSpanned {
        SpecSpanned { token: self.token@, offset: self.offset as int }
    }
}

#[derive(Debug, Clone, PartialEq)]
pub struct LexError {
    pub offset: usize,
    pub message: String,
}

pub struct SpecLexError {
    pub offset: int,
    pub message: Seq<char>,
}

impl View for LexError {
    type V = SpecLexError;

    open spec fn view(&self) -> SpecLexError {
        SpecLexError { offset: self.offset as int, message: self.message@ }
    }
}

/// Number of bytes in the UTF-8 encoding of `c`.
pub open spec fn utf8_width(c: char) -> nat {
    let v = c as u32;
    if v < 0x80 {
        1
    } else if v < 0x800 {
        2
    } else if v < 0x10000 {
        3
    } else {
        4
    }
}

/// Byte offset of character `i`: the encoded width of the characters before it.
pub open spec fn byte_offset(cs: Seq<char>, i: int) -> nat
    decreases i,
{
    if i <= 0 || i > cs.len() {
        0
    } else {
        byte_offset(cs, i - 1) + utf8_width(cs[i - 1])
    }
}

/// The byte offset of character `i`, saturated to the `usize` range.
pub open spec fn offset_at(cs: Seq<char>, i: int) -> int {
    let b = byte_offset(cs, i);
    if b > usize::MAX {
        usize::MAX as int
    } else {
        b as int
    }
}

pub open spec fn is_reference_char(c: char) -> bool {
    is_alnum_spec(c) || c == '.' || c == '_' || c == '-'
}

pub open spec fn is_ident_start(c: char) -> bool {
    is_alpha_spec(c) || c == '_'
}

pub open spec fn is_ident_char(c: char) -> bool {
    is_alnum_spec(c) || c == '_'
}

pub open spec fn is_run_char(c: char) -> bool {
    is_digit_spec(c) || c == '.'
}

/// First index at or after `j` whose character is not a reference character.
pub open spec fn ref_end(cs: Seq<char>, j: int) -> int
    decreases cs.len() - j,
{
    if 0 <= j < cs.len() && is_reference_char(cs[j]) {
        ref_end(cs, j + 1)
    } else {
        j
    }
}

/// First index at or after `j` that is neither a digit nor `.`.
pub open spec fn run_end(cs: Seq<char>, j: int) -> int
    decreases cs.len() - j,
{
    if 0 <= j < cs.len() && is_run_char(cs[j]) {
        run_end(cs, j + 1)
    } else {
        j
    }
}

/// First index at or after `j` that is not a digit.
pub open spec fn digit_end(cs: Seq<char>, j: int) -> int
    decreases cs.len() - j,
{
    if 0 <= j < cs.len() && is_digit_spec(cs[j]) {
        digit_end(cs, j + 1)
    } else {
        j
    }
}

/// First index at or after `j` that is not an identifier character.
pub open spec fn ident_end(cs: Seq<char>, j: int) -> int
    decreases cs.len() - j,
{
    if 0 <= j < cs.len() && is_ident_char(cs[j]) {
        ident_end(cs, j + 1)
    } else {
        j
    }
}

/// When a number's digit run ending at `r` is followed by an exponent
/// (`e` or `E`, an optional sign, then a digit), the index of that digit.
pub open spec fn exponent_start(cs: Seq<char>, r: int) -> Option<int> {
    if 0 <= r && r + 1 < cs.len() && (cs[r] == 'e' || cs[r] == 'E') {
        let x = if cs[r + 1] == '+' || cs[r + 1] == '-' {
            r + 2
        } else {
            r + 1
        };
        if x < cs.len() && is_digit_spec(cs[x]) {
            Some(x)
        } else {
            None
        }
    } else {
        None
    }
}

/// End of the number lexeme starting at `i`.
pub open spec fn number_end(cs: Seq<char>, i: int) -> int {
    let r = run_end(cs, i);
    match exponent_start(cs, r) {
        Some(x) => digit_end(cs, x),
        None => r,
    }
}

/// The digits of a mantissa, dots skipped.
pub open spec fn mant_digits(m: Seq<char>) -> Seq<u8>
    decreases m.len(),
{
    if m.len() == 0 {
        Seq::empty()
    } else if m.last() == '.' {
        mant_digits(m.drop_last())
    } else {
        mant_digits(m.drop_last()).push((m.last() as u32 - 48) as u8)
    }
}

pub open spec fn dot_count(m: Seq<char>) -> nat
    decreases m.len(),
{
    if m.len() == 0 {
        0
    } else if m.last() == '.' {
        dot_count(m.drop_last()) + 1
    } else {
        dot_count(m.drop_last())
    }
}

/// How many digits follow the (first) dot.
pub open spec fn frac_len(m: Seq<char>) -> nat
    decreases m.len(),
{
    if m.len() == 0 || m.last() == '.' {
        0
    } else if dot_count(m.drop_last()) > 0 {
        frac_len(m.drop_last()) + 1
    } else {
        0
    }
}

/// Decimal value of a sequence of digit characters.
pub open spec fn digits_value(d: Seq<char>) -> nat
    decreases d.len(),
{
    if d.len() == 0 {
        0
    } else {
        digits_value(d.drop_last()) * 10 + (d.last() as u32 - 48) as nat
    }
}

/// The value of the number lexeme at `i` as a canonical decimal (see
/// [`reading`] for exponents beyond an `i64`); `None` when the mantissa
/// holds more than one dot.
pub open spec fn lexeme_number(cs: Seq<char>, i: int) -> Option<SpecNumber> {
    let r = run_end(cs, i);
    let m = cs.subrange(i, r);
    if dot_count(m) > 1 {
        None
    } else {
        let ev: int = match exponent_start(cs, r) {
            Some(x) => {
                let v = digits_value(cs.subrange(x, digit_end(cs, x))) as int;
                if cs[r + 1] == '-' {
                    -v
                } else {
                    v
                }
            },
            None => 0,
        };
        Some(reading(mant_digits(m), ev - frac_len(m)))
    }
}

pub open spec fn single_token(c: char) -> Option<SpecToken> {
    if c == '+' {
        Some(SpecToken::Plus)
    } else if c == '-' {
        Some(SpecToken::Minus)
    } else if c == '*' {
        Some(SpecToken::Star)
    } else if c == '/' {
        Some(SpecToken::Slash)
    } else if c == '(' {
        Some(SpecToken::LeftParen)
    } else if c == ')' {
        Some(SpecToken::RightParen)
    } else if c == ',' {
        Some(SpecToken::Comma)
    } else {
        None
    }
}

pub type SpecLexResult = Result<Seq<SpecSpanned>, SpecLexError>;

pub open spec fn cons(t: SpecSpanned, r: SpecLexResult) -> SpecLexResult {
    match r {
        Ok(ts) => Ok(seq![t] + ts),
        Err(e) => Err(e),
    }
}

pub open spec fn prepend(ts: Seq<SpecSpanned>, r: SpecLexResult) -> SpecLexResult {
    match r {
        Ok(rest) => Ok(ts + rest),
        Err(e) => Err(e),
    }
}

pub open spec fn lex_error(cs: Seq<char>, i: int, message: Seq<char>) -> SpecLexResult {
    Err(SpecLexError { offset: offset_at(cs, i), message })
}

pub open spec fn tok(cs: Seq<char>, i: int, t: SpecToken) -> SpecSpanned {
    SpecSpanned { token: t, offset: offset_at(cs, i) }
}

/// The tokens of `cs` from character `i` on, or the first lexical error.
pub open spec fn lex_from(cs: Seq<char>, i: int) -> SpecLexResult
    decreases cs.len() - i,
{
    if i < 0 || i >= cs.len() {
        Ok(Seq::empty())
    } else {
        let c = cs[i];
        if is_whitespace_spec(c) {
            lex_from(cs, i + 1)
        } else if single_token(c) is Some {
            cons(tok(cs, i, single_token(c)->0), lex_from(cs, i + 1))
        } else if c == '@' {
            let end = ref_end(cs, i + 1);
            if end == i + 1 {
                lex_error(cs, i, "a reference must name a parameter, station, or component"@)
            } else if i + 1 < end <= cs.len() {
                cons(
                    tok(cs, i, SpecToken::Reference(cs.subrange(i + 1, end))),
                    lex_from(cs, end),
                )
            } else {
                Ok(Seq::empty())
            }
        } else if is_digit_spec(c) {
            let end = number_end(cs, i);
            match lexeme_number(cs, i) {
                Some(n) => if i < end <= cs.len() {
                    cons(tok(cs, i, SpecToken::Number(n)), lex_from(cs, end))
                } else {
                    Ok(Seq::empty())
                },
                None => lex_error(
                    cs,
                    i,
                    "invalid number \""@ + cs.subrange(i, end) + "\""@,
                ),
            }
        } else if is_ident_start(c) {
            let end = ident_end(cs, i);
            if i < end <= cs.len() {
                cons(tok(cs, i, SpecToken::Ident(cs.subrange(i, end))), lex_from(cs, end))
            } else {
                Ok(Seq::empty())
            }
        } else if c == '=' {
            if i + 1 < cs.len() && cs[i + 1] == '=' {
                cons(tok(cs, i, SpecToken::Equal), lex_from(cs, i + 2))
            } else {
                lex_error(cs, i, "single '=' is not an operator; use '==' to compare"@)
            }
        } else if c == '!' {
            if i + 1 < cs.len() && cs[i + 1] == '=' {
                cons(tok(cs, i, SpecToken::NotEqual), lex_from(cs, i + 2))
            } else {
                lex_error(cs, i, "'!' alone is not an operator; use '!='"@)
            }
        } else if c == '<' {
            if i + 1 < cs.len() && cs[i + 1] == '=' {
                cons(tok(cs, i, SpecToken::LessEqual), lex_from(cs, i + 2))
            } else {
                cons(tok(cs, i, SpecToken::Less), lex_from(cs, i + 1))
            }
        } else if c == '>' {
            if i + 1 < cs.len() && cs[i + 1] == '=' {
                cons(tok(cs, i, SpecToken::GreaterEqual), lex_from(cs, i + 2))
            } else {
                cons(tok(cs, i, SpecToken::Greater), lex_from(cs, i + 1))
            }
        } else {
            lex_error(cs, i, "unexpected character "@ + char_debug_text(c))
        }
    }
}

/// The tokens of a source text, or its first lexical error.
pub open spec fn lex_spec(source: Seq<char>) -> SpecLexResult {
    lex_from(source, 0)
}

pub open spec fn view_tokens(v: Seq<Spanned>) -> Seq<SpecSpanned> {
    v.map_values(|s: Spanned| s@)
}

pub open spec fn view_lex_result(r: Result<Vec<Spanned>, LexError>) -> SpecLexResult {
    match r {
        Ok(v) => Ok(view_tokens(v@)),
        Err(e) => Err(e@),
    }
}

proof fn lemma_ref_end_bounds(cs: Seq<char>, j: int)
    requires
        0 <= j <= cs.len(),
    ensures
        j <= ref_end(cs, j) <= cs.len(),
    decreases cs.len() - j,
{
    if j < cs.len() && is_reference_char(cs[j]) {
        lemma_ref_end_bounds(cs, j + 1);
    }
}

proof fn lemma_prepend_cons(ts: Seq<SpecSpanned>, t: SpecSpanned, r: SpecLexResult)
    ensures
        prepend(ts, cons(t, r)) == prepend(ts.push(t), r),
{
    match r {
        Ok(rest) => {
            assert(ts + (seq![t] + rest) =~= ts.push(t) + rest);
        },
        Err(_) => {},
    }
}

fn char_width(c: char) -> (r: usize)
    ensures
        r == utf8_width(c),
{
    let v = c as u32;
    if v < 0x80 {
        1
    } else if v < 0x800 {
        2
    } else if v < 0x10000 {
        3
    } else {
        4
    }
}

/// Moves a saturated byte offset from character `from` to character `to`.
fn advance(chars: &Vec<char>, from: usize, to: usize, offset: usize) -> (r: usize)
    requires
        from <= to <= chars@.len(),
        offset == offset_at(chars@, from as int),
    ensures
        r == offset_at(chars@, to as int),
{
    let mut k = from;
    let mut off = offset;
    while k < to
        invariant
            from <= k <= to <= chars@.len(),
            off == offset_at(chars@, k as int),
        decreases to - k,
    {
        let w = char_width(chars[k]);
        off = if off > usize::MAX - w {
            usize::MAX
        } else {
            off + w
        };
        k = k + 1;
        assert(byte_offset(chars@, k as int) == byte_offset(chars@, (k - 1) as int) + utf8_width(
            chars@[(k - 1) as int],
        ));
    }
    off
}

fn scan_ref(chars: &Vec<char>, start: usize) -> (r: usize)
    requires
        start <= chars@.len(),
    ensures
        r == ref_end(chars@, start as int),
        start <= r <= chars@.len(),
{
    let mut end = start;
    while end < chars.len() && (is_alnum(chars[end]) || chars[end] == '.' || chars[end] == '_'
        || chars[end] == '-')
        invariant
            start <= end <= chars@.len(),
            ref_end(chars@, start as int) == ref_end(chars@, end as int),
        decreases chars@.len() - end,
    {
        end = end + 1;
    }
    end
}

pub(crate) fn scan_run(chars: &Vec<char>, start: usize) -> (r: usize)
    requires
        start <= chars@.len(),
    ensures
        r == run_end(chars@, start as int),
        start <= r <= chars@.len(),
{
    let mut end = start;
    while end < chars.len() && (is_digit(chars[end]) || chars[end] == '.')
        invariant
            start <= end <= chars@.len(),
            run_end(chars@, start as int) == run_end(chars@, end as int),
        decreases chars@.len() - end,
    {
        end = end + 1;
    }
    end
}

pub(crate) fn scan_digits(chars: &Vec<char>, start: usize) -> (r: usize)
    requires
        start <= chars@.len(),
    ensures
        r == digit_end(chars@, start as int),
        start <= r <= chars@.len(),
{
    let mut end = start;
    while end < chars.len() && is_digit(chars[end])
        invariant
            start <= end <= chars@.len(),
            digit_end(chars@, start as int) == digit_end(chars@, end as int),
        decreases chars@.len() - end,
    {
        end = end + 1;
    }
    end
}

fn scan_ident(chars: &Vec<char>, start: usize) -> (r: usize)
    requires
        start <= chars@.len(),
    ensures
        r == ident_end(chars@, start as int),
        start <= r <= chars@.len(),
{
    let mut end = start;
    while end < chars.len() && (is_alnum(chars[end]) || chars[end] == '_')
        invariant
            start <= end <= chars@.len(),
            ident_end(chars@, start as int) == ident_end(chars@, end as int),
        decreases chars@.len() - end,
    {
        end = end + 1;
    }
    end
}

pub(crate) fn exponent_digit_start(chars: &Vec<char>, r: usize) -> (x: Option<usize>)
    requires
        r <= chars@.len(),
    ensures
        match x {
            Some(x) => exponent_start(chars@, r as int) == Some(x as int) && x < chars@.len(),
            None => exponent_start(chars@, r as int) is None,
        },
{
    let n = chars.len();
    if r < n && r + 1 < n && (chars[r] == 'e' || chars[r] == 'E') {
        let x = if chars[r + 1] == '+' || chars[r + 1] == '-' {
            r + 2
        } else {
            r + 1
        };
        if x < n && is_digit(chars[x]) {
            Some(x)
        } else {
            None
        }
    } else {
        None
    }
}

/// Reads the number lexeme at `i` (whose digit run ends at `r`).
pub(crate) fn read_number(chars: &Vec<char>, i: usize, r: usize) -> (res: Option<Number>)
    requires
        i <= r <= chars@.len(),
        r == run_end(chars@, i as int),
    ensures
        match res {
            Some(n) => lexeme_number(chars@, i as int) == Some(n@) && n.wf(),
            None => lexeme_number(chars@, i as int) is None,
        },
{
    let ghost cs = chars@;
    proof {
        lemma_run_chars(cs, i as int);
    }
    let mut digits: Vec<u8> = Vec::new();
    let mut dots: usize = 0;
    let mut frac: usize = 0;
    let mut k = i;
    while k < r
        invariant
            i <= k <= r <= cs.len(),
            cs == chars@,
            forall|j: int| i <= j < r ==> #[trigger] is_run_char(cs[j]),
            digits@ == mant_digits(cs.subrange(i as int, k as int)),
            dots == dot_count(cs.subrange(i as int, k as int)),
            dots <= k - i,
            digits@.len() <= k - i,
            dots <= 1 ==> frac == frac_len(cs.subrange(i as int, k as int)),
            frac <= k - i,
            forall|j: int| 0 <= j < digits@.len() ==> #[trigger] digits@[j] < 10,
        decreases r - k,
    {
        let c = chars[k];
        let ghost prev = cs.subrange(i as int, k as int);
        assert(is_run_char(cs[k as int]));
        if c == '.' {
            dots = dots + 1;
            frac = 0;
        } else {
            digits.push(((c as u32) - 48) as u8);
            if dots > 0 {
                frac = frac + 1;
            }
        }
        k = k + 1;
        proof {
            let next = cs.subrange(i as int, k as int);
            assert(next.drop_last() =~= prev);
            assert(next.last() == c);
        }
    }
    if dots > 1 {
        return None;
    }
    let cap: i128 = 1267650600228229401496703205376i128;
    let mut ev: i128 = 0;
    let ghost mut exact_ev: int = 0;
    let xo = exponent_digit_start(chars, r);
    match xo {
        Some(x) => {
            let end = scan_digits(chars, x);
            proof {
                lemma_digit_chars(cs, x as int);
            }
            let mut value: i128 = 0;
            let mut k2 = x;
            while k2 < end
                invariant
                    x <= k2 <= end <= cs.len(),
                    cs == chars@,
                    forall|j: int| x <= j < end ==> #[trigger] is_digit_spec(cs[j]),
                    cap == 1267650600228229401496703205376i128,
                    0 <= value <= cap,
                    value == if digits_value(cs.subrange(x as int, k2 as int)) > cap {
                        cap as int
                    } else {
                        digits_value(cs.subrange(x as int, k2 as int)) as int
                    },
                decreases end - k2,
            {
                let c = chars[k2];
                assert(is_digit_spec(cs[k2 as int]));
                let d: i128 = ((c as u32) - 48) as i128;
                let ghost prev = cs.subrange(x as int, k2 as int);
                let ghost old_value = value;
                value = if value > (cap - d) / 10 {
                    cap
                } else {
                    value * 10 + d
                };
                k2 = k2 + 1;
                proof {
                    let next = cs.subrange(x as int, k2 as int);
                    assert(next.drop_last() =~= prev);
                    assert(next.last() == c);
                    assert(digits_value(next) == digits_value(prev) * 10 + d);
                    lemma_saturating_step(digits_value(prev) as int, old_value as int, d as int, value as int);
                }
            }
            ev = if chars[r + 1] == '-' {
                -value
            } else {
                value
            };
            proof {
                assert(cs.subrange(x as int, k2 as int) == cs.subrange(x as int, digit_end(cs, x as int)));
                let v = digits_value(cs.subrange(x as int, digit_end(cs, x as int))) as int;
                exact_ev = if cs[r + 1] == '-' {
                    -v
                } else {
                    v
                };
            }
        },
        None => {},
    }
    let raw: i128 = ev - frac as i128;
    let result = Some(canonicalize(&digits, raw));
    proof {
        let m = cs.subrange(i as int, r as int);
        assert(dot_count(m) <= 1);
        assert(m == cs.subrange(i as int, r as int));
        assert(frac == frac_len(m));
        assert(digits@ == mant_digits(m));
        crate::number::lemma_canonical_exponent_shift(digits@, raw as int, exact_ev - frac_len(m));
    }
    result
}

proof fn lemma_saturating_step(v: int, old_value: int, d: int, value: int)
    requires
        0 <= v,
        0 <= d <= 9,
        old_value == if v > 1267650600228229401496703205376 {
            1267650600228229401496703205376
        } else {
            v
        },
        value == if old_value > (1267650600228229401496703205376 - d) / 10 {
            1267650600228229401496703205376
        } else {
            old_value * 10 + d
        },
    ensures
        value == if v * 10 + d > 1267650600228229401496703205376 {
            1267650600228229401496703205376
        } else {
            v * 10 + d
        },
        0 <= value <= 1267650600228229401496703205376,
{
    let cap = 1267650600228229401496703205376int;
    if v > cap {
        assert(v * 10 + d > cap) by (nonlinear_arith)
            requires
                v > cap,
                d >= 0,
                cap > 0,
        ;
    } else if old_value > (cap - d) / 10 {
        assert(v * 10 + d > cap) by (nonlinear_arith)
            requires
                v > (cap - d) / 10,
                0 <= d <= 9,
                cap > 9,
        ;
    } else {
        assert(v * 10 + d <= cap) by (nonlinear_arith)
            requires
                v <= (cap - d) / 10,
                0 <= d <= 9,
                cap > 9,
        ;
    }
}

proof fn lemma_run_chars(cs: Seq<char>, j: int)
    requires
        0 <= j <= cs.len(),
    ensures
        forall|k: int| j <= k < run_end(cs, j) ==> #[trigger] is_run_char(cs[k]),
        j <= run_end(cs, j) <= cs.len(),
    decreases cs.len() - j,
{
    if j < cs.len() && is_run_char(cs[j]) {
        lemma_run_chars(cs, j + 1);
    }
}

proof fn lemma_digit_chars(cs: Seq<char>, j: int)
    requires
        0 <= j <= cs.len(),
    ensures
        forall|k: int| j <= k < digit_end(cs, j) ==> #[trigger] is_digit_spec(cs[k]),
        j <= digit_end(cs, j) <= cs.len(),
    decreases cs.len() - j,
{
    if j < cs.len() && is_digit_spec(cs[j]) {
        lemma_digit_chars(cs, j + 1);
    }
}

/// Tokenize a formula. Returns the tokens with their byte offsets, or the
/// first lexical error.
pub fn lex(source: &str) -> (r: Result<Vec<Spanned>, LexError>)
    ensures
        view_lex_result(r) == lex_spec(source@),
        r matches Ok(v) ==> forall|i: int|
            0 <= i < v@.len() ==> ((#[trigger] v@[i]).token matches Token::Number(n) ==> n.wf()),
{
    let chars = chars_of(source);
    let ghost cs = chars@;
    let n = chars.len();
    let mut tokens: Vec<Spanned> = Vec::new();
    let mut index: usize = 0;
    let mut offset: usize = 0;
    while index < n
        invariant
            cs == chars@,
            cs == source@,
            n == cs.len(),
            index <= n,
            offset == offset_at(cs, index as int),
            lex_from(cs, 0) == prepend(view_tokens(tokens@), lex_from(cs, index as int)),
            forall|i: int|
                0 <= i < tokens@.len() ==> ((#[trigger] tokens@[i]).token matches Token::Number(
                    n,
                ) ==> n.wf()),
        decreases n - index,
    {
        let c = chars[index];
        let ghost before = view_tokens(tokens@);
        if is_whitespace(c) {
            let next = index + 1;
            assert(lex_from(cs, index as int) == lex_from(cs, next as int));
            offset = advance(&chars, index, next, offset);
            index = next;
            continue;
        }
        let single = if c == '+' {
            Some(Token::Plus)
        } else if c == '-' {
            Some(Token::Minus)
        } else if c == '*' {
            Some(Token::Star)
        } else if c == '/' {
            Some(Token::Slash)
        } else if c == '(' {
            Some(Token::LeftParen)
        } else if c == ')' {
            Some(Token::RightParen)
        } else if c == ',' {
            Some(Token::Comma)
        } else {
            None
        };
        let mut next: usize = index + 1;
        let mut token: Option<Token> = None;
        if single.is_some() {
            token = single;
            assert(single_token(c) == Some(token->0@));
        } else if c == '@' {
            let end = scan_ref(&chars, index + 1);
            if end == index + 1 {
                let e = LexError {
                    offset,
                    message: String::from_str(
                        "a reference must name a parameter, station, or component",
                    ),
                };
                return Err(e);
            }
            let text = string_from_chars(&chars.as_slice()[index + 1..end]);
            token = Some(Token::Reference(text));
            next = end;
        } else if is_digit(c) {
            let r = scan_run(&chars, index + 1);
            assert(r == run_end(cs, index as int));
            let end = match exponent_digit_start(&chars, r) {
                Some(x) => scan_digits(&chars, x),
                None => r,
            };
            match read_number(&chars, index, r) {
                Some(value) => {
                    token = Some(Token::Number(value));
                    next = end;
                },
                None => {
                    let mut message = String::from_str("invalid number \"");
                    let text = string_from_chars(&chars.as_slice()[index..end]);
                    message.append(text.as_str());
                    message.append("\"");
                    return Err(LexError { offset, message });
                },
            }
        } else if is_alpha(c) || c == '_' {
            let end = scan_ident(&chars, index + 1);
            assert(end == ident_end(cs, index as int));
            let text = string_from_chars(&chars.as_slice()[index..end]);
            token = Some(Token::Ident(text));
            next = end;
        } else if c == '=' {
            if index + 1 < n && chars[index + 1] == '=' {
                token = Some(Token::Equal);
                next = index + 2;
            } else {
                return Err(
                    LexError {
                        offset,
                        message: String::from_str(
                            "single '=' is not an operator; use '==' to compare",
                        ),
                    },
                );
            }
        } else if c == '!' {
            if index + 1 < n && chars[index + 1] == '=' {
                token = Some(Token::NotEqual);
                next = index + 2;
            } else {
                return Err(
                    LexError {
                        offset,
                        message: String::from_str("'!' alone is not an operator; use '!='"),
                    },
                );
            }
        } else if c == '<' {
            if index + 1 < n && chars[index + 1] == '=' {
                token = Some(Token::LessEqual);
                next = index + 2;
            } else {
                token = Some(Token::Less);
            }
        } else if c == '>' {
            if index + 1 < n && chars[index + 1] == '=' {
                token = Some(Token::GreaterEqual);
                next = index + 2;
            } else {
                token = Some(Token::Greater);
            }
        } else {
            let mut message = String::from_str("unexpected character ");
            let shown = char_debug(c);
            message.append(shown.as_str());
            return Err(LexError { offset, message });
        }
        let t = token.unwrap();
        assert(t matches Token::Number(n) ==> n.wf());
        let spanned = Spanned { token: t, offset };
        assert(lex_from(cs, index as int) == cons(spanned@, lex_from(cs, next as int)));
        proof {
            lemma_prepend_cons(before, spanned@, lex_from(cs, next as int));
        }
        tokens.push(spanned);
        proof {
            assert(view_tokens(tokens@) =~= before.push(spanned@));
        }
        offset = advance(&chars, index, next, offset);
        index = next;
    }
    proof {
        assert(view_tokens(tokens@) + Seq::<SpecSpanned>::empty() =~= view_tokens(tokens@));
    }
    Ok(tokens)
}

/// What the source shows at the start `j` of a token: a reference token is
/// `@` followed by its name, the longest run of reference characters there;
/// an identifier is the longest run of identifier characters from `j`.
pub open spec fn token_at(cs: Seq<char>, j: int, t: SpecToken) -> bool {
    match t {
        SpecToken::Reference(name) => {
            let e = j + 1 + name.len();
            &&& cs[j] == '@'
            &&& name.len() > 0
            &&& e <= cs.len()
            &&& cs.subrange(j + 1, e) == name
            &&& forall|m: int| 0 <= m < name.len() ==> is_reference_char(#[trigger] name[m])
            &&& !(e < cs.len() && is_reference_char(cs[e]))
        },
        SpecToken::Ident(name) => {
            let e = j + name.len();
            &&& name.len() > 0
            &&& is_ident_start(name[0])
            &&& e <= cs.len()
            &&& cs.subrange(j, e) == name
            &&& forall|m: int| 0 <= m < name.len() ==> is_ident_char(#[trigger] name[m])
            &&& !(e < cs.len() && is_ident_char(cs[e]))
        },
        _ => true,
    }
}

/// Tokens `ts` start at the characters `pos` of `cs`, all at or after `i`:
/// each at a non-blank character whose byte offset it carries, in strictly
/// increasing order, and each reads as [`token_at`] says.
pub open spec fn tokens_located(cs: Seq<char>, ts: Seq<SpecSpanned>, pos: Seq<int>, i: int) -> bool {
    &&& pos.len() == ts.len()
    &&& forall|k: int|
        0 <= k < pos.len() ==> i <= #[trigger] pos[k] < cs.len() && !is_whitespace_spec(cs[pos[k]])
            && ts[k].offset == offset_at(cs, pos[k]) && token_at(cs, pos[k], ts[k].token)
    &&& forall|k: int, l: int| 0 <= k < l < pos.len() ==> #[trigger] pos[k] < #[trigger] pos[l]
}

proof fn lemma_ref_end(cs: Seq<char>, j: int)
    requires
        0 <= j <= cs.len(),
    ensures
        j <= ref_end(cs, j) <= cs.len(),
        forall|m: int| j <= m < ref_end(cs, j) ==> is_reference_char(#[trigger] cs[m]),
        !(ref_end(cs, j) < cs.len() && is_reference_char(cs[ref_end(cs, j)])),
    decreases cs.len() - j,
{
    if j < cs.len() && is_reference_char(cs[j]) {
        lemma_ref_end(cs, j + 1);
    }
}

proof fn lemma_ident_end(cs: Seq<char>, j: int)
    requires
        0 <= j <= cs.len(),
    ensures
        j <= ident_end(cs, j) <= cs.len(),
        forall|m: int| j <= m < ident_end(cs, j) ==> is_ident_char(#[trigger] cs[m]),
        !(ident_end(cs, j) < cs.len() && is_ident_char(cs[ident_end(cs, j)])),
    decreases cs.len() - j,
{
    if j < cs.len() && is_ident_char(cs[j]) {
        lemma_ident_end(cs, j + 1);
    }
}

proof fn lemma_cons_located(cs: Seq<char>, i: int, e: int, t: SpecSpanned, rest: Seq<SpecSpanned>, pos: Seq<int>)
    requires
        tokens_located(cs, rest, pos, e),
        0 <= i < e,
        i < cs.len(),
        !is_whitespace_spec(cs[i]),
        t.offset == offset_at(cs, i),
        token_at(cs, i, t.token),
    ensures
        tokens_located(cs, seq![t] + rest, seq![i] + pos, i),
{
    let ts = seq![t] + rest;
    let ps = seq![i] + pos;
    assert forall|k: int| 0 <= k < ps.len() implies i <= #[trigger] ps[k] < cs.len() && !is_whitespace_spec(
        cs[ps[k]],
    ) && ts[k].offset == offset_at(cs, ps[k]) && token_at(cs, ps[k], ts[k].token) by {
        if k > 0 {
            assert(ps[k] == pos[k - 1] && ts[k] == rest[k - 1]);
        }
    }
    assert forall|k: int, l: int| 0 <= k < l < ps.len() implies #[trigger] ps[k] < #[trigger] ps[l] by {
        assert(ps[l] == pos[l - 1]);
        if k > 0 {
            assert(ps[k] == pos[k - 1]);
        }
    }
}

#[verifier::rlimit(60)]
#[verifier::spinoff_prover]
proof fn lemma_lex_located(cs: Seq<char>, i: int)
    requires
        0 <= i,
        lex_from(cs, i) is Ok,
    ensures
        exists|pos: Seq<int>| #[trigger] tokens_located(cs, lex_from(cs, i)->Ok_0, pos, i),
    decreases cs.len() - i,
{
    if i >= cs.len() {
        assert(tokens_located(cs, Seq::empty(), Seq::empty(), i));
    } else {
        let c = cs[i];
        if is_whitespace_spec(c) {
            lemma_lex_located(cs, i + 1);
            let pos = choose|pos: Seq<int>| #[trigger] tokens_located(cs, lex_from(cs, i + 1)->Ok_0, pos, i + 1);
            assert(tokens_located(cs, lex_from(cs, i)->Ok_0, pos, i));
        } else {
            let e: int = if single_token(c) is Some {
                i + 1
            } else if c == '@' {
                ref_end(cs, i + 1)
            } else if is_digit_spec(c) {
                number_end(cs, i)
            } else if is_ident_start(c) {
                ident_end(cs, i)
            } else if c == '=' || c == '!' || ((c == '<' || c == '>') && i + 1 < cs.len() && cs[i + 1] == '=') {
                i + 2
            } else {
                i + 1
            };
            if c == '@' {
                lemma_ref_end(cs, i + 1);
            }
            if is_ident_start(c) && single_token(c) is None && c != '@' && !is_digit_spec(c) {
                lemma_ident_end(cs, i);
            }
            if i < e <= cs.len() && lex_from(cs, i) == cons(lex_from(cs, i)->Ok_0[0], lex_from(cs, e)) {
                lemma_lex_located(cs, e);
                let pos = choose|pos: Seq<int>| #[trigger] tokens_located(cs, lex_from(cs, e)->Ok_0, pos, e);
                let t = lex_from(cs, i)->Ok_0[0];
                let rest = lex_from(cs, e)->Ok_0;
                if c == '@' {
                    let name = cs.subrange(i + 1, e);
                    assert forall|m: int| 0 <= m < name.len() implies is_reference_char(#[trigger] name[m]) by {
                        assert(name[m] == cs[i + 1 + m]);
                    }
                }
                if is_ident_start(c) && single_token(c) is None && c != '@' && !is_digit_spec(c) {
                    let name = cs.subrange(i, e);
                    assert(name[0] == c);
                    assert forall|m: int| 0 <= m < name.len() implies is_ident_char(#[trigger] name[m]) by {
                        assert(name[m] == cs[i + m]);
                    }
                }
                lemma_cons_located(cs, i, e, t, rest, pos);
                assert(lex_from(cs, i)->Ok_0 == seq![t] + rest);
            } else {
                assert(lex_from(cs, i)->Ok_0 =~= Seq::<SpecSpanned>::empty());
                assert(tokens_located(cs, Seq::empty(), Seq::empty(), i));
            }
        }
    }
}

proof fn lemma_byte_offset_grows(cs: Seq<char>, j: int, l: int)
    requires
        0 <= j < l <= cs.len(),
    ensures
        byte_offset(cs, j) < byte_offset(cs, l),
    decreases l - j,
{
    if l - 1 > j {
        lemma_byte_offset_grows(cs, j, l - 1);
    }
}

/// The lexer's tokens start at non-blank characters of the source, in source
/// order, each carrying the byte offset where its text starts; a reference
/// token is `@` then the longest run of reference characters, an identifier
/// the longest run of identifier characters. When the source's byte length
/// fits a `usize`, the offsets strictly increase.
pub proof fn law_lex_positions(source: Seq<char>)
    requires
        lex_spec(source) is Ok,
    ensures
        exists|pos: Seq<int>| #[trigger] tokens_located(source, lex_spec(source)->Ok_0, pos, 0),
        byte_offset(source, source.len() as int) <= usize::MAX ==> forall|k: int, l: int|
            0 <= k < l < lex_spec(source)->Ok_0.len() ==> #[trigger] lex_spec(source)->Ok_0[k].offset
                < #[trigger] lex_spec(source)->Ok_0[l].offset,
{
    lemma_lex_located(source, 0);
    let ts = lex_spec(source)->Ok_0;
    let pos = choose|pos: Seq<int>| #[trigger] tokens_located(source, ts, pos, 0);
    if byte_offset(source, source.len() as int) <= usize::MAX {
        assert forall|k: int, l: int| 0 <= k < l < ts.len() implies #[trigger] ts[k].offset < #[trigger] ts[l].offset by {
            assert(pos[k] < pos[l]);
            lemma_byte_offset_grows(source, pos[k], pos[l]);
            if pos[l] < source.len() {
                lemma_byte_offset_grows(source, pos[l], source.len() as int);
            }
        }
    }
}

} // verus!
