//! Recursive-descent parser for the expression grammar:
//!
//! ```text
//! comparison     := additive (cmp-op additive)?
//! additive       := multiplicative (('+' | '-') multiplicative)*
//! multiplicative := unary (('*' | '/') unary)*
//! unary          := '-' unary | primary
//! primary        := number | reference | name '(' args? ')' | '(' comparison ')'
//! ```
use crate::ast::{
    number_plain, BinOp, CmpOp, Coordinate, Expr, Function, Ref, SpecExpr, SpecRef, StationLeaf,
    view_exprs,
};
use crate::diagnostic::{error_view, Code, Diagnostic, DiagnosticView};
use crate::lexer::{lex, lex_spec, view_tokens, SpecSpanned, SpecToken, Spanned, Token};
use crate::text::{
    append_nat, chars_of, is_whitespace, is_whitespace_spec, push_char, seq_of_nat,
    string_from_chars,
};
use vstd::prelude::*;

verus! {

/// Maximum parenthesis nesting.
pub const MAX_NESTING: u32 = 64u32;

/// `message (at offset N)` as an expression-syntax error.
pub open spec fn syntax_spec(message: Seq<char>, offset: int) -> DiagnosticView {
    error_view(
        Code::ExpressionSyntax,
        message + " (at offset "@ + seq_of_nat(offset as nat) + ")"@,
    )
}

fn syntax(message: &str, offset: usize) -> (r: Diagnostic)
    ensures
        r@ == syntax_spec(message@, offset as int),
{
    let mut text = String::from_str(message);
    text.append(" (at offset ");
    append_nat(&mut text, offset as u64);
    text.append(")");
    Diagnostic::error(Code::ExpressionSyntax, text)
}

pub open spec fn describe_spec(t: SpecToken) -> Seq<char> {
    match t {
        SpecToken::Number(n) => "the number "@ + number_plain(n),
        SpecToken::Reference(text) => "the reference '@"@ + text + "'"@,
        SpecToken::Ident(name) => "the identifier '"@ + name + "'"@,
        SpecToken::Plus => "'+'"@,
        SpecToken::Minus => "'-'"@,
        SpecToken::Star => "'*'"@,
        SpecToken::Slash => "'/'"@,
        SpecToken::LeftParen => "'('"@,
        SpecToken::RightParen => "')'"@,
        SpecToken::Comma => "','"@,
        SpecToken::Equal => "'=='"@,
        SpecToken::NotEqual => "'!='"@,
        SpecToken::Less => "'<'"@,
        SpecToken::LessEqual => "'<='"@,
        SpecToken::Greater => "'>'"@,
        SpecToken::GreaterEqual => "'>='"@,
    }
}

/// Human-readable name of a token for error messages.
fn describe(token: &Token) -> (r: String)
    requires
        token matches Token::Number(n) ==> n.wf(),
    ensures
        r@ == describe_spec(token@),
{
    match token {
        Token::Number(value) => {
            let mut out = String::from_str("the number ");
            let text = value.to_plain();
            out.append(text.as_str());
            out
        },
        Token::Reference(text) => {
            let mut out = String::from_str("the reference '@");
            out.append(text.as_str());
            out.append("'");
            out
        },
        Token::Ident(name) => {
            let mut out = String::from_str("the identifier '");
            out.append(name.as_str());
            out.append("'");
            out
        },
        Token::Plus => String::from_str("'+'"),
        Token::Minus => String::from_str("'-'"),
        Token::Star => String::from_str("'*'"),
        Token::Slash => String::from_str("'/'"),
        Token::LeftParen => String::from_str("'('"),
        Token::RightParen => String::from_str("')'"),
        Token::Comma => String::from_str("','"),
        Token::Equal => String::from_str("'=='"),
        Token::NotEqual => String::from_str("'!='"),
        Token::Less => String::from_str("'<'"),
        Token::LessEqual => String::from_str("'<='"),
        Token::Greater => String::from_str("'>'"),
        Token::GreaterEqual => String::from_str("'>='"),
    }
}

pub open spec fn arity_description_spec(minimum: usize, maximum: usize) -> Seq<char> {
    if maximum == usize::MAX {
        "at least "@ + seq_of_nat(minimum as nat)
    } else if minimum == maximum {
        seq_of_nat(minimum as nat)
    } else {
        seq_of_nat(minimum as nat) + " to "@ + seq_of_nat(maximum as nat)
    }
}

fn arity_description(minimum: usize, maximum: usize) -> (r: String)
    ensures
        r@ == arity_description_spec(minimum, maximum),
{
    let mut out = String::new();
    if maximum == usize::MAX {
        out.append("at least ");
        append_nat(&mut out, minimum as u64);
    } else if minimum == maximum {
        append_nat(&mut out, minimum as u64);
    } else {
        append_nat(&mut out, minimum as u64);
        out.append(" to ");
        append_nat(&mut out, maximum as u64);
    }
    out
}

// ---------------------------------------------------------------------------
// References
/// `s` split at every `sep`, as `str::split` does.
pub open spec fn split_spec(s: Seq<char>, sep: char) -> Seq<Seq<char>>
    decreases s.len(),
{
    if s.len() == 0 {
        seq![Seq::empty()]
    } else {
        let p = split_spec(s.drop_last(), sep);
        if s.last() == sep {
            p.push(Seq::empty())
        } else {
            p.update(p.len() - 1, p.last().push(s.last()))
        }
    }
}

pub proof fn lemma_split_nonempty(s: Seq<char>, sep: char)
    ensures
        split_spec(s, sep).len() >= 1,
    decreases s.len(),
{
    if s.len() > 0 {
        lemma_split_nonempty(s.drop_last(), sep);
    }
}

pub fn split_chars(s: &Vec<char>, sep: char) -> (r: Vec<Vec<char>>)
    ensures
        r@.len() == split_spec(s@, sep).len(),
        forall|i: int| 0 <= i < r@.len() ==> (#[trigger] r@[i])@ == split_spec(s@, sep)[i],
{
    let mut parts: Vec<Vec<char>> = Vec::new();
    parts.push(Vec::new());
    let mut i: usize = 0;
    while i < s.len()
        invariant
            i <= s@.len(),
            parts@.len() == split_spec(s@.subrange(0, i as int), sep).len(),
            parts@.len() >= 1,
            forall|k: int| 0 <= k < parts@.len() ==> (#[trigger] parts@[k])@ == split_spec(
                s@.subrange(0, i as int),
                sep,
            )[k],
        decreases s@.len() - i,
    {
        let c = s[i];
        let ghost prev = s@.subrange(0, i as int);
        let ghost before = parts@;
        if c == sep {
            parts.push(Vec::new());
        } else {
            let last = parts.len() - 1;
            let mut piece = parts.remove(last);
            piece.push(c);
            parts.push(piece);
        }
        i = i + 1;
        proof {
            let next = s@.subrange(0, i as int);
            assert(next.drop_last() =~= prev);
            assert(next.last() == c);
            lemma_split_nonempty(prev, sep);
            let sp = split_spec(next, sep);
            assert(parts@.len() == sp.len());
            assert forall|k: int| 0 <= k < parts@.len() implies (#[trigger] parts@[k])@ == sp[k] by {
                if k < parts@.len() - 1 {
                    assert(parts@[k] == before[k]);
                }
            }
        }
    }
    assert(s@.subrange(0, s@.len() as int) =~= s@);
    parts
}

pub open spec fn starts_with(s: Seq<char>, prefix: Seq<char>) -> bool {
    prefix.len() <= s.len() && s.subrange(0, prefix.len() as int) == prefix
}

pub open spec fn reference_error(message: Seq<char>, offset: int) -> Result<
    SpecRef,
    DiagnosticView,
> {
    Err(syntax_spec(message, offset))
}

pub open spec fn station_forms() -> Seq<char> {
    "supported forms: @station.<id>.position.[x|y|z], @station.<id>.chord, @station.<id>.twist"@
}

pub open spec fn component_form() -> Seq<char> {
    "supported form: @component.<id>.interface.<name>.origin.[x|y|z]"@
}

pub open spec fn coordinate_of(text: Seq<char>) -> Option<Coordinate> {
    if text == "x"@ {
        Some(Coordinate::X)
    } else if text == "y"@ {
        Some(Coordinate::Y)
    } else if text == "z"@ {
        Some(Coordinate::Z)
    } else {
        None
    }
}

/// Meaning of a reference token's text (without the `@`).
pub open spec fn parse_reference_spec(text: Seq<char>, offset: int) -> Result<
    SpecRef,
    DiagnosticView,
> {
    if starts_with(text, "param."@) {
        let rest = text.subrange(6, text.len() as int);
        if rest.len() == 0 {
            reference_error("a @param reference must name a parameter"@, offset)
        } else {
            Ok(SpecRef::Parameter(rest))
        }
    } else if starts_with(text, "station."@) {
        let parts = split_spec(text.subrange(8, text.len() as int), '.');
        if parts.len() == 3 && parts[1] == "position"@ && coordinate_of(parts[2]) is Some {
            let leaf = match coordinate_of(parts[2])->0 {
                Coordinate::X => StationLeaf::PositionX,
                Coordinate::Y => StationLeaf::PositionY,
                Coordinate::Z => StationLeaf::PositionZ,
            };
            Ok(SpecRef::Station { station: parts[0], leaf })
        } else if parts.len() == 2 && parts[1] == "chord"@ {
            Ok(SpecRef::Station { station: parts[0], leaf: StationLeaf::Chord })
        } else if parts.len() == 2 && parts[1] == "twist"@ {
            Ok(SpecRef::Station { station: parts[0], leaf: StationLeaf::Twist })
        } else {
            reference_error(station_forms(), offset)
        }
    } else if starts_with(text, "component."@) {
        let parts = split_spec(text.subrange(10, text.len() as int), '.');
        if parts.len() == 5 && parts[1] == "interface"@ && parts[3] == "origin"@ && coordinate_of(
            parts[4],
        ) is Some {
            Ok(
                SpecRef::InterfaceOrigin {
                    component: parts[0],
                    interface: parts[2],
                    coordinate: coordinate_of(parts[4])->0,
                },
            )
        } else {
            reference_error(component_form(), offset)
        }
    } else {
        reference_error(
            "unknown reference prefix; references start with @param, @station, or @component"@,
            offset,
        )
    }
}

pub open spec fn view_ref_result(r: Result<Ref, Diagnostic>) -> Result<SpecRef, DiagnosticView> {
    match r {
        Ok(x) => Ok(x@),
        Err(d) => Err(d@),
    }
}

fn has_prefix(s: &Vec<char>, prefix: &str) -> (r: bool)
    ensures
        r == starts_with(s@, prefix@),
{
    let p = chars_of(prefix);
    if p.len() > s.len() {
        return false;
    }
    let mut i: usize = 0;
    while i < p.len()
        invariant
            p@ == prefix@,
            p@.len() <= s@.len(),
            i <= p@.len(),
            forall|k: int| 0 <= k < i ==> s@[k] == p@[k],
        decreases p@.len() - i,
    {
        if s[i] != p[i] {
            assert(s@.subrange(0, p@.len() as int)[i as int] != p@[i as int]);
            return false;
        }
        i = i + 1;
    }
    assert(s@.subrange(0, p@.len() as int) =~= p@);
    true
}

fn chars_eq(a: &Vec<char>, b: &str) -> (r: bool)
    ensures
        r == (a@ == b@),
{
    let text = string_from_chars(a.as_slice());
    crate::text::str_eq(text.as_str(), b)
}

fn coordinate_from(text: &Vec<char>) -> (r: Option<Coordinate>)
    ensures
        r == coordinate_of(text@),
{
    if chars_eq(text, "x") {
        Some(Coordinate::X)
    } else if chars_eq(text, "y") {
        Some(Coordinate::Y)
    } else if chars_eq(text, "z") {
        Some(Coordinate::Z)
    } else {
        None
    }
}

fn tail_from(s: &Vec<char>, start: usize) -> (r: Vec<char>)
    requires
        start <= s@.len(),
    ensures
        r@ == s@.subrange(start as int, s@.len() as int),
{
    let mut out: Vec<char> = Vec::new();
    let mut i = start;
    while i < s.len()
        invariant
            start <= i <= s@.len(),
            out@ == s@.subrange(start as int, i as int),
        decreases s@.len() - i,
    {
        out.push(s[i]);
        i = i + 1;
        assert(out@ =~= s@.subrange(start as int, i as int));
    }
    out
}

/// Parse the text of a reference token (without the `@`).
fn parse_reference(text: &str, offset: usize) -> (r: Result<Ref, Diagnostic>)
    ensures
        view_ref_result(r) == parse_reference_spec(text@, offset as int),
{
    let chars = chars_of(text);
    proof {
        reveal_strlit("param.");
        reveal_strlit("station.");
        reveal_strlit("component.");
    }
    if has_prefix(&chars, "param.") {
        let rest = tail_from(&chars, 6);
        if rest.len() == 0 {
            return Err(syntax("a @param reference must name a parameter", offset));
        }
        return Ok(Ref::Parameter(string_from_chars(rest.as_slice())));
    }
    if has_prefix(&chars, "station.") {
        let rest = tail_from(&chars, 8);
        let parts = split_chars(&rest, '.');
        if parts.len() == 3 && chars_eq(&parts[1], "position") {
            match coordinate_from(&parts[2]) {
                Some(c) => {
                    let leaf = match c {
                        Coordinate::X => StationLeaf::PositionX,
                        Coordinate::Y => StationLeaf::PositionY,
                        Coordinate::Z => StationLeaf::PositionZ,
                    };
                    return Ok(
                        Ref::Station { station: string_from_chars(parts[0].as_slice()), leaf },
                    );
                },
                None => {},
            }
        }
        if parts.len() == 2 && chars_eq(&parts[1], "chord") {
            return Ok(
                Ref::Station {
                    station: string_from_chars(parts[0].as_slice()),
                    leaf: StationLeaf::Chord,
                },
            );
        }
        if parts.len() == 2 && chars_eq(&parts[1], "twist") {
            return Ok(
                Ref::Station {
                    station: string_from_chars(parts[0].as_slice()),
                    leaf: StationLeaf::Twist,
                },
            );
        }
        return Err(
            syntax(
                "supported forms: @station.<id>.position.[x|y|z], @station.<id>.chord, @station.<id>.twist",
                offset,
            ),
        );
    }
    if has_prefix(&chars, "component.") {
        let rest = tail_from(&chars, 10);
        let parts = split_chars(&rest, '.');
        if parts.len() == 5 && chars_eq(&parts[1], "interface") && chars_eq(&parts[3], "origin") {
            match coordinate_from(&parts[4]) {
                Some(c) => {
                    return Ok(
                        Ref::InterfaceOrigin {
                            component: string_from_chars(parts[0].as_slice()),
                            interface: string_from_chars(parts[2].as_slice()),
                            coordinate: c,
                        },
                    );
                },
                None => {},
            }
        }
        return Err(
            syntax("supported form: @component.<id>.interface.<name>.origin.[x|y|z]", offset),
        );
    }
    Err(
        syntax(
            "unknown reference prefix; references start with @param, @station, or @component",
            offset,
        ),
    )
}

// ---------------------------------------------------------------------------
// The grammar, as spec functions over the token sequence.
pub type PResult = Result<(SpecExpr, int), DiagnosticView>;

pub open spec fn internal_error() -> DiagnosticView {
    error_view(Code::Internal, Seq::empty())
}

/// The error `expect` reports when token `p` is not `what` was looking for.
pub open spec fn expect_error(ts: Seq<SpecSpanned>, what: Seq<char>, p: int) -> DiagnosticView {
    if 0 <= p < ts.len() {
        syntax_spec("expected "@ + what + ", found "@ + describe_spec(ts[p].token), ts[p].offset)
    } else {
        syntax_spec("expected "@ + what + ", found end of expression"@, 0)
    }
}

pub open spec fn is_token(ts: Seq<SpecSpanned>, p: int, t: SpecToken) -> bool {
    0 <= p < ts.len() && ts[p].token == t
}

pub open spec fn comparison_op_of(t: SpecToken) -> Option<CmpOp> {
    match t {
        SpecToken::Less => Some(CmpOp::Less),
        SpecToken::LessEqual => Some(CmpOp::LessEqual),
        SpecToken::Greater => Some(CmpOp::Greater),
        SpecToken::GreaterEqual => Some(CmpOp::GreaterEqual),
        SpecToken::Equal => Some(CmpOp::Equal),
        SpecToken::NotEqual => Some(CmpOp::NotEqual),
        _ => None,
    }
}

pub open spec fn add_op_of(t: SpecToken) -> Option<BinOp> {
    match t {
        SpecToken::Plus => Some(BinOp::Add),
        SpecToken::Minus => Some(BinOp::Sub),
        _ => None,
    }
}

pub open spec fn mul_op_of(t: SpecToken) -> Option<BinOp> {
    match t {
        SpecToken::Star => Some(BinOp::Mul),
        SpecToken::Slash => Some(BinOp::Div),
        _ => None,
    }
}

pub open spec fn op_at(ts: Seq<SpecSpanned>, p: int, f: spec_fn(SpecToken) -> Option<BinOp>) -> Option<
    BinOp,
> {
    if 0 <= p < ts.len() {
        f(ts[p].token)
    } else {
        None
    }
}

pub open spec fn p_comparison(ts: Seq<SpecSpanned>, pos: int, depth: int) -> PResult
    decreases ts.len() - pos, 7nat,
{
    if !(0 <= pos <= ts.len()) {
        Err(internal_error())
    } else {
        match p_additive(ts, pos, depth) {
            Err(e) => Err(e),
            Ok((lhs, p)) => if !(pos < p <= ts.len()) {
                Err(internal_error())
            } else if p < ts.len() && comparison_op_of(ts[p].token) is Some {
                let op = comparison_op_of(ts[p].token)->0;
                match p_additive(ts, p + 1, depth) {
                    Err(e) => Err(e),
                    Ok((rhs, q)) => Ok((SpecExpr::Compare(op, Box::new(lhs), Box::new(rhs)), q)),
                }
            } else {
                Ok((lhs, p))
            },
        }
    }
}

pub open spec fn p_additive(ts: Seq<SpecSpanned>, pos: int, depth: int) -> PResult
    decreases ts.len() - pos, 6nat,
{
    if !(0 <= pos <= ts.len()) {
        Err(internal_error())
    } else {
        match p_multiplicative(ts, pos, depth) {
            Err(e) => Err(e),
            Ok((lhs, p)) => if !(pos < p <= ts.len()) {
                Err(internal_error())
            } else {
                p_add_loop(ts, lhs, p, depth)
            },
        }
    }
}

pub open spec fn p_add_loop(ts: Seq<SpecSpanned>, lhs: SpecExpr, p: int, depth: int) -> PResult
    decreases ts.len() - p, 5nat,
{
    if !(0 <= p <= ts.len()) {
        Err(internal_error())
    } else if p < ts.len() && add_op_of(ts[p].token) is Some {
        let op = add_op_of(ts[p].token)->0;
        match p_multiplicative(ts, p + 1, depth) {
            Err(e) => Err(e),
            Ok((rhs, q)) => if !(p + 1 < q <= ts.len()) {
                Err(internal_error())
            } else {
                p_add_loop(ts, SpecExpr::Binary(op, Box::new(lhs), Box::new(rhs)), q, depth)
            },
        }
    } else {
        Ok((lhs, p))
    }
}

pub open spec fn p_multiplicative(ts: Seq<SpecSpanned>, pos: int, depth: int) -> PResult
    decreases ts.len() - pos, 4nat,
{
    if !(0 <= pos <= ts.len()) {
        Err(internal_error())
    } else {
        match p_unary(ts, pos, depth) {
            Err(e) => Err(e),
            Ok((lhs, p)) => if !(pos < p <= ts.len()) {
                Err(internal_error())
            } else {
                p_mul_loop(ts, lhs, p, depth)
            },
        }
    }
}

pub open spec fn p_mul_loop(ts: Seq<SpecSpanned>, lhs: SpecExpr, p: int, depth: int) -> PResult
    decreases ts.len() - p, 3nat,
{
    if !(0 <= p <= ts.len()) {
        Err(internal_error())
    } else if p < ts.len() && mul_op_of(ts[p].token) is Some {
        let op = mul_op_of(ts[p].token)->0;
        match p_unary(ts, p + 1, depth) {
            Err(e) => Err(e),
            Ok((rhs, q)) => if !(p + 1 < q <= ts.len()) {
                Err(internal_error())
            } else {
                p_mul_loop(ts, SpecExpr::Binary(op, Box::new(lhs), Box::new(rhs)), q, depth)
            },
        }
    } else {
        Ok((lhs, p))
    }
}

pub open spec fn p_unary(ts: Seq<SpecSpanned>, pos: int, depth: int) -> PResult
    decreases ts.len() - pos, 2nat,
{
    if !(0 <= pos <= ts.len()) {
        Err(internal_error())
    } else if is_token(ts, pos, SpecToken::Minus) {
        match p_unary(ts, pos + 1, depth) {
            Err(e) => Err(e),
            Ok((inner, q)) => Ok((SpecExpr::Negate(Box::new(inner)), q)),
        }
    } else {
        p_primary(ts, pos, depth)
    }
}

pub type AResult = Result<(Seq<SpecExpr>, int), DiagnosticView>;

/// A comma-separated argument list starting at `pos`, appended to `acc`.
pub open spec fn p_args(ts: Seq<SpecSpanned>, pos: int, depth: int, acc: Seq<SpecExpr>) -> AResult
    decreases ts.len() - pos, 8nat,
{
    if !(0 <= pos <= ts.len()) {
        Err(internal_error())
    } else {
        match p_comparison(ts, pos, depth) {
            Err(e) => Err(e),
            Ok((arg, p)) => if !(pos < p <= ts.len()) {
                Err(internal_error())
            } else if is_token(ts, p, SpecToken::Comma) {
                p_args(ts, p + 1, depth, acc.push(arg))
            } else {
                Ok((acc.push(arg), p))
            },
        }
    }
}

pub open spec fn arity_error(f: Function, count: int) -> Seq<char> {
    "function "@ + f.name_spec() + " expects "@ + arity_description_spec(
        f.arity_spec().0,
        f.arity_spec().1,
    ) + " argument(s), got "@ + seq_of_nat(count as nat)
}

/// The call `f(args)` whose closing parenthesis should stand at `q`.
pub open spec fn finish_call(
    ts: Seq<SpecSpanned>,
    f: Function,
    args: Seq<SpecExpr>,
    q: int,
    offset: int,
) -> PResult {
    if !is_token(ts, q, SpecToken::RightParen) {
        Err(expect_error(ts, "')' to close the argument list"@, q))
    } else if args.len() < f.arity_spec().0 || args.len() > f.arity_spec().1 {
        Err(syntax_spec(arity_error(f, args.len() as int), offset))
    } else {
        Ok((SpecExpr::Call(f, args), q + 1))
    }
}

pub open spec fn p_primary(ts: Seq<SpecSpanned>, pos: int, depth: int) -> PResult
    decreases ts.len() - pos, 1nat,
{
    if !(0 <= pos < ts.len()) {
        Err(syntax_spec("unexpected end of expression"@, 0))
    } else {
        let offset = ts[pos].offset;
        match ts[pos].token {
            SpecToken::Number(n) => Ok((SpecExpr::Literal(n), pos + 1)),
            SpecToken::Reference(text) => match parse_reference_spec(text, offset) {
                Ok(r) => Ok((SpecExpr::Reference(r), pos + 1)),
                Err(e) => Err(e),
            },
            SpecToken::Ident(name) => match Function::from_name_spec(name) {
                None => Err(syntax_spec("unknown function '"@ + name + "'"@, offset)),
                Some(f) => if !is_token(ts, pos + 1, SpecToken::LeftParen) {
                    Err(expect_error(ts, "'(' after a function name"@, pos + 1))
                } else if is_token(ts, pos + 2, SpecToken::RightParen) {
                    finish_call(ts, f, Seq::empty(), pos + 2, offset)
                } else {
                    match p_args(ts, pos + 2, depth, Seq::empty()) {
                        Err(e) => Err(e),
                        Ok((args, q)) => finish_call(ts, f, args, q, offset),
                    }
                },
            },
            SpecToken::LeftParen => if depth + 1 > MAX_NESTING {
                Err(syntax_spec("expression is nested too deeply"@, offset))
            } else {
                match p_comparison(ts, pos + 1, depth + 1) {
                    Err(e) => Err(e),
                    Ok((inner, q)) => if is_token(ts, q, SpecToken::RightParen) {
                        Ok((inner, q + 1))
                    } else {
                        Err(expect_error(ts, "')'"@, q))
                    },
                }
            },
            other => Err(syntax_spec("unexpected "@ + describe_spec(other), offset)),
        }
    }
}

/// The meaning of an already-stripped formula body.
pub open spec fn parse_formula_spec(formula: Seq<char>) -> Result<SpecExpr, DiagnosticView> {
    match lex_spec(formula) {
        Err(e) => Err(syntax_spec(e.message, e.offset)),
        Ok(ts) => if ts.len() == 0 {
            Err(syntax_spec("an expression must not be empty"@, 0))
        } else {
            match p_comparison(ts, 0, 0) {
                Err(e) => Err(e),
                Ok((e, p)) => if 0 <= p < ts.len() {
                    Err(
                        syntax_spec(
                            "unexpected trailing input starting with "@ + describe_spec(
                                ts[p].token,
                            ),
                            ts[p].offset,
                        ),
                    )
                } else {
                    Ok(e)
                },
            }
        },
    }
}

/// `s` without leading and trailing white space.
pub open spec fn trim_spec(s: Seq<char>) -> Seq<char> {
    let a = first_non_ws(s, 0);
    let b = last_non_ws_end(s, s.len() as int);
    if a < b {
        s.subrange(a, b)
    } else {
        Seq::empty()
    }
}

pub open spec fn first_non_ws(s: Seq<char>, i: int) -> int
    decreases s.len() - i,
{
    if 0 <= i < s.len() && is_whitespace_spec(s[i]) {
        first_non_ws(s, i + 1)
    } else {
        i
    }
}

pub open spec fn last_non_ws_end(s: Seq<char>, j: int) -> int
    decreases j,
{
    if 0 < j <= s.len() && is_whitespace_spec(s[j - 1]) {
        last_non_ws_end(s, j - 1)
    } else {
        j
    }
}

/// The meaning of a stored field expression, leading `=` included.
pub open spec fn parse_field_expression_spec(source: Seq<char>) -> Result<
    SpecExpr,
    DiagnosticView,
> {
    let t = trim_spec(source);
    if t.len() > 0 && t[0] == '=' {
        parse_formula_spec(t.subrange(1, t.len() as int))
    } else {
        Err(syntax_spec("an expression value must start with '='"@, 0))
    }
}

pub open spec fn view_parse_result(r: Result<Expr, Diagnostic>) -> Result<SpecExpr, DiagnosticView> {
    match r {
        Ok(e) => Ok(e@),
        Err(d) => Err(d@),
    }
}

} // verus!

verus! {

broadcast use vstd::std_specs::vec::axiom_spec_len;

/// Every number token holds a canonical decimal.
pub open spec fn tokens_wf(ts: Seq<Spanned>) -> bool {
    &&& forall|i: int| 0 <= i < ts.len() ==> ((#[trigger] ts[i]).token matches Token::Number(n) ==> n.wf())
    &&& forall|i: int|
        0 <= i < ts.len() ==> ((#[trigger] ts[i]).token matches Token::Reference(t) ==> t@.len() > 0 && forall|k: int|
            0 <= k < t@.len() ==> crate::lexer::is_reference_char(#[trigger] t@[k]))
}

pub open spec fn view_presult(r: Result<(Expr, usize), Diagnostic>) -> PResult {
    match r {
        Ok((e, p)) => Ok((e@, p as int)),
        Err(d) => Err(d@),
    }
}

/// What a successful sub-parse also guarantees: it consumed a token and its
/// literals are canonical.
pub open spec fn consumed(r: Result<(Expr, usize), Diagnostic>, pos: int, len: int) -> bool {
    r matches Ok((e, p)) ==> pos < p <= len && crate::ast::expr_wf(e@) && crate::ast::calls_ok(e@) && crate::check::arities_within(e@) && crate::reprint::leaves_print_back(e@)
}

proof fn lemma_view_token_at(ts: &Vec<Spanned>, i: int)
    requires
        0 <= i < ts@.len(),
    ensures
        view_tokens(ts@)[i] == ts@[i]@,
        view_tokens(ts@).len() == ts@.len(),
{
}

fn is_token_at(ts: &Vec<Spanned>, p: usize, which: u8) -> (r: bool)
    ensures
        r ==> p < ts@.len() && p < usize::MAX,
        which == 0 ==> r == is_token(view_tokens(ts@), p as int, SpecToken::LeftParen),
        which == 1 ==> r == is_token(view_tokens(ts@), p as int, SpecToken::RightParen),
        which == 2 ==> r == is_token(view_tokens(ts@), p as int, SpecToken::Comma),
        which == 3 ==> r == is_token(view_tokens(ts@), p as int, SpecToken::Minus),
{
    if p >= ts.len() {
        return false;
    }
    proof {
        lemma_view_token_at(ts, p as int);
    }
    match &ts[p].token {
        Token::LeftParen => which == 0,
        Token::RightParen => which == 1,
        Token::Comma => which == 2,
        Token::Minus => which == 3,
        _ => false,
    }
}

fn expect_failure(ts: &Vec<Spanned>, what: &str, p: usize) -> (r: Diagnostic)
    requires
        tokens_wf(ts@),
    ensures
        r@ == expect_error(view_tokens(ts@), what@, p as int),
{
    if p < ts.len() {
        proof {
            lemma_view_token_at(ts, p as int);
        }
        let mut message = String::from_str("expected ");
        message.append(what);
        message.append(", found ");
        let shown = describe(&ts[p].token);
        message.append(shown.as_str());
        syntax(message.as_str(), ts[p].offset)
    } else {
        let mut message = String::from_str("expected ");
        message.append(what);
        message.append(", found end of expression");
        syntax(message.as_str(), 0)
    }
}

#[verifier::rlimit(40)]
fn comparison(ts: &Vec<Spanned>, pos: usize, depth: u32) -> (r: Result<(Expr, usize), Diagnostic>)
    requires
        pos <= ts@.len(),
        tokens_wf(ts@),
        depth <= MAX_NESTING,
    ensures
        view_presult(r) == p_comparison(view_tokens(ts@), pos as int, depth as int),
        consumed(r, pos as int, ts@.len() as int),
    decreases ts@.len() - pos, 7nat,
{
    let ghost vts = view_tokens(ts@);
    let (lhs, p) = additive(ts, pos, depth)?;
    if p < ts.len() {
        proof {
            lemma_view_token_at(ts, p as int);
        }
        let op = match &ts[p].token {
            Token::Less => Some(CmpOp::Less),
            Token::LessEqual => Some(CmpOp::LessEqual),
            Token::Greater => Some(CmpOp::Greater),
            Token::GreaterEqual => Some(CmpOp::GreaterEqual),
            Token::Equal => Some(CmpOp::Equal),
            Token::NotEqual => Some(CmpOp::NotEqual),
            _ => None,
        };
        assert(op == comparison_op_of(vts[p as int].token));
        if let Some(op) = op {
            let (rhs, q) = additive(ts, p + 1, depth)?;
            return Ok((Expr::Compare(op, Box::new(lhs), Box::new(rhs)), q));
        }
    }
    Ok((lhs, p))
}

#[verifier::rlimit(40)]
fn additive(ts: &Vec<Spanned>, pos: usize, depth: u32) -> (r: Result<(Expr, usize), Diagnostic>)
    requires
        pos <= ts@.len(),
        tokens_wf(ts@),
        depth <= MAX_NESTING,
    ensures
        view_presult(r) == p_additive(view_tokens(ts@), pos as int, depth as int),
        consumed(r, pos as int, ts@.len() as int),
    decreases ts@.len() - pos, 6nat,
{
    let ghost vts = view_tokens(ts@);
    let (first, p0) = multiplicative(ts, pos, depth)?;
    let mut lhs = first;
    let mut p = p0;
    loop
        invariant
            vts == view_tokens(ts@),
            tokens_wf(ts@),
            depth <= MAX_NESTING,
            pos < p <= ts@.len(),
            crate::ast::expr_wf(lhs@),
            crate::ast::calls_ok(lhs@) && crate::check::arities_within(lhs@) && crate::reprint::leaves_print_back(lhs@),
            p_additive(vts, pos as int, depth as int) == p_add_loop(vts, lhs@, p as int, depth as int),
        ensures
            pos < p <= ts@.len(),
            crate::ast::expr_wf(lhs@),
            crate::ast::calls_ok(lhs@) && crate::check::arities_within(lhs@) && crate::reprint::leaves_print_back(lhs@),
            p_additive(vts, pos as int, depth as int) == Ok::<(SpecExpr, int), DiagnosticView>(
                (lhs@, p as int),
            ),
        decreases ts@.len() - p,
    {
        if p >= ts.len() {
            break;
        }
        proof {
            lemma_view_token_at(ts, p as int);
        }
        let op = match &ts[p].token {
            Token::Plus => BinOp::Add,
            Token::Minus => BinOp::Sub,
            _ => {
                assert(add_op_of(vts[p as int].token) is None);
                break;
            },
        };
        assert(add_op_of(vts[p as int].token) == Some(op));
        let ghost old_lhs = lhs@;
        let step = multiplicative(ts, p + 1, depth);
        match step {
            Err(e) => {
                assert(p_add_loop(vts, old_lhs, p as int, depth as int) == Err::<
                    (SpecExpr, int),
                    DiagnosticView,
                >(e@));
                return Err(e);
            },
            Ok((rhs, q)) => {
                lhs = Expr::Binary(op, Box::new(lhs), Box::new(rhs));
                p = q;
            },
        }
    }
    Ok((lhs, p))
}

#[verifier::rlimit(40)]
fn multiplicative(ts: &Vec<Spanned>, pos: usize, depth: u32) -> (r: Result<
    (Expr, usize),
    Diagnostic,
>)
    requires
        pos <= ts@.len(),
        tokens_wf(ts@),
        depth <= MAX_NESTING,
    ensures
        view_presult(r) == p_multiplicative(view_tokens(ts@), pos as int, depth as int),
        consumed(r, pos as int, ts@.len() as int),
    decreases ts@.len() - pos, 4nat,
{
    let ghost vts = view_tokens(ts@);
    let (first, p0) = unary(ts, pos, depth)?;
    let mut lhs = first;
    let mut p = p0;
    loop
        invariant
            vts == view_tokens(ts@),
            tokens_wf(ts@),
            depth <= MAX_NESTING,
            pos < p <= ts@.len(),
            crate::ast::expr_wf(lhs@),
            crate::ast::calls_ok(lhs@) && crate::check::arities_within(lhs@) && crate::reprint::leaves_print_back(lhs@),
            p_multiplicative(vts, pos as int, depth as int) == p_mul_loop(
                vts,
                lhs@,
                p as int,
                depth as int,
            ),
        ensures
            pos < p <= ts@.len(),
            crate::ast::expr_wf(lhs@),
            crate::ast::calls_ok(lhs@) && crate::check::arities_within(lhs@) && crate::reprint::leaves_print_back(lhs@),
            p_multiplicative(vts, pos as int, depth as int) == Ok::<
                (SpecExpr, int),
                DiagnosticView,
            >((lhs@, p as int)),
        decreases ts@.len() - p,
    {
        if p >= ts.len() {
            break;
        }
        proof {
            lemma_view_token_at(ts, p as int);
        }
        let op = match &ts[p].token {
            Token::Star => BinOp::Mul,
            Token::Slash => BinOp::Div,
            _ => {
                assert(mul_op_of(vts[p as int].token) is None);
                break;
            },
        };
        assert(mul_op_of(vts[p as int].token) == Some(op));
        let ghost old_lhs = lhs@;
        let step = unary(ts, p + 1, depth);
        match step {
            Err(e) => {
                assert(p_mul_loop(vts, old_lhs, p as int, depth as int) == Err::<
                    (SpecExpr, int),
                    DiagnosticView,
                >(e@));
                return Err(e);
            },
            Ok((rhs, q)) => {
                lhs = Expr::Binary(op, Box::new(lhs), Box::new(rhs));
                p = q;
            },
        }
    }
    Ok((lhs, p))
}

fn unary(ts: &Vec<Spanned>, pos: usize, depth: u32) -> (r: Result<(Expr, usize), Diagnostic>)
    requires
        pos <= ts@.len(),
        tokens_wf(ts@),
        depth <= MAX_NESTING,
    ensures
        view_presult(r) == p_unary(view_tokens(ts@), pos as int, depth as int),
        consumed(r, pos as int, ts@.len() as int),
    decreases ts@.len() - pos, 2nat,
{
    if is_token_at(ts, pos, 3) {
        let (inner, q) = unary(ts, pos + 1, depth)?;
        return Ok((Expr::Negate(Box::new(inner)), q));
    }
    primary(ts, pos, depth)
}

#[verifier::rlimit(60)]
fn primary(ts: &Vec<Spanned>, pos: usize, depth: u32) -> (r: Result<(Expr, usize), Diagnostic>)
    requires
        pos <= ts@.len(),
        tokens_wf(ts@),
        depth <= MAX_NESTING,
    ensures
        view_presult(r) == p_primary(view_tokens(ts@), pos as int, depth as int),
        consumed(r, pos as int, ts@.len() as int),
    decreases ts@.len() - pos, 1nat,
{
    let ghost vts = view_tokens(ts@);
    if pos >= ts.len() {
        return Err(syntax("unexpected end of expression", 0));
    }
    proof {
        lemma_view_token_at(ts, pos as int);
    }
    let offset = ts[pos].offset;
    match &ts[pos].token {
        Token::Number(value) => {
            let n = value.duplicate();
            Ok((Expr::Literal(n), pos + 1))
        },
        Token::Reference(text) => {
            let reference = parse_reference(text.as_str(), offset)?;
            proof {
                crate::reprint::lemma_parsed_reference_reads_back(text@, offset as int);
            }
            Ok((Expr::Reference(reference), pos + 1))
        },
        Token::Ident(name) => {
            let function = match Function::from_name(name.as_str()) {
                Some(f) => f,
                None => {
                    let mut message = String::from_str("unknown function '");
                    message.append(name.as_str());
                    message.append("'");
                    return Err(syntax(message.as_str(), offset));
                },
            };
            if !is_token_at(ts, pos + 1, 0) {
                return Err(expect_failure(ts, "'(' after a function name", pos + 1));
            }
            let mut args: Vec<Expr> = Vec::new();
            let mut q: usize = pos + 2;
            assert(!is_token(vts, pos as int + 2, SpecToken::RightParen) ==> p_primary(
                vts,
                pos as int,
                depth as int,
            ) == (match p_args(vts, pos + 2, depth as int, Seq::empty()) {
                Err(e) => Err(e),
                Ok((a, q)) => finish_call(vts, function, a, q, offset as int),
            }));
            if !is_token_at(ts, pos + 2, 1) {
                let mut p: usize = pos + 2;
                loop
                    invariant_except_break
                        p_args(vts, pos + 2, depth as int, Seq::empty()) == p_args(
                            vts,
                            p as int,
                            depth as int,
                            view_exprs(args@),
                        ),
                    invariant
                        vts == view_tokens(ts@),
                        tokens_wf(ts@),
                        depth <= MAX_NESTING,
                        pos + 2 <= p <= ts@.len(),
                        crate::ast::exprs_wf(view_exprs(args@)),
                        crate::ast::calls_ok_all(view_exprs(args@)) && crate::check::arities_within_all(view_exprs(args@)) && crate::reprint::leaves_print_back_all(view_exprs(args@)),
                        p_primary(vts, pos as int, depth as int) == (match p_args(
                            vts,
                            pos + 2,
                            depth as int,
                            Seq::empty(),
                        ) {
                            Err(e) => Err(e),
                            Ok((a, q)) => finish_call(vts, function, a, q, offset as int),
                        }),
                    ensures
                        pos + 2 < q <= ts@.len(),
                        crate::ast::exprs_wf(view_exprs(args@)),
                        crate::ast::calls_ok_all(view_exprs(args@)) && crate::check::arities_within_all(view_exprs(args@)) && crate::reprint::leaves_print_back_all(view_exprs(args@)),
                        p_args(vts, pos + 2, depth as int, Seq::empty()) == Ok::<
                            (Seq<SpecExpr>, int),
                            DiagnosticView,
                        >((view_exprs(args@), q as int)),
                    decreases ts@.len() - p,
                {
                    let ghost acc = view_exprs(args@);
                    let step = comparison(ts, p, depth);
                    let (arg, next) = match step {
                        Err(e) => {
                            assert(p_args(vts, p as int, depth as int, acc) == Err::<
                                (Seq<SpecExpr>, int),
                                DiagnosticView,
                            >(e@));
                            return Err(e);
                        },
                        Ok(pair) => pair,
                    };
                    let ghost before = args@;
                    let ghost argv = arg@;
                    args.push(arg);
                    proof {
                        assert(args@.drop_last() =~= before);
                        assert(view_exprs(args@) == view_exprs(before).push(argv));
                        assert(view_exprs(args@).drop_last() =~= view_exprs(before));
                    }
                    if is_token_at(ts, next, 2) {
                        p = next + 1;
                    } else {
                        q = next;
                        break;
                    }
                }
            }
            if !is_token_at(ts, q, 1) {
                return Err(expect_failure(ts, "')' to close the argument list", q));
            }
            let (minimum, maximum) = function.arity();
            proof {
                crate::ast::lemma_view_exprs(args@);
            }
            if args.len() < minimum || args.len() > maximum {
                let mut message = String::from_str("function ");
                message.append(function.name());
                message.append(" expects ");
                let description = arity_description(minimum, maximum);
                message.append(description.as_str());
                message.append(" argument(s), got ");
                append_nat(&mut message, args.len() as u64);
                return Err(syntax(message.as_str(), offset));
            }
            Ok((Expr::Call(function, args), q + 1))
        },
        Token::LeftParen => {
            if depth + 1 > MAX_NESTING {
                return Err(syntax("expression is nested too deeply", offset));
            }
            let (inner, q) = comparison(ts, pos + 1, depth + 1)?;
            if !is_token_at(ts, q, 1) {
                return Err(expect_failure(ts, "')'", q));
            }
            Ok((inner, q + 1))
        },
        other => {
            let mut message = String::from_str("unexpected ");
            let shown = describe(other);
            message.append(shown.as_str());
            Err(syntax(message.as_str(), offset))
        },
    }
}

/// Parse an already-stripped formula body.
pub fn parse_formula(formula: &str) -> (r: Result<Expr, Diagnostic>)
    ensures
        view_parse_result(r) == parse_formula_spec(formula@),
        r matches Ok(e) ==> crate::ast::expr_wf(e@) && crate::ast::calls_ok(e@) && crate::check::arities_within(e@) && crate::reprint::leaves_print_back(e@),
{
    let tokens = match lex(formula) {
        Ok(tokens) => tokens,
        Err(error) => {
            return Err(syntax(error.message.as_str(), error.offset));
        },
    };
    if tokens.len() == 0 {
        return Err(syntax("an expression must not be empty", 0));
    }
    proof {
        crate::lexer::law_lex_positions(formula@);
        let ts = crate::lexer::lex_spec(formula@)->Ok_0;
        let pos = choose|pos: Seq<int>| #[trigger] crate::lexer::tokens_located(formula@, ts, pos, 0);
        assert forall|i: int| 0 <= i < tokens@.len() implies ((#[trigger] tokens@[i]).token matches Token::Reference(
            t,
        ) ==> t@.len() > 0 && forall|k: int|
            0 <= k < t@.len() ==> crate::lexer::is_reference_char(#[trigger] t@[k])) by {
            assert(view_tokens(tokens@)[i] == tokens@[i]@);
            assert(crate::lexer::token_at(formula@, pos[i], ts[i].token));
        }
    }
    let (expr, p) = comparison(&tokens, 0, 0)?;
    if p < tokens.len() {
        proof {
            lemma_view_token_at(&tokens, p as int);
        }
        let mut message = String::from_str("unexpected trailing input starting with ");
        let shown = describe(&tokens[p].token);
        message.append(shown.as_str());
        return Err(syntax(message.as_str(), tokens[p].offset));
    }
    Ok(expr)
}

/// Parse a field expression value: the full stored string including `=`.
#[verifier::rlimit(60)]
pub fn parse_field_expression(source: &str) -> (r: Result<Expr, Diagnostic>)
    ensures
        view_parse_result(r) == parse_field_expression_spec(source@),
        r matches Ok(e) ==> crate::ast::expr_wf(e@) && crate::ast::calls_ok(e@) && crate::check::arities_within(e@) && crate::reprint::leaves_print_back(e@),
{
    let chars = chars_of(source);
    let ghost s = chars@;
    let n = chars.len();
    let mut a: usize = 0;
    while a < n && is_whitespace(chars[a])
        invariant
            a <= n == s.len(),
            s == chars@,
            first_non_ws(s, 0) == first_non_ws(s, a as int),
        decreases n - a,
    {
        a = a + 1;
    }
    let mut b: usize = n;
    while b > 0 && is_whitespace(chars[b - 1])
        invariant
            b <= n == s.len(),
            s == chars@,
            last_non_ws_end(s, n as int) == last_non_ws_end(s, b as int),
        decreases b,
    {
        b = b - 1;
    }
    assert(first_non_ws(s, 0) == a);
    assert(last_non_ws_end(s, n as int) == b);
    if a < b && chars[a] == '=' {
        let mut body: Vec<char> = Vec::new();
        let mut k = a + 1;
        while k < b
            invariant
                a + 1 <= k <= b <= n == s.len(),
                s == chars@,
                body@ == s.subrange(a + 1, k as int),
            decreases b - k,
        {
            body.push(chars[k]);
            k = k + 1;
            assert(body@ =~= s.subrange(a + 1, k as int));
        }
        proof {
            let t = trim_spec(s);
            assert(t == s.subrange(a as int, b as int));
            assert(t.subrange(1, t.len() as int) =~= body@);
        }
        let formula = string_from_chars(body.as_slice());
        return parse_formula(formula.as_str());
    }
    Err(syntax("an expression value must start with '='", 0))
}


/// The characters between the first and after the last non-white-space
/// character.
pub fn trim_chars(chars: &Vec<char>) -> (r: Vec<char>)
    ensures
        r@ == trim_spec(chars@),
{
    let ghost s = chars@;
    let n = chars.len();
    let mut a: usize = 0;
    while a < n && is_whitespace(chars[a])
        invariant
            a <= n == s.len(),
            s == chars@,
            first_non_ws(s, 0) == first_non_ws(s, a as int),
        decreases n - a,
    {
        a = a + 1;
    }
    let mut b: usize = n;
    while b > 0 && is_whitespace(chars[b - 1])
        invariant
            b <= n == s.len(),
            s == chars@,
            last_non_ws_end(s, n as int) == last_non_ws_end(s, b as int),
        decreases b,
    {
        b = b - 1;
    }
    assert(first_non_ws(s, 0) == a);
    assert(last_non_ws_end(s, n as int) == b);
    let mut out: Vec<char> = Vec::new();
    if a < b {
        let mut k = a;
        while k < b
            invariant
                a <= k <= b <= n == s.len(),
                s == chars@,
                out@ == s.subrange(a as int, k as int),
            decreases b - k,
        {
            out.push(chars[k]);
            k = k + 1;
            assert(out@ =~= s.subrange(a as int, k as int));
        }
    } else {
        assert(out@ =~= Seq::<char>::empty());
    }
    out
}

} // verus!
