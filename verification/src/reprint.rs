//! Printing and parsing agree: the text [`crate::ast::print`] renders for an
//! expression reads back, through the lexer and the parser, as that same
//! expression. The printer parenthesizes every binary operation and
//! comparison, so each printed operand parses as one unit whatever follows
//! it; references must be ones the reference grammar reads back, calls must
//! have their declared arity, and parentheses nest no deeper than the parser
//! accepts.
use vstd::prelude::*;
use crate::ast::{
    print_args_spec, print_spec, ref_text, BinOp, CmpOp, Function, SpecExpr, SpecNumber, SpecRef,
};
use crate::diagnostic::DiagnosticView;
use crate::ast::{comparison_symbol_spec, number_text, op_symbol_spec};
use crate::lexer::{
    cons, dot_count, exponent_start, frac_len, ident_end, is_ident_char, is_ident_start, is_reference_char,
    is_run_char, lex_from, lexeme_number, mant_digits, number_end, ref_end, run_end, single_token, tok,
    SpecLexResult, SpecSpanned, SpecToken,
};
use crate::ast::{digit_chars, zeros};
use crate::number::{canonical, lemma_canonical_wf, lemma_canonical_zero};
use crate::text::is_whitespace_spec;
use crate::lexer::lex_spec;
use crate::parser::{
    parse_formula_spec,
    add_op_of, comparison_op_of, mul_op_of, p_add_loop, p_additive, p_args, p_comparison, p_mul_loop,
    p_multiplicative, p_primary, p_unary, parse_reference_spec, MAX_NESTING,
};
use crate::parser::{lemma_split_nonempty, split_spec, starts_with};

verus! {

pub open spec fn bin_token(op: BinOp) -> SpecToken {
    match op {
        BinOp::Add => SpecToken::Plus,
        BinOp::Sub => SpecToken::Minus,
        BinOp::Mul => SpecToken::Star,
        BinOp::Div => SpecToken::Slash,
    }
}

pub open spec fn comparison_token(op: CmpOp) -> SpecToken {
    match op {
        CmpOp::Less => SpecToken::Less,
        CmpOp::LessEqual => SpecToken::LessEqual,
        CmpOp::Greater => SpecToken::Greater,
        CmpOp::GreaterEqual => SpecToken::GreaterEqual,
        CmpOp::Equal => SpecToken::Equal,
        CmpOp::NotEqual => SpecToken::NotEqual,
    }
}

/// The tokens the printed text of an expression consists of.
pub open spec fn token_form(e: SpecExpr) -> Seq<SpecToken>
    decreases e,
{
    match e {
        SpecExpr::Literal(n) => seq![SpecToken::Number(n)],
        SpecExpr::Reference(r) => seq![SpecToken::Reference(ref_text(r).drop_first())],
        SpecExpr::Negate(inner) => seq![SpecToken::Minus] + token_form(*inner),
        SpecExpr::Binary(op, l, r) => seq![SpecToken::LeftParen] + token_form(*l) + seq![bin_token(op)]
            + token_form(*r) + seq![SpecToken::RightParen],
        SpecExpr::Compare(op, l, r) => seq![SpecToken::LeftParen] + token_form(*l) + seq![comparison_token(op)]
            + token_form(*r) + seq![SpecToken::RightParen],
        SpecExpr::Call(f, args) => seq![SpecToken::Ident(f.name_spec()), SpecToken::LeftParen] + args_form(args)
            + seq![SpecToken::RightParen],
    }
}

/// The tokens of printed arguments, separated by commas.
pub open spec fn args_form(args: Seq<SpecExpr>) -> Seq<SpecToken>
    decreases args,
{
    if args.len() == 0 {
        Seq::empty()
    } else if args.len() == 1 {
        token_form(args[0])
    } else {
        args_form(args.drop_last()) + seq![SpecToken::Comma] + token_form(args.last())
    }
}

/// A reference whose printed form is one reference token that the reference
/// grammar reads back as the same reference.
pub open spec fn reference_reads_back(r: SpecRef) -> bool {
    let text = ref_text(r).drop_first();
    &&& text.len() > 0
    &&& forall|k: int| 0 <= k < text.len() ==> is_reference_char(#[trigger] text[k])
    &&& parse_reference_spec(text, 0) == Ok::<SpecRef, DiagnosticView>(r)
}

/// Whether an expression's printed text reads back as itself when at most
/// `budget` more levels of parentheses may open: literals are canonical
/// with an exponent that fits an `i64`, references read back, calls have
/// their declared number of arguments.
pub open spec fn reprintable(e: SpecExpr, budget: int) -> bool
    decreases e,
{
    match e {
        SpecExpr::Literal(n) => n.wf() && i64::MIN <= n.exponent <= i64::MAX,
        SpecExpr::Reference(r) => reference_reads_back(r),
        SpecExpr::Negate(inner) => reprintable(*inner, budget),
        SpecExpr::Binary(_, l, r) => budget >= 1 && reprintable(*l, budget - 1) && reprintable(*r, budget - 1),
        SpecExpr::Compare(_, l, r) => budget >= 1 && reprintable(*l, budget - 1) && reprintable(*r, budget - 1),
        SpecExpr::Call(f, args) => f.arity_spec().0 <= args.len() <= f.arity_spec().1 && reprintable_args(
            args,
            budget,
        ),
    }
}

pub open spec fn reprintable_args(args: Seq<SpecExpr>, budget: int) -> bool
    decreases args,
{
    if args.len() == 0 {
        true
    } else {
        reprintable_args(args.drop_last(), budget) && reprintable(args.last(), budget)
    }
}

/// The tokens from `pos` on begin with `form`.
pub open spec fn tokens_at(ts: Seq<SpecSpanned>, pos: int, form: Seq<SpecToken>) -> bool {
    &&& 0 <= pos
    &&& pos + form.len() <= ts.len()
    &&& forall|k: int| 0 <= k < form.len() ==> #[trigger] ts[pos + k].token == form[k]
}

/// Position `p` ends an operand list: the end, a `)` or a `,`.
pub open spec fn closes(ts: Seq<SpecSpanned>, p: int) -> bool {
    p == ts.len() || (0 <= p < ts.len() && (ts[p].token == SpecToken::RightParen || ts[p].token
        == SpecToken::Comma))
}

proof fn lemma_reprintable_args(args: Seq<SpecExpr>, budget: int)
    ensures
        reprintable_args(args, budget) <==> forall|k: int|
            0 <= k < args.len() ==> reprintable(#[trigger] args[k], budget),
    decreases args.len(),
{
    if args.len() > 0 {
        lemma_reprintable_args(args.drop_last(), budget);
        if forall|k: int| 0 <= k < args.len() ==> reprintable(#[trigger] args[k], budget) {
            assert forall|k: int| 0 <= k < args.drop_last().len() implies reprintable(
                #[trigger] args.drop_last()[k],
                budget,
            ) by {
                assert(args.drop_last()[k] == args[k]);
            }
        }
        if reprintable_args(args, budget) {
            assert forall|k: int| 0 <= k < args.len() implies reprintable(#[trigger] args[k], budget) by {
                if k < args.len() - 1 {
                    assert(args.drop_last()[k] == args[k]);
                }
            }
        }
    }
}

/// The arguments' tokens split after the first argument.
proof fn lemma_args_form_first(args: Seq<SpecExpr>)
    requires
        args.len() >= 2,
    ensures
        args_form(args) == token_form(args[0]) + seq![SpecToken::Comma] + args_form(args.drop_first()),
    decreases args.len(),
{
    let c = seq![SpecToken::Comma];
    if args.len() == 2 {
        assert(args.drop_last().len() == 1 && args.drop_last()[0] == args[0]);
        assert(args_form(args.drop_last()) == token_form(args[0]));
        assert(args.drop_first().len() == 1 && args.drop_first()[0] == args[1]);
        assert(args_form(args.drop_first()) == token_form(args[1]));
        assert(args_form(args) == args_form(args.drop_last()) + c + token_form(args.last()));
    } else {
        let dl = args.drop_last();
        let df = args.drop_first();
        lemma_args_form_first(dl);
        assert(dl.drop_first() =~= df.drop_last());
        assert(df.last() == args.last());
        assert(dl[0] == args[0]);
        assert(args_form(args) == args_form(dl) + c + token_form(args.last()));
        assert(args_form(df) == args_form(df.drop_last()) + c + token_form(df.last()));
        assert(args_form(args) =~= token_form(args[0]) + c + args_form(df));
    }
}

/// A parsed unit followed by something that no tighter level continues with
/// is the result of each looser level too.
proof fn lemma_levels(ts: Seq<SpecSpanned>, pos: int, depth: int, e: SpecExpr, q: int)
    requires
        0 <= pos < q <= ts.len(),
        p_unary(ts, pos, depth) == Ok::<(SpecExpr, int), DiagnosticView>((e, q)),
    ensures
        (q == ts.len() || mul_op_of(ts[q].token) is None) ==> p_multiplicative(ts, pos, depth) == Ok::<
            (SpecExpr, int),
            DiagnosticView,
        >((e, q)),
        (q == ts.len() || (mul_op_of(ts[q].token) is None && add_op_of(ts[q].token) is None))
            ==> p_additive(ts, pos, depth) == Ok::<(SpecExpr, int), DiagnosticView>((e, q)),
        closes(ts, q) ==> p_comparison(ts, pos, depth) == Ok::<(SpecExpr, int), DiagnosticView>((e, q)),
{
    if q == ts.len() || mul_op_of(ts[q].token) is None {
        assert(p_mul_loop(ts, e, q, depth) == Ok::<(SpecExpr, int), DiagnosticView>((e, q)));
        assert(p_multiplicative(ts, pos, depth) == Ok::<(SpecExpr, int), DiagnosticView>((e, q)));
        if q == ts.len() || add_op_of(ts[q].token) is None {
            assert(p_add_loop(ts, e, q, depth) == Ok::<(SpecExpr, int), DiagnosticView>((e, q)));
            assert(p_additive(ts, pos, depth) == Ok::<(SpecExpr, int), DiagnosticView>((e, q)));
        }
    }
}

/// Printed text never starts with a closing parenthesis or a comma.
proof fn lemma_first_token(e: SpecExpr)
    ensures
        token_form(e).len() >= 1,
        token_form(e)[0] != SpecToken::RightParen,
        token_form(e)[0] != SpecToken::Comma,
{
}

/// A reference's meaning does not depend on where its token stands.
proof fn lemma_reference_anywhere(text: Seq<char>, offset: int)
    requires
        parse_reference_spec(text, 0) is Ok,
    ensures
        parse_reference_spec(text, offset) == parse_reference_spec(text, 0),
{
}

/// A part of a token run found where the whole run is.
proof fn lemma_tokens_part(ts: Seq<SpecSpanned>, pos: int, whole: Seq<SpecToken>, start: int, part: Seq<SpecToken>)
    requires
        tokens_at(ts, pos, whole),
        0 <= start,
        start + part.len() <= whole.len(),
        whole.subrange(start, start + part.len()) == part,
    ensures
        tokens_at(ts, pos + start, part),
{
    assert forall|k: int| 0 <= k < part.len() implies #[trigger] ts[pos + start + k].token == part[k] by {
        assert(ts[pos + (start + k)].token == whole[start + k]);
        assert(whole.subrange(start, start + part.len())[k] == whole[start + k]);
    }
}

/// The token at `start` of a run found at `pos`.
proof fn lemma_token_at(ts: Seq<SpecSpanned>, pos: int, whole: Seq<SpecToken>, start: int)
    requires
        tokens_at(ts, pos, whole),
        0 <= start < whole.len(),
    ensures
        ts[pos + start].token == whole[start],
{
    assert(ts[pos + start].token == whole[start]);
}

#[verifier::spinoff_prover]
proof fn lemma_parse_binary(
    ts: Seq<SpecSpanned>,
    pos: int,
    depth: int,
    op: BinOp,
    l: SpecExpr,
    r: SpecExpr,
    a: int,
    b: int,
)
    requires
        0 <= pos,
        pos + 1 < a,
        a + 1 < b < ts.len(),
        0 <= depth,
        depth + 1 <= MAX_NESTING,
        ts[pos].token == SpecToken::LeftParen,
        ts[a].token == bin_token(op),
        ts[b].token == SpecToken::RightParen,
        p_unary(ts, pos + 1, depth + 1) == Ok::<(SpecExpr, int), DiagnosticView>((l, a)),
        p_unary(ts, a + 1, depth + 1) == Ok::<(SpecExpr, int), DiagnosticView>((r, b)),
    ensures
        p_unary(ts, pos, depth) == Ok::<(SpecExpr, int), DiagnosticView>(
            (SpecExpr::Binary(op, Box::new(l), Box::new(r)), b + 1),
        ),
{
    lemma_levels(ts, pos + 1, depth + 1, l, a);
    lemma_levels(ts, a + 1, depth + 1, r, b);
    let whole = SpecExpr::Binary(op, Box::new(l), Box::new(r));
    let d = depth + 1;
    if op == BinOp::Mul || op == BinOp::Div {
        assert(p_mul_loop(ts, whole, b, d) == Ok::<(SpecExpr, int), DiagnosticView>((whole, b)));
        assert(p_mul_loop(ts, l, a, d) == Ok::<(SpecExpr, int), DiagnosticView>((whole, b)));
        assert(p_multiplicative(ts, pos + 1, d) == Ok::<(SpecExpr, int), DiagnosticView>((whole, b)));
        assert(p_add_loop(ts, whole, b, d) == Ok::<(SpecExpr, int), DiagnosticView>((whole, b)));
        assert(p_additive(ts, pos + 1, d) == Ok::<(SpecExpr, int), DiagnosticView>((whole, b)));
    } else {
        assert(p_add_loop(ts, whole, b, d) == Ok::<(SpecExpr, int), DiagnosticView>((whole, b)));
        assert(p_add_loop(ts, l, a, d) == Ok::<(SpecExpr, int), DiagnosticView>((whole, b)));
        assert(p_additive(ts, pos + 1, d) == Ok::<(SpecExpr, int), DiagnosticView>((whole, b)));
    }
    assert(p_comparison(ts, pos + 1, d) == Ok::<(SpecExpr, int), DiagnosticView>((whole, b)));
    assert(p_primary(ts, pos, depth) == Ok::<(SpecExpr, int), DiagnosticView>((whole, b + 1)));
}

#[verifier::spinoff_prover]
proof fn lemma_parse_comparison(
    ts: Seq<SpecSpanned>,
    pos: int,
    depth: int,
    op: CmpOp,
    l: SpecExpr,
    r: SpecExpr,
    a: int,
    b: int,
)
    requires
        0 <= pos,
        pos + 1 < a,
        a + 1 < b < ts.len(),
        0 <= depth,
        depth + 1 <= MAX_NESTING,
        ts[pos].token == SpecToken::LeftParen,
        ts[a].token == comparison_token(op),
        ts[b].token == SpecToken::RightParen,
        p_unary(ts, pos + 1, depth + 1) == Ok::<(SpecExpr, int), DiagnosticView>((l, a)),
        p_unary(ts, a + 1, depth + 1) == Ok::<(SpecExpr, int), DiagnosticView>((r, b)),
    ensures
        p_unary(ts, pos, depth) == Ok::<(SpecExpr, int), DiagnosticView>(
            (SpecExpr::Compare(op, Box::new(l), Box::new(r)), b + 1),
        ),
{
    lemma_levels(ts, pos + 1, depth + 1, l, a);
    lemma_levels(ts, a + 1, depth + 1, r, b);
    let whole = SpecExpr::Compare(op, Box::new(l), Box::new(r));
    assert(comparison_op_of(ts[a].token) == Some(op));
    assert(p_comparison(ts, pos + 1, depth + 1) == Ok::<(SpecExpr, int), DiagnosticView>((whole, b)));
    assert(p_primary(ts, pos, depth) == Ok::<(SpecExpr, int), DiagnosticView>((whole, b + 1)));
}

#[verifier::spinoff_prover]
proof fn lemma_parse_call(ts: Seq<SpecSpanned>, pos: int, depth: int, f: Function, args: Seq<SpecExpr>, q: int)
    requires
        0 <= pos,
        pos + 2 <= q < ts.len(),
        0 <= depth,
        ts[pos].token == SpecToken::Ident(f.name_spec()),
        ts[pos + 1].token == SpecToken::LeftParen,
        ts[q].token == SpecToken::RightParen,
        f.arity_spec().0 <= args.len() <= f.arity_spec().1,
        args.len() == 0 ==> q == pos + 2,
        args.len() > 0 ==> ts[pos + 2].token != SpecToken::RightParen && p_args(ts, pos + 2, depth, Seq::empty())
            == Ok::<(Seq<SpecExpr>, int), DiagnosticView>((args, q)),
    ensures
        p_unary(ts, pos, depth) == Ok::<(SpecExpr, int), DiagnosticView>((SpecExpr::Call(f, args), q + 1)),
{
    crate::ast::lemma_function_name_round_trip(f);
    if args.len() == 0 {
        assert(args =~= Seq::<SpecExpr>::empty());
    }
    assert(p_primary(ts, pos, depth) == Ok::<(SpecExpr, int), DiagnosticView>((SpecExpr::Call(f, args), q + 1)));
}

/// The tokens of a printed expression parse, at the unary level, as that
/// expression, whatever follows them.
#[verifier::spinoff_prover]
#[verifier::rlimit(80)]
proof fn lemma_parse_unit(e: SpecExpr, ts: Seq<SpecSpanned>, pos: int, depth: int)
    requires
        0 <= depth <= MAX_NESTING,
        reprintable(e, MAX_NESTING - depth),
        tokens_at(ts, pos, token_form(e)),
    ensures
        p_unary(ts, pos, depth) == Ok::<(SpecExpr, int), DiagnosticView>((e, pos + token_form(e).len())),
    decreases e,
{
    let tf = token_form(e);
    lemma_first_token(e);
    lemma_token_at(ts, pos, tf, 0);
    match e {
        SpecExpr::Literal(n) => {
            assert(p_primary(ts, pos, depth) == Ok::<(SpecExpr, int), DiagnosticView>((e, pos + 1)));
        },
        SpecExpr::Reference(r) => {
            lemma_reference_anywhere(ref_text(r).drop_first(), ts[pos].offset);
            assert(p_primary(ts, pos, depth) == Ok::<(SpecExpr, int), DiagnosticView>((e, pos + 1)));
        },
        SpecExpr::Negate(inner) => {
            let ti = token_form(*inner);
            assert(tf.subrange(1, 1int + ti.len()) =~= ti);
            lemma_tokens_part(ts, pos, tf, 1, ti);
            lemma_parse_unit(*inner, ts, pos + 1, depth);
        },
        SpecExpr::Binary(op, l, r) => {
            let tl = token_form(*l);
            let tr = token_form(*r);
            let a = pos + 1int + tl.len();
            let b = a + 1 + tr.len();
            assert(tf.subrange(1, 1int + tl.len()) =~= tl);
            assert(tf.subrange(2int + tl.len(), 2int + tl.len() + tr.len()) =~= tr);
            lemma_tokens_part(ts, pos, tf, 1, tl);
            lemma_tokens_part(ts, pos, tf, 2int + tl.len(), tr);
            lemma_token_at(ts, pos, tf, 1int + tl.len());
            lemma_token_at(ts, pos, tf, 2int + tl.len() + tr.len());
            lemma_first_token(*l);
            lemma_first_token(*r);
            lemma_parse_unit(*l, ts, pos + 1, depth + 1);
            lemma_parse_unit(*r, ts, a + 1, depth + 1);
            lemma_parse_binary(ts, pos, depth, op, *l, *r, a, b);
            assert(SpecExpr::Binary(op, Box::new(*l), Box::new(*r)) == e);
        },
        SpecExpr::Compare(op, l, r) => {
            let tl = token_form(*l);
            let tr = token_form(*r);
            let a = pos + 1int + tl.len();
            let b = a + 1 + tr.len();
            assert(tf.subrange(1, 1int + tl.len()) =~= tl);
            assert(tf.subrange(2int + tl.len(), 2int + tl.len() + tr.len()) =~= tr);
            lemma_tokens_part(ts, pos, tf, 1, tl);
            lemma_tokens_part(ts, pos, tf, 2int + tl.len(), tr);
            lemma_token_at(ts, pos, tf, 1int + tl.len());
            lemma_token_at(ts, pos, tf, 2int + tl.len() + tr.len());
            lemma_first_token(*l);
            lemma_first_token(*r);
            lemma_parse_unit(*l, ts, pos + 1, depth + 1);
            lemma_parse_unit(*r, ts, a + 1, depth + 1);
            lemma_parse_comparison(ts, pos, depth, op, *l, *r, a, b);
            assert(SpecExpr::Compare(op, Box::new(*l), Box::new(*r)) == e);
        },
        SpecExpr::Call(f, args) => {
            let ta = args_form(args);
            let q = pos + 2int + ta.len();
            assert(tf.subrange(2, 2int + ta.len()) =~= ta);
            lemma_tokens_part(ts, pos, tf, 2, ta);
            lemma_token_at(ts, pos, tf, 1);
            lemma_token_at(ts, pos, tf, 2int + ta.len());
            if args.len() > 0 {
                lemma_args_first_token(args);
                lemma_token_at(ts, pos + 2, ta, 0);
                lemma_parse_args(args, ts, pos + 2, depth, Seq::empty());
                assert(Seq::<SpecExpr>::empty() + args =~= args);
            }
            lemma_parse_call(ts, pos, depth, f, args, q);
        },
    }
}

/// Printed arguments start with their first argument's first token.
proof fn lemma_args_first_token(args: Seq<SpecExpr>)
    requires
        args.len() >= 1,
    ensures
        args_form(args).len() >= 1,
        args_form(args)[0] == token_form(args[0])[0],
{
    lemma_first_token(args[0]);
    if args.len() >= 2 {
        lemma_args_form_first(args);
    }
}

/// The tokens of printed arguments followed by `)` parse as those arguments.
#[verifier::spinoff_prover]
#[verifier::rlimit(80)]
proof fn lemma_parse_args(args: Seq<SpecExpr>, ts: Seq<SpecSpanned>, pos: int, depth: int, acc: Seq<SpecExpr>)
    requires
        args.len() >= 1,
        0 <= depth <= MAX_NESTING,
        reprintable_args(args, MAX_NESTING - depth),
        tokens_at(ts, pos, args_form(args)),
        pos + args_form(args).len() < ts.len(),
        ts[pos + args_form(args).len()].token == SpecToken::RightParen,
    ensures
        p_args(ts, pos, depth, acc) == Ok::<(Seq<SpecExpr>, int), DiagnosticView>(
            (acc + args, pos + args_form(args).len()),
        ),
    decreases args,
{
    lemma_reprintable_args(args, MAX_NESTING - depth);
    assert(reprintable(args[0], MAX_NESTING - depth));
    let t0 = token_form(args[0]);
    let tf = args_form(args);
    let q = pos + tf.len();
    lemma_first_token(args[0]);
    if args.len() == 1 {
        assert(tf == t0);
        lemma_parse_unit(args[0], ts, pos, depth);
        lemma_levels(ts, pos, depth, args[0], q);
        assert(acc.push(args[0]) =~= acc + args);
    } else {
        lemma_args_form_first(args);
        let df = args.drop_first();
        let tdf = args_form(df);
        let p = pos + t0.len();
        assert(tf.subrange(0, 0int + t0.len()) =~= t0);
        assert(tf.subrange(t0.len() + 1int, t0.len() + 1int + tdf.len()) =~= tdf);
        lemma_tokens_part(ts, pos, tf, 0, t0);
        lemma_tokens_part(ts, pos, tf, t0.len() + 1int, tdf);
        lemma_token_at(ts, pos, tf, 0int + t0.len());
        lemma_parse_unit(args[0], ts, pos, depth);
        lemma_levels(ts, pos, depth, args[0], p);
        lemma_reprintable_args(df, MAX_NESTING - depth);
        assert forall|k: int| 0 <= k < df.len() implies reprintable(#[trigger] df[k], MAX_NESTING - depth) by {
            assert(df[k] == args[k + 1]);
        }
        lemma_parse_args(df, ts, p + 1, depth, acc.push(args[0]));
        assert(acc.push(args[0]) + df =~= acc + args);
    }
}

/// The kinds of the tokens a lexing produced, if it succeeded.
pub open spec fn token_kinds(r: SpecLexResult) -> Option<Seq<SpecToken>> {
    match r {
        Ok(ts) => Some(ts.map_values(|t: SpecSpanned| t.token)),
        Err(_) => None,
    }
}

/// The kinds of the tokens lexed from character `x` on.
#[verifier::opaque]
pub open spec fn kinds_from(cs: Seq<char>, x: int) -> Option<Seq<SpecToken>> {
    token_kinds(lex_from(cs, x))
}

/// `form` followed by the tokens of a lexing, if it succeeded.
pub open spec fn after(form: Seq<SpecToken>, rest: Option<Seq<SpecToken>>) -> Option<Seq<SpecToken>> {
    match rest {
        Some(ts) => Some(form + ts),
        None => None,
    }
}

/// Character `j` ends a printed operand: the end, a space, `)` or `,`.
pub open spec fn boundary(cs: Seq<char>, j: int) -> bool {
    j == cs.len() || (0 <= j < cs.len() && (cs[j] == ' ' || cs[j] == ')' || cs[j] == ','))
}

proof fn lemma_after_after(a: Seq<SpecToken>, b: Seq<SpecToken>, rest: Option<Seq<SpecToken>>)
    ensures
        after(a, after(b, rest)) == after(a + b, rest),
{
    if let Some(ts) = rest {
        assert(a + (b + ts) =~= (a + b) + ts);
    }
}

proof fn lemma_after_empty(rest: Option<Seq<SpecToken>>)
    ensures
        after(Seq::empty(), rest) == rest,
{
    if let Some(ts) = rest {
        assert(Seq::<SpecToken>::empty() + ts =~= ts);
    }
}

proof fn lemma_kinds_cons(cs: Seq<char>, i: int, t: SpecToken, rest: SpecLexResult)
    ensures
        token_kinds(cons(tok(cs, i, t), rest)) == after(seq![t], token_kinds(rest)),
{
    if let Ok(ts) = rest {
        assert(token_kinds(cons(tok(cs, i, t), rest)) == Some((seq![tok(cs, i, t)] + ts).map_values(
            |x: SpecSpanned| x.token,
        )));
        assert((seq![tok(cs, i, t)] + ts).map_values(|x: SpecSpanned| x.token) =~= seq![t] + ts.map_values(
            |x: SpecSpanned| x.token,
        ));
    }
}

/// A one-character token.
proof fn lemma_lex_single(cs: Seq<char>, i: int, t: SpecToken)
    requires
        0 <= i < cs.len(),
        single_token(cs[i]) == Some(t),
    ensures
        kinds_from(cs, i) == after(seq![t], kinds_from(cs, i + 1)),
{
    reveal(kinds_from);
    assert(!is_whitespace_spec(cs[i])) by {
        assert(cs[i] == '+' || cs[i] == '-' || cs[i] == '*' || cs[i] == '/' || cs[i] == '(' || cs[i] == ')'
            || cs[i] == ',');
    }
    lemma_kinds_cons(cs, i, t, lex_from(cs, i + 1));
}

/// A space is skipped.
proof fn lemma_lex_space(cs: Seq<char>, i: int)
    requires
        0 <= i < cs.len(),
        cs[i] == ' ',
    ensures
        kinds_from(cs, i) == kinds_from(cs, i + 1),
{
    reveal(kinds_from);
    assert(is_whitespace_spec(' '));
}

/// A two-character comparison symbol, or a one-character one followed by
/// a space.
proof fn lemma_lex_comparison(cs: Seq<char>, i: int, op: CmpOp)
    requires
        0 <= i,
        i + comparison_symbol_spec(op).len() < cs.len(),
        cs.subrange(i, i + comparison_symbol_spec(op).len()) == comparison_symbol_spec(op),
        cs[i + comparison_symbol_spec(op).len()] == ' ',
    ensures
        kinds_from(cs, i) == after(
            seq![comparison_token(op)],
            kinds_from(cs, i + comparison_symbol_spec(op).len()),
        ),
{
    reveal(kinds_from);
    let sym = comparison_symbol_spec(op);
    reveal_strlit("<");
    reveal_strlit("<=");
    reveal_strlit(">");
    reveal_strlit(">=");
    reveal_strlit("==");
    reveal_strlit("!=");
    assert(cs[i] == sym[0]);
    if sym.len() == 2 {
        assert(cs[i + 1] == sym[1]);
    }
    assert(!is_whitespace_spec(cs[i]));
    lemma_kinds_cons(cs, i, comparison_token(op), lex_from(cs, i + sym.len()));
}

proof fn lemma_mant_concat(a: Seq<char>, b: Seq<char>)
    ensures
        mant_digits(a + b) == mant_digits(a) + mant_digits(b),
        dot_count(a + b) == dot_count(a) + dot_count(b),
    decreases b.len(),
{
    if b.len() == 0 {
        assert(a + b =~= a);
        assert(mant_digits(a) + mant_digits(b) =~= mant_digits(a));
    } else {
        lemma_mant_concat(a, b.drop_last());
        assert((a + b).drop_last() =~= a + b.drop_last());
        assert((a + b).last() == b.last());
        if b.last() != '.' {
            assert(mant_digits(a) + mant_digits(b) =~= (mant_digits(a) + mant_digits(b.drop_last())).push(
                (b.last() as u32 - 48) as u8,
            ));
        }
    }
}

proof fn lemma_frac_after_dot(a: Seq<char>, b: Seq<char>)
    requires
        dot_count(a) >= 1,
        a.len() > 0,
        a.last() == '.',
        dot_count(b) == 0,
    ensures
        frac_len(a + b) == b.len(),
    decreases b.len(),
{
    if b.len() == 0 {
        assert(a + b =~= a);
    } else {
        assert(b.last() != '.');
        assert(dot_count(b.drop_last()) == 0);
        lemma_frac_after_dot(a, b.drop_last());
        assert((a + b).drop_last() =~= a + b.drop_last());
        lemma_mant_concat(a, b.drop_last());
    }
}

/// Digit characters read back as their digits, with no dot.
proof fn lemma_digit_chars(ds: Seq<u8>)
    requires
        forall|k: int| 0 <= k < ds.len() ==> #[trigger] ds[k] < 10,
    ensures
        mant_digits(digit_chars(ds)) == ds,
        dot_count(digit_chars(ds)) == 0,
        forall|k: int| 0 <= k < ds.len() ==> is_run_char(#[trigger] digit_chars(ds)[k]),
        forall|k: int| 0 <= k < ds.len() ==> crate::text::is_digit_spec(#[trigger] digit_chars(ds)[k]),
    decreases ds.len(),
{
    if ds.len() > 0 {
        let d = ds.drop_last();
        assert forall|k: int| 0 <= k < d.len() implies #[trigger] d[k] < 10 by {
            assert(d[k] == ds[k]);
        }
        lemma_digit_chars(d);
        assert(digit_chars(ds).drop_last() =~= digit_chars(d));
        let c = digit_chars(ds).last();
        assert(c == (ds.last() + 48) as char);
        assert(c as u32 == ds.last() + 48);
        assert(mant_digits(digit_chars(ds)) =~= mant_digits(digit_chars(d)).push(ds.last()));
        assert forall|k: int| 0 <= k < ds.len() implies is_run_char(#[trigger] digit_chars(ds)[k]) by {
            assert(digit_chars(ds)[k] == (ds[k] + 48) as char);
        }
    } else {
        assert(digit_chars(ds) =~= Seq::<char>::empty());
        assert(mant_digits(digit_chars(ds)) =~= ds);
    }
}

/// Zero characters read back as zero digits, with no dot.
proof fn lemma_zeros(k: nat)
    ensures
        mant_digits(zeros(k)) == Seq::new(k, |i: int| 0u8),
        dot_count(zeros(k)) == 0,
        forall|j: int| 0 <= j < k ==> is_run_char(#[trigger] zeros(k)[j]),
    decreases k,
{
    if k > 0 {
        lemma_zeros((k - 1) as nat);
        assert(zeros(k).drop_last() =~= zeros((k - 1) as nat));
        assert(zeros(k).last() == '0');
        assert(mant_digits(zeros(k)) =~= Seq::new((k - 1) as nat, |i: int| 0u8).push(0u8));
        assert(Seq::new((k - 1) as nat, |i: int| 0u8).push(0u8) =~= Seq::new(k, |i: int| 0u8));
    } else {
        assert(zeros(k) =~= Seq::<char>::empty());
        assert(mant_digits(zeros(k)) =~= Seq::new(k, |i: int| 0u8));
    }
}

/// What the lexer needs of a printed number: it is one run of digits with
/// a single dot, starting with a digit, and its digits and fraction length
/// give back the number.
#[verifier::rlimit(40)]
proof fn lemma_number_text(n: SpecNumber)
    requires
        n.wf(),
    ensures
        number_text(n).len() > 0,
        crate::text::is_digit_spec(number_text(n)[0]),
        forall|k: int| 0 <= k < number_text(n).len() ==> is_run_char(#[trigger] number_text(n)[k]),
        dot_count(number_text(n)) == 1,
        canonical(mant_digits(number_text(n)), 0 - frac_len(number_text(n))) == n,
{
    let t = number_text(n);
    let ds = n.digits;
    let len = ds.len() as int;
    let e = n.exponent;
    let dot = seq!['.'];
    let zero = seq!['0'];
    reveal_strlit("0.0");
    reveal_strlit(".0");
    reveal_strlit("0.");
    reveal_strlit(".");
    let empty = Seq::<char>::empty();
    assert(dot_count(empty) == 0 && mant_digits(empty) == Seq::<u8>::empty());
    assert(dot.drop_last() =~= empty && zero.drop_last() =~= empty);
    assert(dot.len() == 1 && dot.last() == '.');
    assert(zero.len() == 1 && zero.last() == '0');
    assert(dot_count(dot) == dot_count(dot.drop_last()) + 1);
    assert(dot_count(dot) == 1);
    assert(mant_digits(dot) == mant_digits(dot.drop_last()));
    assert(mant_digits(dot) =~= Seq::<u8>::empty());
    assert(dot_count(zero) == dot_count(zero.drop_last()));
    assert(dot_count(zero) == 0);
    assert(('0' as u32 - 48) as u8 == 0u8);
    assert(mant_digits(zero) == mant_digits(zero.drop_last()).push(('0' as u32 - 48) as u8));
    assert(mant_digits(zero) =~= seq![0u8]);
    if len == 0 {
        assert(t =~= zero + dot + zero);
        lemma_mant_concat(zero, dot);
        lemma_mant_concat(zero + dot, zero);
        assert((zero + dot).last() == '.');
        lemma_frac_after_dot(zero + dot, zero);
        let m = mant_digits(t);
        assert(m =~= seq![0u8, 0u8]);
        lemma_canonical_zero(m, 0 - frac_len(t));
        assert(ds =~= Seq::<u8>::empty());
        assert(n == SpecNumber { digits: Seq::empty(), exponent: 0 });
        assert forall|k: int| 0 <= k < t.len() implies is_run_char(#[trigger] t[k]) by {}
    } else {
        lemma_digit_chars(ds);
        let d = digit_chars(ds);
        if e >= 0 {
            let z = zeros(e as nat);
            lemma_zeros(e as nat);
            let p1 = d + z + dot;
            assert(t =~= p1 + zero);
            lemma_mant_concat(d, z);
            lemma_mant_concat(d + z, dot);
            lemma_mant_concat(p1, zero);
            lemma_frac_after_dot(p1, zero);
            let m = mant_digits(t);
            assert(m =~= ds + Seq::new(e as nat, |i: int| 0u8) + seq![0u8]);
            assert forall|k: int| 0 <= k < m.len() implies #[trigger] m[k] < 10 by {
                if k < len {
                    assert(m[k] == ds[k]);
                }
            }
            assert forall|k: int| len <= k < m.len() implies m[k] == 0 by {}
            lemma_canonical_wf(m, -1, 0, len);
            assert(m.subrange(0, len) =~= ds);
            assert(frac_len(t) == 1);
            assert(m.len() == len + e + 1);
            assert(canonical(m, -1) == SpecNumber { digits: ds, exponent: e });
            assert forall|k: int| 0 <= k < t.len() implies is_run_char(#[trigger] t[k]) by {
                if k < len {
                    assert(t[k] == d[k]);
                } else if k < len + e {
                    assert(t[k] == z[k - len]);
                }
            }
            assert(t[0] == d[0]);
        } else if -e >= len {
            let k0 = (-e - len) as nat;
            let k1: int = k0 + 1int;
            let z = zeros(k0);
            lemma_zeros(k0);
            let head = zero + dot;
            assert(t =~= head + (z + d));
            lemma_mant_concat(zero, dot);
            lemma_mant_concat(z, d);
            lemma_mant_concat(head, z + d);
            assert(head.last() == '.');
            lemma_frac_after_dot(head, z + d);
            let m = mant_digits(t);
            assert(m =~= seq![0u8] + Seq::new(k0, |i: int| 0u8) + ds);
            assert forall|k: int| 0 <= k < m.len() implies #[trigger] m[k] < 10 by {
                if k > k0 {
                    assert(m[k] == ds[k - k0 - 1]);
                }
            }
            assert forall|k: int| 0 <= k < k0 + 1 implies m[k] == 0 by {}
            assert(m[k1] == ds[0]);
            assert(m[k0 + 1 + len - 1] == ds[len - 1]);
            lemma_canonical_wf(m, e, k1, k1 + len);
            assert(m.subrange(k1, k1 + len) =~= ds);
            assert((z + d).len() == k0 + len);
            assert(frac_len(t) == -e);
            assert(m.len() == k1 + len);
            assert(canonical(m, e) == SpecNumber { digits: ds, exponent: e });
            assert forall|k: int| 0 <= k < t.len() implies is_run_char(#[trigger] t[k]) by {
                if k >= 2 + k0 {
                    assert(t[k] == d[k - 2 - k0]);
                } else if k >= 2 {
                    assert(t[k] == z[k - 2]);
                }
            }
        } else {
            let cut = len + e;
            let d1 = digit_chars(ds.subrange(0, cut));
            let d2 = digit_chars(ds.subrange(cut, len));
            lemma_digit_chars(ds.subrange(0, cut));
            lemma_digit_chars(ds.subrange(cut, len));
            assert(t =~= (d1 + dot) + d2);
            lemma_mant_concat(d1, dot);
            lemma_mant_concat(d1 + dot, d2);
            assert((d1 + dot).last() == '.');
            lemma_frac_after_dot(d1 + dot, d2);
            let m = mant_digits(t);
            assert(m =~= ds);
            lemma_canonical_wf(m, e, 0, len);
            assert(m.subrange(0, len) =~= ds);
            assert(frac_len(t) == d2.len());
            assert(d2.len() == len - cut);
            assert(canonical(m, e) == SpecNumber { digits: ds, exponent: e });
            assert forall|k: int| 0 <= k < t.len() implies is_run_char(#[trigger] t[k]) by {
                if k < cut {
                    assert(t[k] == d1[k]);
                } else if k > cut {
                    assert(t[k] == d2[k - cut - 1]);
                }
            }
            assert(t[0] == d1[0]);
        }
    }
}

proof fn lemma_run_end(cs: Seq<char>, j: int, k: int)
    requires
        0 <= j <= k <= cs.len(),
        forall|t: int| j <= t < k ==> is_run_char(#[trigger] cs[t]),
        k == cs.len() || !is_run_char(cs[k]),
    ensures
        run_end(cs, j) == k,
    decreases k - j,
{
    if j < k {
        lemma_run_end(cs, j + 1, k);
    }
}

proof fn lemma_ref_end(cs: Seq<char>, j: int, k: int)
    requires
        0 <= j <= k <= cs.len(),
        forall|t: int| j <= t < k ==> is_reference_char(#[trigger] cs[t]),
        k == cs.len() || !is_reference_char(cs[k]),
    ensures
        ref_end(cs, j) == k,
    decreases k - j,
{
    if j < k {
        lemma_ref_end(cs, j + 1, k);
    }
}

proof fn lemma_ident_end(cs: Seq<char>, j: int, k: int)
    requires
        0 <= j <= k <= cs.len(),
        forall|t: int| j <= t < k ==> is_ident_char(#[trigger] cs[t]),
        k == cs.len() || !is_ident_char(cs[k]),
    ensures
        ident_end(cs, j) == k,
    decreases k - j,
{
    if j < k {
        lemma_ident_end(cs, j + 1, k);
    }
}

/// A part of a text found where the whole text is.
proof fn lemma_chars_part(cs: Seq<char>, i: int, whole: Seq<char>, start: int, part: Seq<char>)
    requires
        0 <= i,
        i + whole.len() <= cs.len(),
        cs.subrange(i, i + whole.len()) == whole,
        0 <= start,
        start + part.len() <= whole.len(),
        whole.subrange(start, start + part.len()) == part,
    ensures
        cs.subrange(i + start, i + start + part.len()) == part,
{
    assert forall|k: int| 0 <= k < part.len() implies #[trigger] cs.subrange(i + start, i + start + part.len())[k]
        == part[k] by {
        assert(cs.subrange(i, i + whole.len())[start + k] == whole[start + k]);
        assert(whole.subrange(start, start + part.len())[k] == whole[start + k]);
    }
    assert(cs.subrange(i + start, i + start + part.len()) =~= part);
}

/// The character at `start` of a text found at `i`.
proof fn lemma_char_at(cs: Seq<char>, i: int, whole: Seq<char>, start: int)
    requires
        0 <= i,
        i + whole.len() <= cs.len(),
        cs.subrange(i, i + whole.len()) == whole,
        0 <= start < whole.len(),
    ensures
        cs[i + start] == whole[start],
{
    assert(cs.subrange(i, i + whole.len())[start] == whole[start]);
}

#[verifier::spinoff_prover]
proof fn lemma_lex_number(cs: Seq<char>, i: int, n: SpecNumber)
    requires
        n.wf(),
        i64::MIN <= n.exponent <= i64::MAX,
        0 <= i,
        i + number_text(n).len() <= cs.len(),
        cs.subrange(i, i + number_text(n).len()) == number_text(n),
        boundary(cs, i + number_text(n).len()),
    ensures
        kinds_from(cs, i) == after(
            seq![SpecToken::Number(n)],
            kinds_from(cs, i + number_text(n).len()),
        ),
{
    reveal(kinds_from);
    let t = number_text(n);
    let end = i + t.len();
    lemma_number_text(n);
    assert forall|k: int| i <= k < end implies is_run_char(#[trigger] cs[k]) by {
        lemma_char_at(cs, i, t, k - i);
    }
    lemma_char_at(cs, i, t, 0);
    lemma_run_end(cs, i, end);
    assert(exponent_start(cs, end) is None);
    assert(number_end(cs, i) == end);
    assert(cs.subrange(i, run_end(cs, i)) == t);
    assert(lexeme_number(cs, i) == Some(n));
    assert(!is_whitespace_spec(cs[i]));
    lemma_kinds_cons(cs, i, SpecToken::Number(n), lex_from(cs, end));
}

#[verifier::spinoff_prover]
proof fn lemma_lex_reference(cs: Seq<char>, i: int, r: SpecRef)
    requires
        reference_reads_back(r),
        0 <= i,
        i + ref_text(r).len() <= cs.len(),
        cs.subrange(i, i + ref_text(r).len()) == ref_text(r),
        boundary(cs, i + ref_text(r).len()),
    ensures
        kinds_from(cs, i) == after(
            seq![SpecToken::Reference(ref_text(r).drop_first())],
            kinds_from(cs, i + ref_text(r).len()),
        ),
{
    reveal(kinds_from);
    let t = ref_text(r);
    let text = t.drop_first();
    let end = i + t.len();
    reveal_strlit("@param.");
    reveal_strlit("@station.");
    reveal_strlit("@component.");
    assert(t[0] == '@');
    lemma_char_at(cs, i, t, 0);
    assert forall|k: int| i + 1 <= k < end implies is_reference_char(#[trigger] cs[k]) by {
        lemma_char_at(cs, i, t, k - i);
        assert(text[k - i - 1] == t[k - i]);
    }
    lemma_ref_end(cs, i + 1, end);
    assert(cs.subrange(i + 1, end) =~= text) by {
        assert forall|k: int| 0 <= k < text.len() implies #[trigger] cs.subrange(i + 1, end)[k] == text[k] by {
            lemma_char_at(cs, i, t, k + 1);
        }
    }
    assert(!is_whitespace_spec(cs[i]));
    lemma_kinds_cons(cs, i, SpecToken::Reference(text), lex_from(cs, end));
}

/// Function names are lowercase letters.
proof fn lemma_name_letters(f: Function)
    ensures
        f.name_spec().len() > 0,
        forall|k: int| 0 <= k < f.name_spec().len() ==> 'a' <= #[trigger] f.name_spec()[k] <= 'z',
{
    let name = f.name_spec();
    match f {
        Function::Min => {
            reveal_strlit("min");
            assert(name[0] == 'm' && name[1] == 'i' && name[2] == 'n');
        },
        Function::Max => {
            reveal_strlit("max");
            assert(name[0] == 'm' && name[1] == 'a' && name[2] == 'x');
        },
        Function::Clamp => {
            reveal_strlit("clamp");
            assert(name[0] == 'c' && name[1] == 'l' && name[2] == 'a' && name[3] == 'm' && name[4] == 'p');
        },
        Function::Abs => {
            reveal_strlit("abs");
            assert(name[0] == 'a' && name[1] == 'b' && name[2] == 's');
        },
        Function::Sqrt => {
            reveal_strlit("sqrt");
            assert(name[0] == 's' && name[1] == 'q' && name[2] == 'r' && name[3] == 't');
        },
        Function::Pow => {
            reveal_strlit("pow");
            assert(name[0] == 'p' && name[1] == 'o' && name[2] == 'w');
        },
        Function::Sin => {
            reveal_strlit("sin");
            assert(name[0] == 's' && name[1] == 'i' && name[2] == 'n');
        },
        Function::Cos => {
            reveal_strlit("cos");
            assert(name[0] == 'c' && name[1] == 'o' && name[2] == 's');
        },
        Function::Tan => {
            reveal_strlit("tan");
            assert(name[0] == 't' && name[1] == 'a' && name[2] == 'n');
        },
        Function::Lerp => {
            reveal_strlit("lerp");
            assert(name[0] == 'l' && name[1] == 'e' && name[2] == 'r' && name[3] == 'p');
        },
    }
}

#[verifier::spinoff_prover]
proof fn lemma_lex_name(cs: Seq<char>, i: int, f: Function)
    requires
        0 <= i,
        i + f.name_spec().len() < cs.len(),
        cs.subrange(i, i + f.name_spec().len()) == f.name_spec(),
        cs[i + f.name_spec().len()] == '(',
    ensures
        kinds_from(cs, i) == after(
            seq![SpecToken::Ident(f.name_spec())],
            kinds_from(cs, i + f.name_spec().len()),
        ),
{
    reveal(kinds_from);
    let name = f.name_spec();
    let end = i + name.len();
    lemma_name_letters(f);
    assert forall|k: int| i <= k < end implies is_ident_char(#[trigger] cs[k]) by {
        lemma_char_at(cs, i, name, k - i);
    }
    lemma_char_at(cs, i, name, 0);
    lemma_ident_end(cs, i, end);
    assert(cs.subrange(i, end) == name);
    assert(!is_whitespace_spec(cs[i]));
    lemma_kinds_cons(cs, i, SpecToken::Ident(name), lex_from(cs, end));
}

/// Lexing `(l op r)` piece by piece.
proof fn lemma_lex_wrapped(
    cs: Seq<char>,
    i: int,
    a: int,
    s: int,
    b: int,
    tl: Seq<SpecToken>,
    op: SpecToken,
    tr: Seq<SpecToken>,
)
    requires
        kinds_from(cs, i) == after(seq![SpecToken::LeftParen], kinds_from(cs, i + 1)),
        kinds_from(cs, i + 1) == after(tl, kinds_from(cs, i + 1 + a)),
        kinds_from(cs, i + 1 + a) == kinds_from(cs, i + 2 + a),
        kinds_from(cs, i + 2 + a) == after(seq![op], kinds_from(cs, i + 2 + a + s)),
        kinds_from(cs, i + 2 + a + s) == kinds_from(cs, i + 3 + a + s),
        kinds_from(cs, i + 3 + a + s) == after(tr, kinds_from(cs, i + 3 + a + s + b)),
        kinds_from(cs, i + 3 + a + s + b) == after(
            seq![SpecToken::RightParen],
            kinds_from(cs, i + 4 + a + s + b),
        ),
    ensures
        kinds_from(cs, i) == after(
            seq![SpecToken::LeftParen] + tl + seq![op] + tr + seq![SpecToken::RightParen],
            kinds_from(cs, i + 4 + a + s + b),
        ),
{
    let end = kinds_from(cs, i + 4 + a + s + b);
    let rp = seq![SpecToken::RightParen];
    lemma_after_after(tr, rp, end);
    lemma_after_after(seq![op], tr + rp, end);
    lemma_after_after(tl, seq![op] + (tr + rp), end);
    lemma_after_after(seq![SpecToken::LeftParen], tl + (seq![op] + (tr + rp)), end);
    assert(seq![SpecToken::LeftParen] + (tl + (seq![op] + (tr + rp))) =~= seq![SpecToken::LeftParen] + tl
        + seq![op] + tr + rp);
}

/// Where the parts of `(l op r)` stand in a text holding it at `i`, and how
/// the pieces around the operands lex.
#[verifier::spinoff_prover]
proof fn lemma_binary_pieces(cs: Seq<char>, i: int, op: BinOp, l: SpecExpr, r: SpecExpr)
    requires
        0 <= i,
        i + print_spec(SpecExpr::Binary(op, Box::new(l), Box::new(r))).len() <= cs.len(),
        cs.subrange(i, i + print_spec(SpecExpr::Binary(op, Box::new(l), Box::new(r))).len()) == print_spec(
            SpecExpr::Binary(op, Box::new(l), Box::new(r)),
        ),
        boundary(cs, i + print_spec(SpecExpr::Binary(op, Box::new(l), Box::new(r))).len()),
    ensures
        ({
            let a = print_spec(l).len() as int;
            let b = print_spec(r).len() as int;
            &&& print_spec(SpecExpr::Binary(op, Box::new(l), Box::new(r))).len() == 5 + a + b
            &&& cs.subrange(i + 1, i + 1 + a) == print_spec(l)
            &&& boundary(cs, i + 1 + a)
            &&& cs.subrange(i + 4 + a, i + 4 + a + b) == print_spec(r)
            &&& boundary(cs, i + 4 + a + b)
            &&& kinds_from(cs, i) == after(seq![SpecToken::LeftParen], kinds_from(cs, i + 1))
            &&& kinds_from(cs, i + 1 + a) == kinds_from(cs, i + 2 + a)
            &&& kinds_from(cs, i + 2 + a) == after(seq![bin_token(op)], kinds_from(cs, i + 3 + a))
            &&& kinds_from(cs, i + 3 + a) == kinds_from(cs, i + 4 + a)
            &&& kinds_from(cs, i + 4 + a + b) == after(
                seq![SpecToken::RightParen],
                kinds_from(cs, i + 5 + a + b),
            )
        }),
{
    let t = print_spec(SpecExpr::Binary(op, Box::new(l), Box::new(r)));
    let pl = print_spec(l);
    let pr = print_spec(r);
    let sym = op_symbol_spec(op);
    reveal_strlit("(");
    reveal_strlit(")");
    reveal_strlit(" ");
    reveal_strlit("+");
    reveal_strlit("-");
    reveal_strlit("*");
    reveal_strlit("/");
    let a = pl.len() as int;
    let b = pr.len() as int;
    assert(sym.len() == 1);
    assert(t.subrange(1, 1 + a) =~= pl);
    assert(t.subrange(4 + a, 4 + a + b) =~= pr);
    lemma_chars_part(cs, i, t, 1, pl);
    lemma_chars_part(cs, i, t, 4 + a, pr);
    lemma_char_at(cs, i, t, 0);
    lemma_char_at(cs, i, t, 1 + a);
    lemma_char_at(cs, i, t, 2 + a);
    lemma_char_at(cs, i, t, 3 + a);
    lemma_char_at(cs, i, t, 4 + a + b);
    lemma_lex_single(cs, i, SpecToken::LeftParen);
    lemma_lex_space(cs, i + 1 + a);
    lemma_lex_single(cs, i + 2 + a, bin_token(op));
    lemma_lex_space(cs, i + 3 + a);
    lemma_lex_single(cs, i + 4 + a + b, SpecToken::RightParen);
}

/// Where the parts of `(l op r)` stand for a comparison, and how the pieces
/// around the operands lex.
#[verifier::spinoff_prover]
proof fn lemma_comparison_pieces(cs: Seq<char>, i: int, op: CmpOp, l: SpecExpr, r: SpecExpr)
    requires
        0 <= i,
        i + print_spec(SpecExpr::Compare(op, Box::new(l), Box::new(r))).len() <= cs.len(),
        cs.subrange(i, i + print_spec(SpecExpr::Compare(op, Box::new(l), Box::new(r))).len()) == print_spec(
            SpecExpr::Compare(op, Box::new(l), Box::new(r)),
        ),
        boundary(cs, i + print_spec(SpecExpr::Compare(op, Box::new(l), Box::new(r))).len()),
    ensures
        ({
            let a = print_spec(l).len() as int;
            let b = print_spec(r).len() as int;
            let s = comparison_symbol_spec(op).len() as int;
            &&& print_spec(SpecExpr::Compare(op, Box::new(l), Box::new(r))).len() == 4 + a + s + b
            &&& cs.subrange(i + 1, i + 1 + a) == print_spec(l)
            &&& boundary(cs, i + 1 + a)
            &&& cs.subrange(i + 3 + a + s, i + 3 + a + s + b) == print_spec(r)
            &&& boundary(cs, i + 3 + a + s + b)
            &&& kinds_from(cs, i) == after(seq![SpecToken::LeftParen], kinds_from(cs, i + 1))
            &&& kinds_from(cs, i + 1 + a) == kinds_from(cs, i + 2 + a)
            &&& kinds_from(cs, i + 2 + a) == after(seq![comparison_token(op)], kinds_from(cs, i + 2 + a + s))
            &&& kinds_from(cs, i + 2 + a + s) == kinds_from(cs, i + 3 + a + s)
            &&& kinds_from(cs, i + 3 + a + s + b) == after(
                seq![SpecToken::RightParen],
                kinds_from(cs, i + 4 + a + s + b),
            )
        }),
{
    let t = print_spec(SpecExpr::Compare(op, Box::new(l), Box::new(r)));
    let pl = print_spec(l);
    let pr = print_spec(r);
    let sym = comparison_symbol_spec(op);
    reveal_strlit("(");
    reveal_strlit(")");
    reveal_strlit(" ");
    reveal_strlit("<");
    reveal_strlit("<=");
    reveal_strlit(">");
    reveal_strlit(">=");
    reveal_strlit("==");
    reveal_strlit("!=");
    let a = pl.len() as int;
    let b = pr.len() as int;
    let s = sym.len() as int;
    assert(t.subrange(1, 1 + a) =~= pl);
    assert(t.subrange(2 + a, 2 + a + s) =~= sym);
    assert(t.subrange(3 + a + s, 3 + a + s + b) =~= pr);
    lemma_chars_part(cs, i, t, 1, pl);
    lemma_chars_part(cs, i, t, 2 + a, sym);
    lemma_chars_part(cs, i, t, 3 + a + s, pr);
    lemma_char_at(cs, i, t, 0);
    lemma_char_at(cs, i, t, 1 + a);
    lemma_char_at(cs, i, t, 2 + a + s);
    lemma_char_at(cs, i, t, 3 + a + s + b);
    lemma_lex_single(cs, i, SpecToken::LeftParen);
    lemma_lex_space(cs, i + 1 + a);
    lemma_lex_comparison(cs, i + 2 + a, op);
    lemma_lex_space(cs, i + 2 + a + s);
    lemma_lex_single(cs, i + 3 + a + s + b, SpecToken::RightParen);
}

/// Where the parts of `name(args)` stand, and how the name and the
/// parentheses lex.
#[verifier::spinoff_prover]
proof fn lemma_call_pieces(cs: Seq<char>, i: int, f: Function, args: Seq<SpecExpr>)
    requires
        0 <= i,
        i + print_spec(SpecExpr::Call(f, args)).len() <= cs.len(),
        cs.subrange(i, i + print_spec(SpecExpr::Call(f, args)).len()) == print_spec(SpecExpr::Call(f, args)),
        boundary(cs, i + print_spec(SpecExpr::Call(f, args)).len()),
    ensures
        ({
            let nl = f.name_spec().len() as int;
            let al = print_args_spec(args).len() as int;
            &&& print_spec(SpecExpr::Call(f, args)).len() == nl + 2 + al
            &&& cs.subrange(i + nl + 1, i + nl + 1 + al) == print_args_spec(args)
            &&& boundary(cs, i + nl + 1 + al)
            &&& kinds_from(cs, i) == after(seq![SpecToken::Ident(f.name_spec())], kinds_from(cs, i + nl))
            &&& kinds_from(cs, i + nl) == after(seq![SpecToken::LeftParen], kinds_from(cs, i + nl + 1))
            &&& kinds_from(cs, i + nl + 1 + al) == after(
                seq![SpecToken::RightParen],
                kinds_from(cs, i + nl + 2 + al),
            )
        }),
{
    let t = print_spec(SpecExpr::Call(f, args));
    let name = f.name_spec();
    let pa = print_args_spec(args);
    reveal_strlit("(");
    reveal_strlit(")");
    let nl = name.len() as int;
    let al = pa.len() as int;
    assert(t.subrange(0, nl) =~= name);
    assert(t.subrange(nl + 1, nl + 1 + al) =~= pa);
    lemma_chars_part(cs, i, t, 0, name);
    lemma_chars_part(cs, i, t, nl + 1, pa);
    lemma_char_at(cs, i, t, nl);
    lemma_char_at(cs, i, t, nl + 1 + al);
    assert(cs.subrange(i + 0, i + 0 + nl) == name);
    lemma_lex_name(cs, i, f);
    lemma_lex_single(cs, i + nl, SpecToken::LeftParen);
    lemma_lex_single(cs, i + nl + 1 + al, SpecToken::RightParen);
}

/// The printed text of an expression lexes into its tokens.
#[verifier::spinoff_prover]
proof fn lemma_lex_printed(e: SpecExpr, cs: Seq<char>, i: int, budget: int)
    requires
        reprintable(e, budget),
        0 <= i,
        i + print_spec(e).len() <= cs.len(),
        cs.subrange(i, i + print_spec(e).len()) == print_spec(e),
        boundary(cs, i + print_spec(e).len()),
    ensures
        kinds_from(cs, i) == after(token_form(e), kinds_from(cs, i + print_spec(e).len())),
    decreases e,
{
    let t = print_spec(e);
    match e {
        SpecExpr::Literal(n) => {
            lemma_lex_number(cs, i, n);
        },
        SpecExpr::Reference(r) => {
            lemma_lex_reference(cs, i, r);
        },
        SpecExpr::Negate(inner) => {
            let pi = print_spec(*inner);
            reveal_strlit("-");
            lemma_char_at(cs, i, t, 0);
            assert(t.subrange(1, 1int + pi.len()) =~= pi);
            lemma_chars_part(cs, i, t, 1, pi);
            lemma_lex_single(cs, i, SpecToken::Minus);
            lemma_lex_printed(*inner, cs, i + 1, budget);
            lemma_after_after(seq![SpecToken::Minus], token_form(*inner), kinds_from(cs, i + t.len()));
        },
        SpecExpr::Binary(op, l, r) => {
            let a = print_spec(*l).len() as int;
            let b = print_spec(*r).len() as int;
            lemma_binary_pieces(cs, i, op, *l, *r);
            lemma_lex_printed(*l, cs, i + 1, budget - 1);
            lemma_lex_printed(*r, cs, i + 4 + a, budget - 1);
            lemma_lex_wrapped(cs, i, a, 1, b, token_form(*l), bin_token(op), token_form(*r));
        },
        SpecExpr::Compare(op, l, r) => {
            let a = print_spec(*l).len() as int;
            let b = print_spec(*r).len() as int;
            let s = comparison_symbol_spec(op).len() as int;
            lemma_comparison_pieces(cs, i, op, *l, *r);
            lemma_lex_printed(*l, cs, i + 1, budget - 1);
            lemma_lex_printed(*r, cs, i + 3 + a + s, budget - 1);
            lemma_lex_wrapped(cs, i, a, s, b, token_form(*l), comparison_token(op), token_form(*r));
        },
        SpecExpr::Call(f, args) => {
            let nl = f.name_spec().len() as int;
            let al = print_args_spec(args).len() as int;
            lemma_call_pieces(cs, i, f, args);
            lemma_lex_args(args, cs, i + nl + 1, budget);
            let end = kinds_from(cs, i + t.len());
            let rp = seq![SpecToken::RightParen];
            let af = args_form(args);
            lemma_after_after(af, rp, end);
            lemma_after_after(seq![SpecToken::LeftParen], af + rp, end);
            lemma_after_after(seq![SpecToken::Ident(f.name_spec())], seq![SpecToken::LeftParen] + (af + rp), end);
            assert(seq![SpecToken::Ident(f.name_spec())] + (seq![SpecToken::LeftParen] + (af + rp)) =~= token_form(
                e,
            ));
        },
    }
}

/// Printed arguments lex into their tokens.
#[verifier::spinoff_prover]
#[verifier::rlimit(60)]
proof fn lemma_lex_args(args: Seq<SpecExpr>, cs: Seq<char>, i: int, budget: int)
    requires
        reprintable_args(args, budget),
        0 <= i,
        i + print_args_spec(args).len() <= cs.len(),
        cs.subrange(i, i + print_args_spec(args).len()) == print_args_spec(args),
        boundary(cs, i + print_args_spec(args).len()),
    ensures
        kinds_from(cs, i) == after(args_form(args), kinds_from(cs, i + print_args_spec(args).len())),
    decreases args,
{
    if args.len() == 0 {
        lemma_after_empty(kinds_from(cs, i));
    } else if args.len() == 1 {
        assert(args.last() == args[0]);
        lemma_lex_printed(args[0], cs, i, budget);
    } else {
        reveal_strlit(", ");
        let dl = args.drop_last();
        let pa = print_args_spec(args);
        let pd = print_args_spec(dl);
        let pl = print_spec(args.last());
        let d = pd.len() as int;
        assert(pa == pd + ", "@ + pl);
        assert(pa.subrange(0, d) =~= pd);
        assert(pa.subrange(d + 2, d + 2 + pl.len()) =~= pl);
        lemma_chars_part(cs, i, pa, 0, pd);
        lemma_chars_part(cs, i, pa, d + 2, pl);
        lemma_char_at(cs, i, pa, d);
        lemma_char_at(cs, i, pa, d + 1);
        lemma_lex_args(dl, cs, i, budget);
        lemma_lex_single(cs, i + d, SpecToken::Comma);
        lemma_lex_space(cs, i + d + 1);
        lemma_lex_printed(args.last(), cs, i + d + 2, budget);
        let end = kinds_from(cs, i + pa.len());
        let c = seq![SpecToken::Comma];
        let tl = token_form(args.last());
        lemma_after_after(c, tl, end);
        lemma_after_after(args_form(dl), c + tl, end);
        assert(args_form(dl) + (c + tl) =~= args_form(args));
    }
}

/// The text printed for an expression parses back as that expression,
/// when its references read back, its calls have their declared arity and
/// its parentheses nest no deeper than the parser accepts.
pub proof fn law_print_parse_round_trip(e: SpecExpr)
    requires
        reprintable(e, MAX_NESTING as int),
    ensures
        parse_formula_spec(print_spec(e)) == Ok::<SpecExpr, DiagnosticView>(e),
{
    let t = print_spec(e);
    let tf = token_form(e);
    assert(t.subrange(0, t.len() as int) =~= t);
    lemma_lex_printed(e, t, 0, MAX_NESTING as int);
    reveal(kinds_from);
    assert(lex_from(t, t.len() as int) == Ok::<Seq<SpecSpanned>, crate::lexer::SpecLexError>(Seq::empty()));
    assert(Seq::<SpecSpanned>::empty().map_values(|x: SpecSpanned| x.token) =~= Seq::<SpecToken>::empty());
    assert(tf + Seq::<SpecToken>::empty() =~= tf);
    let ts = lex_spec(t)->Ok_0;
    assert(lex_spec(t) is Ok);
    assert(ts.map_values(|x: SpecSpanned| x.token) == tf);
    assert(ts.len() == tf.len());
    assert forall|k: int| 0 <= k < tf.len() implies #[trigger] ts[0 + k].token == tf[k] by {
        assert(ts.map_values(|x: SpecSpanned| x.token)[k] == ts[k].token);
    }
    lemma_first_token(e);
    lemma_parse_unit(e, ts, 0, 0);
    lemma_levels(ts, 0, 0, e, tf.len() as int);
}

/// The parts joined back with the separator between them.
pub open spec fn join_spec(parts: Seq<Seq<char>>, sep: char) -> Seq<char>
    decreases parts.len(),
{
    if parts.len() <= 1 {
        if parts.len() == 1 {
            parts[0]
        } else {
            Seq::empty()
        }
    } else {
        join_spec(parts.drop_last(), sep) + seq![sep] + parts.last()
    }
}

/// Splitting at a separator and joining at it gives the text back.
proof fn lemma_join_split(s: Seq<char>, sep: char)
    ensures
        join_spec(split_spec(s, sep), sep) == s,
    decreases s.len(),
{
    if s.len() > 0 {
        let x = s.last();
        let rest = s.drop_last();
        lemma_join_split(rest, sep);
        lemma_split_nonempty(rest, sep);
        let p = split_spec(rest, sep);
        if x == sep {
            let q = p.push(Seq::<char>::empty());
            assert(q.drop_last() =~= p);
            assert(join_spec(q, sep) =~= s);
        } else {
            let q = p.update(p.len() - 1, p.last().push(x));
            if p.len() == 1 {
                assert(join_spec(q, sep) =~= s);
            } else {
                assert(q.drop_last() =~= p.drop_last());
                assert(join_spec(q, sep) =~= join_spec(p, sep).push(x));
                assert(join_spec(q, sep) =~= s);
            }
        }
    } else {
        assert(split_spec(s, sep) =~= seq![Seq::<char>::empty()]);
        assert(s =~= Seq::<char>::empty());
    }
}

/// Text that names a reference prints back as that same text.
proof fn lemma_join3(parts: Seq<Seq<char>>)
    requires
        parts.len() == 3,
    ensures
        join_spec(parts, '.') == parts[0] + seq!['.'] + parts[1] + seq!['.'] + parts[2],
{
    let d1 = parts.drop_last();
    let d2 = d1.drop_last();
    assert(d2 =~= seq![parts[0]]);
    assert(join_spec(d2, '.') == parts[0]);
    assert(join_spec(d1, '.') == join_spec(d2, '.') + seq!['.'] + d1.last());
}

proof fn lemma_join2(parts: Seq<Seq<char>>)
    requires
        parts.len() == 2,
    ensures
        join_spec(parts, '.') == parts[0] + seq!['.'] + parts[1],
{
    let d1 = parts.drop_last();
    assert(d1 =~= seq![parts[0]]);
    assert(join_spec(d1, '.') == parts[0]);
}

proof fn lemma_join5(parts: Seq<Seq<char>>)
    requires
        parts.len() == 5,
    ensures
        join_spec(parts, '.') == parts[0] + seq!['.'] + parts[1] + seq!['.'] + parts[2] + seq!['.']
            + parts[3] + seq!['.'] + parts[4],
{
    let d1 = parts.drop_last();
    lemma_join_prefix4(d1);
}

proof fn lemma_join_prefix4(d1: Seq<Seq<char>>)
    requires
        d1.len() == 4,
    ensures
        join_spec(d1, '.') == d1[0] + seq!['.'] + d1[1] + seq!['.'] + d1[2] + seq!['.'] + d1[3],
{
    let d2 = d1.drop_last();
    lemma_join3(d2);
}

/// Text that names a reference prints back as that same text.
proof fn lemma_reference_text(text: Seq<char>, offset: int)
    requires
        parse_reference_spec(text, offset) is Ok,
    ensures
        ref_text(parse_reference_spec(text, offset)->Ok_0).drop_first() == text,
{
    reveal_strlit("param.");
    reveal_strlit("station.");
    reveal_strlit("component.");
    reveal_strlit("@param.");
    reveal_strlit("@station.");
    reveal_strlit("@component.");
    reveal_strlit(".");
    reveal_strlit("position");
    reveal_strlit("position.x");
    reveal_strlit("position.y");
    reveal_strlit("position.z");
    reveal_strlit("chord");
    reveal_strlit("twist");
    reveal_strlit("interface");
    reveal_strlit("origin");
    reveal_strlit(".interface.");
    reveal_strlit(".origin.");
    reveal_strlit("x");
    reveal_strlit("y");
    reveal_strlit("z");
    let r = parse_reference_spec(text, offset)->Ok_0;
    let t = ref_text(r);
    if starts_with(text, "param."@) {
        let rest = text.subrange(6, text.len() as int);
        assert(text =~= "param."@ + rest);
        assert(t.drop_first() =~= text);
    } else if starts_with(text, "station."@) {
        let body = text.subrange(8, text.len() as int);
        let parts = split_spec(body, '.');
        lemma_join_split(body, '.');
        assert(text =~= "station."@ + body);
        if parts.len() == 3 {
            lemma_join3(parts);
            assert(t.drop_first() =~= text);
        } else {
            lemma_join2(parts);
            assert(t.drop_first() =~= text);
        }
    } else {
        let body = text.subrange(10, text.len() as int);
        let parts = split_spec(body, '.');
        lemma_join_split(body, '.');
        assert(text =~= "component."@ + body);
        lemma_join5(parts);
        assert(t.drop_first() =~= text);
    }
}

/// A reference token's text that the reference grammar accepts reads back:
/// its printed form is that very text.
pub proof fn lemma_parsed_reference_reads_back(text: Seq<char>, offset: int)
    requires
        text.len() > 0,
        forall|k: int| 0 <= k < text.len() ==> is_reference_char(#[trigger] text[k]),
        parse_reference_spec(text, offset) is Ok,
    ensures
        reference_reads_back(parse_reference_spec(text, offset)->Ok_0),
{
    lemma_reference_text(text, offset);
    let r = parse_reference_spec(text, offset)->Ok_0;
    lemma_reference_offset(text, offset);
}

/// The offset only places error messages.
proof fn lemma_reference_offset(text: Seq<char>, offset: int)
    requires
        parse_reference_spec(text, offset) is Ok,
    ensures
        parse_reference_spec(text, 0) == parse_reference_spec(text, offset),
{
}

/// Every literal's exponent fits an `i64` and every reference reads back.
pub open spec fn leaves_print_back(e: SpecExpr) -> bool
    decreases e, 1nat,
{
    match e {
        SpecExpr::Literal(n) => i64::MIN <= n.exponent <= i64::MAX,
        SpecExpr::Reference(r) => reference_reads_back(r),
        SpecExpr::Negate(inner) => leaves_print_back(*inner),
        SpecExpr::Binary(_, l, r) => leaves_print_back(*l) && leaves_print_back(*r),
        SpecExpr::Compare(_, l, r) => leaves_print_back(*l) && leaves_print_back(*r),
        SpecExpr::Call(_, args) => leaves_print_back_all(args),
    }
}

pub open spec fn leaves_print_back_all(args: Seq<SpecExpr>) -> bool
    decreases args, 0nat,
{
    if args.len() == 0 {
        true
    } else {
        leaves_print_back_all(args.drop_last()) && leaves_print_back(args.last())
    }
}

/// How deeply binary operations and comparisons nest.
pub open spec fn operator_depth(e: SpecExpr) -> nat
    decreases e, 1nat,
{
    match e {
        SpecExpr::Literal(_) => 0,
        SpecExpr::Reference(_) => 0,
        SpecExpr::Negate(inner) => operator_depth(*inner),
        SpecExpr::Binary(_, l, r) => 1 + vstd::math::max(operator_depth(*l) as int, operator_depth(*r) as int) as nat,
        SpecExpr::Compare(_, l, r) => 1 + vstd::math::max(operator_depth(*l) as int, operator_depth(*r) as int) as nat,
        SpecExpr::Call(_, args) => operator_depth_all(args),
    }
}

pub open spec fn operator_depth_all(args: Seq<SpecExpr>) -> nat
    decreases args, 0nat,
{
    if args.len() == 0 {
        0
    } else {
        vstd::math::max(operator_depth_all(args.drop_last()) as int, operator_depth(args.last()) as int) as nat
    }
}

proof fn lemma_reprintable_from(e: SpecExpr, budget: int)
    requires
        crate::ast::expr_wf(e),
        crate::check::arities_within(e),
        leaves_print_back(e),
        operator_depth(e) <= budget,
    ensures
        reprintable(e, budget),
    decreases e, 1nat,
{
    match e {
        SpecExpr::Literal(_) => {},
        SpecExpr::Reference(_) => {},
        SpecExpr::Negate(inner) => {
            lemma_reprintable_from(*inner, budget);
        },
        SpecExpr::Binary(_, l, r) => {
            lemma_reprintable_from(*l, budget - 1);
            lemma_reprintable_from(*r, budget - 1);
        },
        SpecExpr::Compare(_, l, r) => {
            lemma_reprintable_from(*l, budget - 1);
            lemma_reprintable_from(*r, budget - 1);
        },
        SpecExpr::Call(_, args) => {
            lemma_reprintable_args_from(args, budget);
        },
    }
}

proof fn lemma_reprintable_args_from(args: Seq<SpecExpr>, budget: int)
    requires
        crate::ast::exprs_wf(args),
        crate::check::arities_within_all(args),
        leaves_print_back_all(args),
        operator_depth_all(args) <= budget,
    ensures
        reprintable_args(args, budget),
    decreases args, 0nat,
{
    if args.len() > 0 {
        lemma_reprintable_args_from(args.drop_last(), budget);
        lemma_reprintable_from(args.last(), budget);
    }
}

/// Every expression the parser returns prints back as itself when its
/// operators nest no deeper than the parser's nesting limit: what
/// [`crate::parser::parse_formula`] returns is well formed, has calls of
/// their declared arity, canonical literals and references that read back,
/// so printing it and parsing the text gives the same expression. (The
/// printer brackets every operation, so an expression with more nested
/// operators prints to text the parser refuses as nested too deeply.)
pub proof fn law_parsed_print_round_trip(e: SpecExpr)
    requires
        crate::ast::expr_wf(e),
        crate::check::arities_within(e),
        leaves_print_back(e),
        operator_depth(e) <= MAX_NESTING,
    ensures
        parse_formula_spec(print_spec(e)) == Ok::<SpecExpr, DiagnosticView>(e),
{
    lemma_reprintable_from(e, MAX_NESTING as int);
    law_print_parse_round_trip(e);
}

} // verus!
