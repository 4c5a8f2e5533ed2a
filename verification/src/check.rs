//! Dimensional type checker.
//!
//! Walks the AST once, unifying dimensions bottom-up with the field's
//! expected dimension flowing down. The result is a checked tree whose
//! literal and reference nodes carry their resolved dimension, plus the list
//! of references used (with their dimension) so the caller can build
//! dependency edges.
//!
//! Dimension exponents are `i32`; an operation whose exponent would leave
//! that range is reported as a dimension mismatch.
use crate::ast::{
    calls_ok, calls_ok_all, lemma_calls_ok_all, lemma_view_exprs, min_args, number_plain,
    view_exprs, BinOp, CmpOp, Expr, Function, Number, Ref, SpecExpr, SpecNumber, SpecRef,
};
use crate::diagnostic::{error_view, Code, Diagnostic, DiagnosticView};
use crate::dim::{Dim, Dimension};
use vstd::prelude::*;

verus! {

/// Supplies the dimension of a reference; an unknown reference is an error.
///
/// An implementation answers the same reference the same way every time.
pub trait RefResolver {
    /// The answer the resolver gives for a reference.
    spec fn resolves(&self, reference: SpecRef) -> Result<Dim, DiagnosticView>;

    /// The references the resolver has been asked about, oldest first.
    spec fn asked(&self) -> RefLog;

    fn dimension_of(&mut self, reference: &Ref) -> (r: Result<Dim, Diagnostic>)
        ensures
            view_dim_result(r) == old(self).resolves(reference@),
            forall|x: SpecRef| #[trigger] final(self).resolves(x) == old(self).resolves(x),
            final(self).asked() == old(self).asked().push(reference@),
    ;
}

/// A log of the references a resolver was asked about.
pub type RefLog = Seq<SpecRef>;

/// The references of a list of (reference, dimension) pairs, in order.
pub open spec fn ref_names(refs: Seq<(SpecRef, Dim)>) -> Seq<SpecRef> {
    refs.map_values(|p: (SpecRef, Dim)| p.0)
}

/// A successful walk asked the resolver about exactly the references it
/// recorded, once each, in the same order.
pub open spec fn asked_post<T>(
    s: Result<(T, Seq<(SpecRef, Dim)>), DiagnosticView>,
    before: RefLog,
    after: RefLog,
) -> bool {
    match s {
        Ok((_, rs)) => after == before + ref_names(rs),
        Err(_) => true,
    }
}

proof fn lemma_names_concat(log: RefLog, a: Seq<(SpecRef, Dim)>, b: Seq<(SpecRef, Dim)>)
    ensures
        log + ref_names(a) + ref_names(b) == log + ref_names(a + b),
{
    assert(ref_names(a + b) =~= ref_names(a) + ref_names(b));
    assert(log + ref_names(a) + ref_names(b) =~= log + ref_names(a + b));
}

pub open spec fn view_dim_result(r: Result<Dim, Diagnostic>) -> Result<Dim, DiagnosticView> {
    match r {
        Ok(d) => Ok(d),
        Err(e) => Err(e@),
    }
}

#[derive(Debug, PartialEq)]
pub enum TExpr {
    Literal(Number, Dim),
    Reference(Ref, Dim),
    Negate(Dim, Box<TExpr>),
    Binary(BinOp, Dim, Box<TExpr>, Box<TExpr>),
    Compare(CmpOp, Box<TExpr>, Box<TExpr>),
    Call(Function, Dim, Vec<TExpr>),
}

pub enum SpecTExpr {
    Literal(SpecNumber, Dim),
    Reference(SpecRef, Dim),
    Negate(Dim, Box<SpecTExpr>),
    Binary(BinOp, Dim, Box<SpecTExpr>, Box<SpecTExpr>),
    Compare(CmpOp, Box<SpecTExpr>, Box<SpecTExpr>),
    Call(Function, Dim, Seq<SpecTExpr>),
}

pub open spec fn view_texpr(e: TExpr) -> SpecTExpr
    decreases e,
{
    match e {
        TExpr::Literal(n, d) => SpecTExpr::Literal(n@, d),
        TExpr::Reference(r, d) => SpecTExpr::Reference(r@, d),
        TExpr::Negate(d, inner) => SpecTExpr::Negate(d, Box::new(view_texpr(*inner))),
        TExpr::Binary(op, d, l, r) => SpecTExpr::Binary(
            op,
            d,
            Box::new(view_texpr(*l)),
            Box::new(view_texpr(*r)),
        ),
        TExpr::Compare(op, l, r) => SpecTExpr::Compare(
            op,
            Box::new(view_texpr(*l)),
            Box::new(view_texpr(*r)),
        ),
        TExpr::Call(f, d, args) => SpecTExpr::Call(f, d, view_texprs(args@)),
    }
}

pub open spec fn view_texprs(args: Seq<TExpr>) -> Seq<SpecTExpr>
    decreases args,
{
    if args.len() == 0 {
        Seq::empty()
    } else {
        view_texprs(args.drop_last()).push(view_texpr(args.last()))
    }
}

impl View for TExpr {
    type V = SpecTExpr;

    open spec fn view(&self) -> SpecTExpr {
        view_texpr(*self)
    }
}

pub open spec fn texpr_dim(e: SpecTExpr) -> Dim {
    match e {
        SpecTExpr::Literal(_, d) => d,
        SpecTExpr::Reference(_, d) => d,
        SpecTExpr::Negate(d, _) => d,
        SpecTExpr::Binary(_, d, _, _) => d,
        SpecTExpr::Call(_, d, _) => d,
        SpecTExpr::Compare(..) => Dim::Bool,
    }
}

impl TExpr {
    pub fn dim(&self) -> (r: Dim)
        ensures
            r == texpr_dim(self@),
    {
        match self {
            TExpr::Literal(_, dim) => *dim,
            TExpr::Reference(_, dim) => *dim,
            TExpr::Negate(dim, _) => *dim,
            TExpr::Binary(_, dim, _, _) => *dim,
            TExpr::Call(_, dim, _) => *dim,
            TExpr::Compare(..) => Dim::Bool,
        }
    }
}

#[derive(Debug, PartialEq)]
pub struct Checked {
    pub expr: TExpr,
    /// The dimension the whole expression evaluates to; `Dim::Any` at the root
    /// binds to the field's expected dimension before this is reported.
    pub dim: Dim,
    /// Every reference used, with the dimension it was checked at. Duplicates
    /// are preserved; order follows the source.
    pub references: Vec<(Ref, Dim)>,
}

pub struct SpecChecked {
    pub expr: SpecTExpr,
    pub dim: Dim,
    pub references: Seq<(SpecRef, Dim)>,
}

pub open spec fn view_refs(v: Seq<(Ref, Dim)>) -> Seq<(SpecRef, Dim)> {
    v.map_values(|p: (Ref, Dim)| (p.0@, p.1))
}

impl View for Checked {
    type V = SpecChecked;

    open spec fn view(&self) -> SpecChecked {
        SpecChecked { expr: self.expr@, dim: self.dim, references: view_refs(self.references@) }
    }
}

// ---------------------------------------------------------------------------
// Rules
pub open spec fn mismatch_spec(operation: Seq<char>, got: Dim, expected: Dim) -> DiagnosticView {
    error_view(
        Code::DimensionMismatch,
        "cannot "@ + operation + " "@ + got.describe_spec() + " and "@ + expected.describe_spec(),
    )
}

pub open spec fn range_error() -> DiagnosticView {
    error_view(Code::DimensionMismatch, "dimension exponents leave the supported range"@)
}

pub open spec fn numeric_spec(expected: Dim) -> Result<Dim, DiagnosticView> {
    match expected {
        Dim::Bool => Err(
            error_view(
                Code::DimensionMismatch,
                "a boolean cannot be used where a numeric value is required"@,
            ),
        ),
        other => Ok(other),
    }
}

/// Dimension of a product; `None` when a side is boolean. Exponents are
/// exact integers here.
pub open spec fn product_dim_spec(lhs: Dim, rhs: Dim) -> Option<Dim> {
    match (lhs, rhs) {
        (Dim::Bool, _) => None,
        (_, Dim::Bool) => None,
        (Dim::Any, other) => Some(other),
        (other, Dim::Any) => Some(other),
        (Dim::Of(a), Dim::Of(b)) => Some(Dim::Of(a.spec_mul(b))),
    }
}

pub open spec fn quotient_dim_spec(lhs: Dim, rhs: Dim) -> Option<Dim> {
    match (lhs, rhs) {
        (Dim::Bool, _) => None,
        (_, Dim::Bool) => None,
        (Dim::Any, Dim::Any) => Some(Dim::Any),
        (Dim::Any, Dim::Of(b)) => Some(Dim::Of(b.spec_invert())),
        (Dim::Of(a), Dim::Any) => Some(Dim::Of(a)),
        (Dim::Of(a), Dim::Of(b)) => Some(Dim::Of(a.spec_div(b))),
    }
}

pub open spec fn product_fits(lhs: Dim, rhs: Dim) -> bool {
    match (lhs, rhs) {
        (Dim::Of(a), Dim::Of(b)) => a.mul_fits(b),
        _ => true,
    }
}

pub open spec fn quotient_fits(lhs: Dim, rhs: Dim) -> bool {
    match (lhs, rhs) {
        (Dim::Any, Dim::Of(b)) => b.length != i32::MIN && b.angle != i32::MIN,
        (Dim::Of(a), Dim::Of(b)) => a.div_fits(b),
        _ => true,
    }
}

/// A canonical non-negative number is an integer exactly when its exponent
/// is not negative.
pub open spec fn is_integral(n: SpecNumber) -> bool {
    n.exponent >= 0
}

pub open spec fn digits_int(d: Seq<u8>) -> nat
    decreases d.len(),
{
    if d.len() == 0 {
        0
    } else {
        digits_int(d.drop_last()) * 10 + d.last() as nat
    }
}

/// Ten to the power `k`.
pub open spec fn pow10(k: nat) -> nat
    decreases k,
{
    if k == 0 {
        1
    } else {
        10 * pow10((k - 1) as nat)
    }
}

/// The integer value `digits * 10^exponent` of an integral number.
pub open spec fn integer_value(n: SpecNumber) -> nat {
    digits_int(n.digits) * pow10(n.exponent as nat)
}

/// `value as i32` for a non-negative value: saturated at `i32::MAX`.
pub open spec fn saturate_i32(v: nat) -> int {
    if v > i32::MAX {
        i32::MAX as int
    } else {
        v as int
    }
}

pub type WalkResult = Result<(SpecTExpr, Seq<(SpecRef, Dim)>), DiagnosticView>;

pub type ArgsResult = Result<(Seq<SpecTExpr>, Seq<(SpecRef, Dim)>), DiagnosticView>;

pub type Resolve = spec_fn(SpecRef) -> Result<Dim, DiagnosticView>;

/// Checking `e` against `expected`: the typed tree and the references used
/// in source order, or the first error.
pub open spec fn walk_spec(e: SpecExpr, expected: Dim, res: Resolve) -> WalkResult
    decreases e, 1nat,
{
    match e {
        SpecExpr::Literal(v) => Ok((SpecTExpr::Literal(v, expected), Seq::empty())),
        SpecExpr::Reference(r) => match res(r) {
            Err(d) => Err(d),
            Ok(dim) => Ok((SpecTExpr::Reference(r, dim), seq![(r, dim)])),
        },
        SpecExpr::Negate(inner) => match numeric_spec(expected) {
            Err(d) => Err(d),
            Ok(ex) => match walk_spec(*inner, ex, res) {
                Err(d) => Err(d),
                Ok((t, refs)) => Ok((SpecTExpr::Negate(texpr_dim(t), Box::new(t)), refs)),
            },
        },
        SpecExpr::Binary(op, l, r) => match op {
            BinOp::Add | BinOp::Sub => {
                let operation = if op == BinOp::Add {
                    "add"@
                } else {
                    "subtract"@
                };
                match numeric_spec(expected) {
                    Err(d) => Err(d),
                    Ok(ex) => match walk_spec(*l, ex, res) {
                        Err(d) => Err(d),
                        Ok((lt, lrefs)) => match walk_spec(*r, ex, res) {
                            Err(d) => Err(d),
                            Ok((rt, rrefs)) => match Dim::unify_spec(texpr_dim(lt), texpr_dim(rt)) {
                                None => Err(mismatch_spec(operation, texpr_dim(lt), texpr_dim(rt))),
                                Some(Dim::Bool) => Err(
                                    error_view(
                                        Code::DimensionMismatch,
                                        "cannot "@ + operation + " boolean values"@,
                                    ),
                                ),
                                Some(u) => Ok(
                                    (
                                        SpecTExpr::Binary(op, u, Box::new(lt), Box::new(rt)),
                                        lrefs + rrefs,
                                    ),
                                ),
                            },
                        },
                    },
                }
            },
            _ => {
                let operation = if op == BinOp::Mul {
                    "multiply"@
                } else {
                    "divide"@
                };
                match walk_spec(*l, Dim::Any, res) {
                    Err(d) => Err(d),
                    Ok((lt, lrefs)) => match walk_spec(*r, Dim::Any, res) {
                        Err(d) => Err(d),
                        Ok((rt, rrefs)) => {
                            let (a, b) = (texpr_dim(lt), texpr_dim(rt));
                            let (dim, fits) = if op == BinOp::Mul {
                                (product_dim_spec(a, b), product_fits(a, b))
                            } else {
                                (quotient_dim_spec(a, b), quotient_fits(a, b))
                            };
                            match dim {
                                None => Err(mismatch_spec(operation, a, b)),
                                Some(d) => if !fits {
                                    Err(range_error())
                                } else {
                                    Ok(
                                        (
                                            SpecTExpr::Binary(op, d, Box::new(lt), Box::new(rt)),
                                            lrefs + rrefs,
                                        ),
                                    )
                                },
                            }
                        },
                    },
                }
            },
        },
        SpecExpr::Compare(op, l, r) => match walk_spec(*l, Dim::Any, res) {
            Err(d) => Err(d),
            Ok((lt, lrefs)) => match walk_spec(*r, Dim::Any, res) {
                Err(d) => Err(d),
                Ok((rt, rrefs)) => match Dim::unify_spec(texpr_dim(lt), texpr_dim(rt)) {
                    None => Err(mismatch_spec("compare"@, texpr_dim(lt), texpr_dim(rt))),
                    Some(Dim::Bool) => Err(
                        error_view(
                            Code::DimensionMismatch,
                            "comparisons cannot be chained or compared"@,
                        ),
                    ),
                    Some(_) => Ok(
                        (SpecTExpr::Compare(op, Box::new(lt), Box::new(rt)), lrefs + rrefs),
                    ),
                },
            },
        },
        SpecExpr::Call(f, args) => call_spec(f, args, expected, res),
    }
}

/// Checks the arguments in order, each against `ex`.
pub open spec fn walk_args_spec(args: Seq<SpecExpr>, ex: Dim, res: Resolve) -> ArgsResult
    decreases args, 0nat,
{
    if args.len() == 0 {
        Ok((Seq::empty(), Seq::empty()))
    } else {
        match walk_args_spec(args.drop_last(), ex, res) {
            Err(d) => Err(d),
            Ok((ts, refs)) => match walk_spec(args.last(), ex, res) {
                Err(d) => Err(d),
                Ok((t, more)) => Ok((ts.push(t), refs + more)),
            },
        }
    }
}

/// Unifies the dimensions of the operands left to right, starting from `Any`.
pub open spec fn unify_fold(what: Seq<char>, dims: Seq<Dim>) -> Result<Dim, DiagnosticView>
    decreases dims.len(),
{
    if dims.len() == 0 {
        Ok(Dim::Any)
    } else {
        match unify_fold(what, dims.drop_last()) {
            Err(d) => Err(d),
            Ok(u) => match Dim::unify_spec(u, dims.last()) {
                None => Err(mismatch_spec(what, u, dims.last())),
                Some(v) => Ok(v),
            },
        }
    }
}

pub open spec fn unify_all_spec(what: Seq<char>, operands: Seq<SpecTExpr>) -> Result<
    Dim,
    DiagnosticView,
> {
    match unify_fold(what, operands.map_values(|t: SpecTExpr| texpr_dim(t))) {
        Err(d) => Err(d),
        Ok(Dim::Bool) => Err(
            error_view(Code::DimensionMismatch, what + " cannot be boolean"@),
        ),
        Ok(u) => Ok(u),
    }
}

pub open spec fn call_spec(f: Function, args: Seq<SpecExpr>, expected: Dim, res: Resolve) -> WalkResult
    decreases args, 2nat,
{
    match f {
        Function::Min | Function::Max | Function::Abs | Function::Clamp => match numeric_spec(
            expected,
        ) {
            Err(d) => Err(d),
            Ok(ex) => match walk_args_spec(args, ex, res) {
                Err(d) => Err(d),
                Ok((ts, refs)) => match unify_all_spec(f.name_spec() + " arguments"@, ts) {
                    Err(d) => Err(d),
                    Ok(dim) => Ok((SpecTExpr::Call(f, dim, ts), refs)),
                },
            },
        },
        Function::Lerp => if args.len() < 3 {
            Err(error_view(Code::Internal, Seq::empty()))
        } else {
            match numeric_spec(expected) {
                Err(d) => Err(d),
                Ok(ex) => match walk_spec(args[0], ex, res) {
                    Err(d) => Err(d),
                    Ok((a, ra)) => match walk_spec(args[1], ex, res) {
                        Err(d) => Err(d),
                        Ok((b, rb)) => match walk_spec(
                            args[2],
                            Dim::Of(Dimension::ratio()),
                            res,
                        ) {
                            Err(d) => Err(d),
                            Ok((blend, rc)) => match unify_all_spec(
                                "lerp endpoints"@,
                                seq![a, b],
                            ) {
                                Err(d) => Err(d),
                                Ok(u) => if Dim::unify_spec(
                                    texpr_dim(blend),
                                    Dim::Of(Dimension::ratio()),
                                ) is None {
                                    Err(
                                        error_view(
                                            Code::DimensionMismatch,
                                            "lerp blend parameter must be a ratio, got "@
                                                + texpr_dim(blend).describe_spec(),
                                        ),
                                    )
                                } else {
                                    Ok((SpecTExpr::Call(f, u, seq![a, b, blend]), ra + rb + rc))
                                },
                            },
                        },
                    },
                },
            }
        },
        Function::Sqrt => if args.len() < 1 {
            Err(error_view(Code::Internal, Seq::empty()))
        } else {
            match walk_spec(args[0], Dim::Any, res) {
                Err(d) => Err(d),
                Ok((operand, refs)) => {
                    let dim: Result<Dim, DiagnosticView> = match texpr_dim(operand) {
                        Dim::Any => numeric_spec(expected),
                        Dim::Bool => Err(
                            error_view(Code::DimensionMismatch, "sqrt does not accept a boolean"@),
                        ),
                        Dim::Of(d) => match d.spec_sqrt() {
                            Some(h) => Ok(Dim::Of(h)),
                            None => Err(
                                error_view(
                                    Code::DimensionMismatch,
                                    "sqrt needs even exponents (for example the squared length inside a distance), got "@
                                        + d.describe_spec(),
                                ),
                            ),
                        },
                    };
                    match dim {
                        Err(d) => Err(d),
                        Ok(dim) => Ok((SpecTExpr::Call(f, dim, seq![operand]), refs)),
                    }
                },
            }
        },
        Function::Pow => if args.len() < 2 {
            Err(error_view(Code::Internal, Seq::empty()))
        } else {
            match walk_spec(args[0], Dim::Any, res) {
                Err(d) => Err(d),
                Ok((base, refs)) => match args[1] {
                    SpecExpr::Literal(n) => if !is_integral(n) {
                        Err(
                            error_view(
                                Code::DimensionMismatch,
                                "pow exponent must be an integer, got "@ + number_plain(n),
                            ),
                        )
                    } else {
                        let k = saturate_i32(integer_value(n));
                        match texpr_dim(base) {
                            Dim::Of(d) => if !d.pow_fits(k) {
                                Err(range_error())
                            } else {
                                Ok(
                                    (
                                        SpecTExpr::Call(
                                            f,
                                            Dim::Of(d.spec_pow(k)),
                                            seq![base, SpecTExpr::Literal(n, Dim::Any)],
                                        ),
                                        refs,
                                    ),
                                )
                            },
                            other => Ok(
                                (
                                    SpecTExpr::Call(
                                        f,
                                        other,
                                        seq![base, SpecTExpr::Literal(n, Dim::Any)],
                                    ),
                                    refs,
                                ),
                            ),
                        }
                    },
                    _ => Err(
                        error_view(
                            Code::DimensionMismatch,
                            "pow exponent must be a literal integer"@,
                        ),
                    ),
                },
            }
        },
        Function::Sin | Function::Cos | Function::Tan => if args.len() < 1 {
            Err(error_view(Code::Internal, Seq::empty()))
        } else {
            match walk_spec(args[0], Dim::Of(Dimension::angle()), res) {
                Err(d) => Err(d),
                Ok((operand, refs)) => if Dim::unify_spec(
                    texpr_dim(operand),
                    Dim::Of(Dimension::angle()),
                ) is None {
                    Err(
                        error_view(
                            Code::DimensionMismatch,
                            f.name_spec() + " expects an angle, got "@ + texpr_dim(
                                operand,
                            ).describe_spec(),
                        ),
                    )
                } else {
                    Ok((SpecTExpr::Call(f, Dim::Of(Dimension::ratio()), seq![operand]), refs))
                },
            }
        },
    }
}

/// The whole check: the walk, then the field's expected dimension as the
/// final authority.
pub open spec fn check_spec(e: SpecExpr, expected: Dim, res: Resolve) -> Result<
    SpecChecked,
    DiagnosticView,
> {
    match walk_spec(e, expected, res) {
        Err(d) => Err(d),
        Ok((t, refs)) => {
            let dim = match texpr_dim(t) {
                Dim::Any => expected,
                other => other,
            };
            let compatible = match (expected, dim) {
                (Dim::Any, _) => true,
                (_, Dim::Any) => true,
                (Dim::Bool, Dim::Bool) => true,
                (Dim::Of(a), Dim::Of(b)) => a == b,
                _ => false,
            };
            if !compatible {
                Err(
                    error_view(
                        Code::DimensionMismatch,
                        "expression result is "@ + dim.describe_spec()
                            + ", but this field requires "@ + expected.describe_spec(),
                    ),
                )
            } else {
                Ok(SpecChecked { expr: t, dim, references: refs })
            }
        },
    }
}

} // verus!

verus! {

broadcast use vstd::std_specs::vec::axiom_vec_index_decreases;

pub open spec fn view_checked_result(r: Result<Checked, Diagnostic>) -> Result<
    SpecChecked,
    DiagnosticView,
> {
    match r {
        Ok(c) => Ok(c@),
        Err(d) => Err(d@),
    }
}

/// The resolver's answers, as a function.
pub open spec fn answers<R: RefResolver>(resolver: R) -> Resolve {
    |x: SpecRef| resolver.resolves(x)
}

fn mismatch(operation: &str, got: Dim, expected: Dim) -> (r: Diagnostic)
    ensures
        r@ == mismatch_spec(operation@, got, expected),
{
    let mut message = String::from_str("cannot ");
    message.append(operation);
    message.append(" ");
    let g = got.describe();
    message.append(g.as_str());
    message.append(" and ");
    let e = expected.describe();
    message.append(e.as_str());
    Diagnostic::error(Code::DimensionMismatch, message)
}

fn mismatch_error(message: &str) -> (r: Diagnostic)
    ensures
        r@ == error_view(Code::DimensionMismatch, message@),
{
    Diagnostic::error(Code::DimensionMismatch, String::from_str(message))
}

fn numeric(expected: Dim) -> (r: Result<Dim, Diagnostic>)
    ensures
        view_dim_result(r) == numeric_spec(expected),
{
    match expected {
        Dim::Bool => Err(mismatch_error("a boolean cannot be used where a numeric value is required")),
        other => Ok(other),
    }
}

/// The product rule: `None` propagates as a mismatch, an exponent that
/// leaves the `i32` range as a range error.
fn product_dim(a: Dim, b: Dim) -> (r: Result<Dim, Diagnostic>)
    ensures
        view_dim_result(r) == (match product_dim_spec(a, b) {
            None => Err(mismatch_spec("multiply"@, a, b)),
            Some(d) => if !product_fits(a, b) {
                Err(range_error())
            } else {
                Ok(d)
            },
        }),
{
    match (a, b) {
        (Dim::Bool, _) | (_, Dim::Bool) => Err(mismatch("multiply", a, b)),
        (Dim::Any, other) => Ok(other),
        (other, Dim::Any) => Ok(other),
        (Dim::Of(x), Dim::Of(y)) => {
            let sl = x.length as i64 + y.length as i64;
            let sa = x.angle as i64 + y.angle as i64;
            if sl < i32::MIN as i64 || sl > i32::MAX as i64 || sa < i32::MIN as i64 || sa
                > i32::MAX as i64 {
                return Err(mismatch_error("dimension exponents leave the supported range"));
            }
            Ok(Dim::Of(x.mul(y)))
        },
    }
}

fn quotient_dim(a: Dim, b: Dim) -> (r: Result<Dim, Diagnostic>)
    ensures
        view_dim_result(r) == (match quotient_dim_spec(a, b) {
            None => Err(mismatch_spec("divide"@, a, b)),
            Some(d) => if !quotient_fits(a, b) {
                Err(range_error())
            } else {
                Ok(d)
            },
        }),
{
    match (a, b) {
        (Dim::Bool, _) | (_, Dim::Bool) => Err(mismatch("divide", a, b)),
        (Dim::Any, Dim::Any) => Ok(Dim::Any),
        (Dim::Any, Dim::Of(y)) => {
            if y.length == i32::MIN || y.angle == i32::MIN {
                return Err(mismatch_error("dimension exponents leave the supported range"));
            }
            Ok(Dim::Of(y.invert()))
        },
        (Dim::Of(x), Dim::Any) => Ok(Dim::Of(x)),
        (Dim::Of(x), Dim::Of(y)) => {
            let sl = x.length as i64 - y.length as i64;
            let sa = x.angle as i64 - y.angle as i64;
            if sl < i32::MIN as i64 || sl > i32::MAX as i64 || sa < i32::MIN as i64 || sa
                > i32::MAX as i64 {
                return Err(mismatch_error("dimension exponents leave the supported range"));
            }
            Ok(Dim::Of(x.div(y)))
        },
    }
}

proof fn lemma_pow10_adds(a: nat, b: nat)
    ensures
        pow10(a + b) == pow10(a) * pow10(b),
    decreases a,
{
    if a > 0 {
        lemma_pow10_adds((a - 1) as nat, b);
        assert(pow10(a + b) == 10 * pow10((a - 1 + b) as nat));
        assert(pow10(a) * pow10(b) == 10 * (pow10((a - 1) as nat) * pow10(b))) by (nonlinear_arith)
            requires
                pow10(a) == 10 * pow10((a - 1) as nat),
        ;
    } else {
        assert(pow10(0) == 1);
        assert(a + b == b);
    }
}

proof fn lemma_pow10_positive(k: nat)
    ensures
        pow10(k) >= 1,
    decreases k,
{
    if k > 0 {
        lemma_pow10_positive((k - 1) as nat);
        assert(pow10(k) == 10 * pow10((k - 1) as nat));
    }
}

proof fn lemma_sat_mul(x: int, m: int, cap: int)
    requires
        x >= 0,
        m >= 1,
        cap > 0,
    ensures
        x >= cap ==> x * m >= cap,
        x * m >= x,
{
    assert(x * m >= x) by (nonlinear_arith)
        requires
            x >= 0,
            m >= 1,
    ;
}

/// `value as i32` for the integral literal `n`.
fn saturated_integer(n: &Number) -> (r: i32)
    requires
        n.wf(),
        n@.exponent >= 0,
    ensures
        r == saturate_i32(integer_value(n@)),
{
    let cap: u64 = 2147483648u64;
    let mut v: u64 = 0;
    let mut i: usize = 0;
    let ghost d = n.digits@;
    while i < n.digits.len()
        invariant
            d == n.digits@,
            i <= d.len(),
            forall|k: int| 0 <= k < d.len() ==> #[trigger] d[k] < 10,
            cap == 2147483648u64,
            v == if digits_int(d.subrange(0, i as int)) > cap {
                cap as int
            } else {
                digits_int(d.subrange(0, i as int)) as int
            },
        decreases d.len() - i,
    {
        let digit = n.digits[i] as u64;
        let ghost prev = d.subrange(0, i as int);
        let ghost old_v = v;
        v = if v > (cap - digit) / 10 {
            cap
        } else {
            v * 10 + digit
        };
        i = i + 1;
        proof {
            let next = d.subrange(0, i as int);
            assert(next.drop_last() =~= prev);
            assert(digits_int(next) == digits_int(prev) * 10 + digit);
            let p = digits_int(prev) as int;
            let c = cap as int;
            if p > c {
                assert(p * 10 + digit > c) by (nonlinear_arith)
                    requires
                        p > c,
                        digit >= 0,
                        c > 0,
                ;
            } else if old_v > (c - digit) / 10 {
                assert(p * 10 + digit > c) by (nonlinear_arith)
                    requires
                        p > (c - digit) / 10,
                        0 <= digit <= 9,
                        c > 9,
                ;
            } else {
                assert(p * 10 + digit <= c) by (nonlinear_arith)
                    requires
                        p <= (c - digit) / 10,
                        0 <= digit <= 9,
                        c > 9,
                ;
            }
        }
    }
    assert(d.subrange(0, d.len() as int) =~= d);
    let e = n.exponent as u64;
    let mut k: u64 = 0;
    let ghost big = digits_int(d) as int;
    while k < e && v < cap
        invariant
            cap == 2147483648u64,
            k <= e,
            e == n@.exponent,
            big == digits_int(d),
            v == if big * pow10(k as nat) > cap {
                cap as int
            } else {
                big * pow10(k as nat)
            },
        decreases e - k,
    {
        let ghost old_v = v;
        let ghost pk = pow10(k as nat);
        v = if v > cap / 10 {
            cap
        } else {
            v * 10
        };
        k = k + 1;
        proof {
            let pk1 = pow10(k as nat);
            assert(pk1 == 10 * pk);
            lemma_pow10_positive((k - 1) as nat);
            assert(big >= 0);
            let c = cap as int;
            assert(big * pk1 == (big * pk) * 10) by (nonlinear_arith)
                requires
                    pk1 == 10 * pk,
            ;
            assert(big * pk >= 0) by (nonlinear_arith)
                requires
                    big >= 0,
                    pk >= 1,
            ;
        }
    }
    proof {
        let c = cap as int;
        let total = integer_value(n@) as int;
        let pk = pow10(k as nat);
        let pe = pow10(e as nat);
        assert(total == big * pe);
        lemma_pow10_positive(k as nat);
        lemma_pow10_positive(e as nat);
        if k < e {
            // Saturated early: the remaining factor only grows the value.
            assert(v == cap);
            lemma_pow10_adds(k as nat, (e - k) as nat);
            lemma_pow10_positive((e - k) as nat);
            let rest = pow10((e - k) as nat);
            assert(big * pk >= c);
            assert(big >= 0);
            assert(big * pe == (big * pk) * rest) by (nonlinear_arith)
                requires
                    pe == pk * rest,
            ;
            lemma_sat_mul(big * pk, rest as int, c);
        }
    }
    if v > 2147483647u64 {
        2147483647i32
    } else {
        v as i32
    }
}

} // verus!

verus! {

pub open spec fn walk_post(
    s: WalkResult,
    r: Result<TExpr, Diagnostic>,
    before: Seq<(Ref, Dim)>,
    after: Seq<(Ref, Dim)>,
) -> bool {
    match s {
        Ok((t, rs)) => r matches Ok(te) && te@ == t && view_refs(after) == view_refs(before) + rs,
        Err(d) => r matches Err(e) && e@ == d,
    }
}

proof fn lemma_args_err_extends(args: Seq<SpecExpr>, i: int, ex: Dim, res: Resolve)
    requires
        0 <= i <= args.len(),
        walk_args_spec(args.subrange(0, i), ex, res) is Err,
    ensures
        walk_args_spec(args, ex, res) == walk_args_spec(args.subrange(0, i), ex, res),
    decreases args.len() - i,
{
    if i == args.len() {
        assert(args.subrange(0, i) =~= args);
    } else {
        let p = args.drop_last();
        assert(p.subrange(0, i) =~= args.subrange(0, i));
        lemma_args_err_extends(p, i, ex, res);
    }
}

proof fn lemma_fold_err_extends(what: Seq<char>, dims: Seq<Dim>, i: int)
    requires
        0 <= i <= dims.len(),
        unify_fold(what, dims.subrange(0, i)) is Err,
    ensures
        unify_fold(what, dims) == unify_fold(what, dims.subrange(0, i)),
    decreases dims.len() - i,
{
    if i == dims.len() {
        assert(dims.subrange(0, i) =~= dims);
    } else {
        let p = dims.drop_last();
        assert(p.subrange(0, i) =~= dims.subrange(0, i));
        lemma_fold_err_extends(what, p, i);
    }
}

proof fn lemma_view_refs_push(v: Seq<(Ref, Dim)>, x: (Ref, Dim))
    ensures
        view_refs(v.push(x)) == view_refs(v) + seq![(x.0@, x.1)],
{
    assert(view_refs(v.push(x)) =~= view_refs(v) + seq![(x.0@, x.1)]);
}

proof fn lemma_view_texprs(args: Seq<TExpr>)
    ensures
        view_texprs(args).len() == args.len(),
        forall|k: int| 0 <= k < args.len() ==> view_texprs(args)[k] == (#[trigger] args[k])@,
    decreases args.len(),
{
    if args.len() > 0 {
        lemma_view_texprs(args.drop_last());
        assert forall|k: int| 0 <= k < args.len() implies view_texprs(args)[k] == (
        #[trigger] args[k])@ by {
            if k < args.len() - 1 {
                assert(args.drop_last()[k] == args[k]);
            }
        }
    }
}

/// Unifies dimensions left to right; a boolean result is rejected.
fn unify_dims(what: &str, dims: &Vec<Dim>) -> (r: Result<Dim, Diagnostic>)
    ensures
        view_dim_result(r) == (match unify_fold(what@, dims@) {
            Err(d) => Err(d),
            Ok(Dim::Bool) => Err(error_view(Code::DimensionMismatch, what@ + " cannot be boolean"@)),
            Ok(u) => Ok(u),
        }),
{
    let mut unified = Dim::Any;
    let mut i: usize = 0;
    while i < dims.len()
        invariant
            i <= dims@.len(),
            unify_fold(what@, dims@.subrange(0, i as int)) == Ok::<Dim, DiagnosticView>(unified),
        decreases dims@.len() - i,
    {
        let next = dims[i];
        proof {
            let s = dims@.subrange(0, (i + 1) as int);
            assert(s.drop_last() =~= dims@.subrange(0, i as int));
            assert(s.last() == next);
        }
        match Dim::unify(unified, next) {
            Some(u) => {
                unified = u;
            },
            None => {
                proof {
                    lemma_fold_err_extends(what@, dims@, (i + 1) as int);
                }
                return Err(mismatch(what, unified, next));
            },
        }
        i = i + 1;
    }
    assert(dims@.subrange(0, dims@.len() as int) =~= dims@);
    if unified == Dim::Bool {
        let mut message = String::from_str(what);
        message.append(" cannot be boolean");
        return Err(Diagnostic::error(Code::DimensionMismatch, message));
    }
    Ok(unified)
}

fn walk<R: RefResolver>(
    expr: &Expr,
    expected: Dim,
    resolver: &mut R,
    refs: &mut Vec<(Ref, Dim)>,
    Ghost(res): Ghost<Resolve>,
) -> (r: Result<TExpr, Diagnostic>)
    requires
        calls_ok(expr@),
        crate::ast::expr_wf(expr@),
        forall|x: SpecRef| #[trigger] old(resolver).resolves(x) == res(x),
    ensures
        forall|x: SpecRef| #[trigger] final(resolver).resolves(x) == res(x),
        walk_post(walk_spec(expr@, expected, res), r, old(refs)@, final(refs)@),
        asked_post(walk_spec(expr@, expected, res), old(resolver).asked(), final(resolver).asked()),
    decreases expr, 2nat,
{
    let ghost refs0 = refs@;
    match expr {
        Expr::Literal(value) => {
            assert(view_refs(refs0) + Seq::<(SpecRef, Dim)>::empty() =~= view_refs(refs0));
            assert(old(resolver).asked() + ref_names(Seq::<(SpecRef, Dim)>::empty()) =~= old(resolver).asked());
            Ok(TExpr::Literal(value.duplicate(), expected))
        },
        Expr::Reference(reference) => {
            let found = resolver.dimension_of(reference);
            match found {
                Err(e) => Err(e),
                Ok(dim) => {
                    let entry = (reference.duplicate(), dim);
                    proof {
                        lemma_view_refs_push(refs0, entry);
                        assert(ref_names(seq![(reference@, dim)]) =~= seq![reference@]);
                        assert(old(resolver).asked().push(reference@) =~= old(resolver).asked() + ref_names(
                            seq![(reference@, dim)],
                        ));
                    }
                    refs.push(entry);
                    Ok(TExpr::Reference(reference.duplicate(), dim))
                },
            }
        },
        Expr::Negate(_) => walk_negate(expr, expected, resolver, refs, Ghost(res)),
        Expr::Binary(op, _, _) => {
            if *op == BinOp::Add || *op == BinOp::Sub {
                walk_additive(expr, expected, resolver, refs, Ghost(res))
            } else {
                walk_product(expr, expected, resolver, refs, Ghost(res))
            }
        },
        Expr::Compare(..) => walk_compare(expr, expected, resolver, refs, Ghost(res)),
        Expr::Call(function, args) => {
            proof {
                lemma_view_exprs(args@);
                assert(expr@ == SpecExpr::Call(*function, view_exprs(args@)));
                assert(decreases_to!(*expr => (*expr)->Call_1));
            }
            call(*function, args, expected, resolver, refs, Ghost(res))
        },
    }
}

proof fn lemma_refs_concat(
    refs0: Seq<(Ref, Dim)>,
    mid: Seq<(Ref, Dim)>,
    after: Seq<(Ref, Dim)>,
    a: Seq<(SpecRef, Dim)>,
    b: Seq<(SpecRef, Dim)>,
)
    requires
        view_refs(mid) == view_refs(refs0) + a,
        view_refs(after) == view_refs(mid) + b,
    ensures
        view_refs(after) == view_refs(refs0) + (a + b),
{
    assert(view_refs(after) =~= view_refs(refs0) + (a + b));
}

fn walk_negate<R: RefResolver>(
    expr: &Expr,
    expected: Dim,
    resolver: &mut R,
    refs: &mut Vec<(Ref, Dim)>,
    Ghost(res): Ghost<Resolve>,
) -> (r: Result<TExpr, Diagnostic>)
    requires
        expr is Negate,
        calls_ok(expr@),
        crate::ast::expr_wf(expr@),
        forall|x: SpecRef| #[trigger] old(resolver).resolves(x) == res(x),
    ensures
        forall|x: SpecRef| #[trigger] final(resolver).resolves(x) == res(x),
        walk_post(walk_spec(expr@, expected, res), r, old(refs)@, final(refs)@),
        asked_post(walk_spec(expr@, expected, res), old(resolver).asked(), final(resolver).asked()),
    decreases expr, 1nat,
{
    match expr {
        Expr::Negate(inner) => {
            let ex = numeric(expected)?;
            let t = walk(inner, ex, resolver, refs, Ghost(res))?;
            let d = t.dim();
            Ok(TExpr::Negate(d, Box::new(t)))
        },
        _ => Err(Diagnostic::error(Code::Internal, String::new())),
    }
}

fn walk_additive<R: RefResolver>(
    expr: &Expr,
    expected: Dim,
    resolver: &mut R,
    refs: &mut Vec<(Ref, Dim)>,
    Ghost(res): Ghost<Resolve>,
) -> (r: Result<TExpr, Diagnostic>)
    requires
        expr matches Expr::Binary(op, _, _) && (op == BinOp::Add || op == BinOp::Sub),
        calls_ok(expr@),
        crate::ast::expr_wf(expr@),
        forall|x: SpecRef| #[trigger] old(resolver).resolves(x) == res(x),
    ensures
        forall|x: SpecRef| #[trigger] final(resolver).resolves(x) == res(x),
        walk_post(walk_spec(expr@, expected, res), r, old(refs)@, final(refs)@),
        asked_post(walk_spec(expr@, expected, res), old(resolver).asked(), final(resolver).asked()),
    decreases expr, 1nat,
{
    let ghost asked0 = resolver.asked();
    let ghost refs0 = refs@;
    match expr {
        Expr::Binary(op, lhs, rhs) => {
            let op = *op;
            let operation = if op == BinOp::Add {
                "add"
            } else {
                "subtract"
            };
            let ex = numeric(expected)?;
            let lt = walk(lhs, ex, resolver, refs, Ghost(res))?;
            let ghost mid = refs@;
            let rt = walk(rhs, ex, resolver, refs, Ghost(res))?;
            proof {
                let (_, a) = walk_spec(lhs@, ex, res)->Ok_0;
                let (_, b) = walk_spec(rhs@, ex, res)->Ok_0;
                lemma_refs_concat(refs0, mid, refs@, a, b);
                lemma_names_concat(asked0, a, b);
            }
            let (a, b) = (lt.dim(), rt.dim());
            match Dim::unify(a, b) {
                None => Err(mismatch(operation, a, b)),
                Some(Dim::Bool) => {
                    let mut message = String::from_str("cannot ");
                    message.append(operation);
                    message.append(" boolean values");
                    Err(Diagnostic::error(Code::DimensionMismatch, message))
                },
                Some(u) => Ok(TExpr::Binary(op, u, Box::new(lt), Box::new(rt))),
            }
        },
        _ => Err(Diagnostic::error(Code::Internal, String::new())),
    }
}

fn walk_product<R: RefResolver>(
    expr: &Expr,
    expected: Dim,
    resolver: &mut R,
    refs: &mut Vec<(Ref, Dim)>,
    Ghost(res): Ghost<Resolve>,
) -> (r: Result<TExpr, Diagnostic>)
    requires
        expr matches Expr::Binary(op, _, _) && (op == BinOp::Mul || op == BinOp::Div),
        calls_ok(expr@),
        crate::ast::expr_wf(expr@),
        forall|x: SpecRef| #[trigger] old(resolver).resolves(x) == res(x),
    ensures
        forall|x: SpecRef| #[trigger] final(resolver).resolves(x) == res(x),
        walk_post(walk_spec(expr@, expected, res), r, old(refs)@, final(refs)@),
        asked_post(walk_spec(expr@, expected, res), old(resolver).asked(), final(resolver).asked()),
    decreases expr, 1nat,
{
    let ghost asked0 = resolver.asked();
    let ghost refs0 = refs@;
    match expr {
        Expr::Binary(op, lhs, rhs) => {
            let op = *op;
            let lt = walk(lhs, Dim::Any, resolver, refs, Ghost(res))?;
            let ghost mid = refs@;
            let rt = walk(rhs, Dim::Any, resolver, refs, Ghost(res))?;
            proof {
                let (_, a) = walk_spec(lhs@, Dim::Any, res)->Ok_0;
                let (_, b) = walk_spec(rhs@, Dim::Any, res)->Ok_0;
                lemma_refs_concat(refs0, mid, refs@, a, b);
                lemma_names_concat(asked0, a, b);
            }
            let (a, b) = (lt.dim(), rt.dim());
            let d = if op == BinOp::Mul {
                product_dim(a, b)?
            } else {
                quotient_dim(a, b)?
            };
            Ok(TExpr::Binary(op, d, Box::new(lt), Box::new(rt)))
        },
        _ => Err(Diagnostic::error(Code::Internal, String::new())),
    }
}

fn walk_compare<R: RefResolver>(
    expr: &Expr,
    expected: Dim,
    resolver: &mut R,
    refs: &mut Vec<(Ref, Dim)>,
    Ghost(res): Ghost<Resolve>,
) -> (r: Result<TExpr, Diagnostic>)
    requires
        expr is Compare,
        calls_ok(expr@),
        crate::ast::expr_wf(expr@),
        forall|x: SpecRef| #[trigger] old(resolver).resolves(x) == res(x),
    ensures
        forall|x: SpecRef| #[trigger] final(resolver).resolves(x) == res(x),
        walk_post(walk_spec(expr@, expected, res), r, old(refs)@, final(refs)@),
        asked_post(walk_spec(expr@, expected, res), old(resolver).asked(), final(resolver).asked()),
    decreases expr, 1nat,
{
    let ghost asked0 = resolver.asked();
    let ghost refs0 = refs@;
    match expr {
        Expr::Compare(op, lhs, rhs) => {
            let lt = walk(lhs, Dim::Any, resolver, refs, Ghost(res))?;
            let ghost mid = refs@;
            let rt = walk(rhs, Dim::Any, resolver, refs, Ghost(res))?;
            proof {
                let (_, a) = walk_spec(lhs@, Dim::Any, res)->Ok_0;
                let (_, b) = walk_spec(rhs@, Dim::Any, res)->Ok_0;
                lemma_refs_concat(refs0, mid, refs@, a, b);
                lemma_names_concat(asked0, a, b);
            }
            let (a, b) = (lt.dim(), rt.dim());
            match Dim::unify(a, b) {
                None => Err(mismatch("compare", a, b)),
                Some(Dim::Bool) => Err(mismatch_error("comparisons cannot be chained or compared")),
                Some(_) => Ok(TExpr::Compare(*op, Box::new(lt), Box::new(rt))),
            }
        },
        _ => Err(Diagnostic::error(Code::Internal, String::new())),
    }
}

fn call<R: RefResolver>(
    function: Function,
    args: &Vec<Expr>,
    expected: Dim,
    resolver: &mut R,
    refs: &mut Vec<(Ref, Dim)>,
    Ghost(res): Ghost<Resolve>,
) -> (r: Result<TExpr, Diagnostic>)
    requires
        args@.len() >= min_args(function),
        calls_ok_all(view_exprs(args@)),
        crate::ast::exprs_wf(view_exprs(args@)),
        forall|x: SpecRef| #[trigger] old(resolver).resolves(x) == res(x),
    ensures
        forall|x: SpecRef| #[trigger] final(resolver).resolves(x) == res(x),
        walk_post(call_spec(function, view_exprs(args@), expected, res), r, old(refs)@, final(refs)@),
        asked_post(call_spec(function, view_exprs(args@), expected, res), old(resolver).asked(), final(resolver).asked()),
    decreases args, 2nat,
{
    proof {
        lemma_view_exprs(args@);
        lemma_calls_ok_all(view_exprs(args@));
        crate::ast::lemma_exprs_wf(view_exprs(args@));
    }
    match function {
        Function::Min | Function::Max | Function::Abs | Function::Clamp => call_fold(
            function,
            args,
            expected,
            resolver,
            refs,
            Ghost(res),
        ),
        Function::Lerp => call_lerp(function, args, expected, resolver, refs, Ghost(res)),
        Function::Sqrt => call_sqrt(function, args, expected, resolver, refs, Ghost(res)),
        Function::Pow => call_pow(function, args, expected, resolver, refs, Ghost(res)),
        Function::Sin | Function::Cos | Function::Tan => call_trig(
            function,
            args,
            expected,
            resolver,
            refs,
            Ghost(res),
        ),
    }
}

pub open spec fn call_pre<R: RefResolver>(
    args: &Vec<Expr>,
    function: Function,
    resolver: R,
    res: Resolve,
) -> bool {
    &&& args@.len() >= min_args(function)
    &&& view_exprs(args@).len() == args@.len()
    &&& forall|k: int| 0 <= k < args@.len() ==> view_exprs(args@)[k] == (#[trigger] args@[k])@
    &&& forall|k: int| 0 <= k < args@.len() ==> calls_ok(#[trigger] view_exprs(args@)[k])
    &&& forall|k: int| 0 <= k < args@.len() ==> crate::ast::expr_wf(#[trigger] view_exprs(args@)[k])
    &&& forall|x: SpecRef| #[trigger] resolver.resolves(x) == res(x)
}

/// The dimension of each typed argument, in order.
fn dims_of(checked: &Vec<TExpr>) -> (dims: Vec<Dim>)
    ensures
        dims@ =~= view_texprs(checked@).map_values(|t: SpecTExpr| texpr_dim(t)),
{
    let mut dims: Vec<Dim> = Vec::new();
    let mut k: usize = 0;
    proof {
        lemma_view_texprs(checked@);
    }
    while k < checked.len()
        invariant
            k <= checked@.len(),
            dims@ =~= view_texprs(checked@).subrange(0, k as int).map_values(
                |t: SpecTExpr| texpr_dim(t),
            ),
            view_texprs(checked@).len() == checked@.len(),
            forall|j: int|
                0 <= j < checked@.len() ==> view_texprs(checked@)[j] == (#[trigger] checked@[j])@,
        decreases checked@.len() - k,
    {
        let d = checked[k].dim();
        dims.push(d);
        k = k + 1;
        assert(dims@ =~= view_texprs(checked@).subrange(0, k as int).map_values(
            |t: SpecTExpr| texpr_dim(t),
        ));
    }
    assert(view_texprs(checked@).subrange(0, checked@.len() as int) =~= view_texprs(checked@));
    dims
}

#[verifier::rlimit(60)]
#[verifier::spinoff_prover]
fn call_fold<R: RefResolver>(
    function: Function,
    args: &Vec<Expr>,
    expected: Dim,
    resolver: &mut R,
    refs: &mut Vec<(Ref, Dim)>,
    Ghost(res): Ghost<Resolve>,
) -> (r: Result<TExpr, Diagnostic>)
    requires
        function == Function::Min || function == Function::Max || function == Function::Abs
            || function == Function::Clamp,
        call_pre(args, function, *old(resolver), res),
    ensures
        forall|x: SpecRef| #[trigger] final(resolver).resolves(x) == res(x),
        walk_post(call_spec(function, view_exprs(args@), expected, res), r, old(refs)@, final(refs)@),
        asked_post(call_spec(function, view_exprs(args@), expected, res), old(resolver).asked(), final(resolver).asked()),
    decreases args, 1nat,
{
    let ghost asked0 = resolver.asked();
    let ghost refs0 = refs@;
    let ghost vargs = view_exprs(args@);
    let ex = numeric(expected)?;
    let mut checked: Vec<TExpr> = Vec::new();
    let mut i: usize = 0;
    assert(vargs.subrange(0, 0) =~= Seq::<SpecExpr>::empty());
    assert(view_refs(refs0) + Seq::<(SpecRef, Dim)>::empty() =~= view_refs(refs0));
    assert(asked0 + ref_names(Seq::<(SpecRef, Dim)>::empty()) =~= asked0);
    while i < args.len()
        invariant
            i <= args@.len(),
            vargs == view_exprs(args@),
            function == Function::Min || function == Function::Max || function == Function::Abs
                || function == Function::Clamp,
            numeric_spec(expected) == Ok::<Dim, DiagnosticView>(ex),
            call_pre(args, function, *resolver, res),
            walk_args_spec(vargs.subrange(0, i as int), ex, res) matches Ok((ts, rs)) && ts
                == view_texprs(checked@) && view_refs(refs@) == view_refs(refs0) + rs
                && resolver.asked() == asked0 + ref_names(rs),
        decreases args@.len() - i,
    {
        proof {
            assert(decreases_to!(*args => args[i as int]));
        }
        let ghost before = refs@;
        let ghost prev = vargs.subrange(0, i as int);
        let ghost acc = walk_args_spec(prev, ex, res);
        let step = walk(&args[i], ex, resolver, refs, Ghost(res));
        proof {
            let s = vargs.subrange(0, (i + 1) as int);
            assert(s.drop_last() =~= prev);
            assert(s.last() == vargs[i as int]);
        }
        match step {
            Err(e) => {
                proof {
                    let s = vargs.subrange(0, (i + 1) as int);
                    assert(walk_spec(vargs[i as int], ex, res) == Err::<
                        (SpecTExpr, Seq<(SpecRef, Dim)>),
                        DiagnosticView,
                    >(e@));
                    assert(walk_args_spec(s, ex, res) == Err::<
                        (Seq<SpecTExpr>, Seq<(SpecRef, Dim)>),
                        DiagnosticView,
                    >(e@));
                    lemma_args_err_extends(vargs, (i + 1) as int, ex, res);
                    assert(walk_args_spec(vargs, ex, res) == Err::<
                        (Seq<SpecTExpr>, Seq<(SpecRef, Dim)>),
                        DiagnosticView,
                    >(e@));
                    assert(call_spec(function, vargs, expected, res) == Err::<
                        (SpecTExpr, Seq<(SpecRef, Dim)>),
                        DiagnosticView,
                    >(e@));
                }
                return Err(e);
            },
            Ok(t) => {
                let ghost ck = checked@;
                checked.push(t);
                proof {
                    assert(checked@.drop_last() =~= ck);
                    let (ts, rs) = acc->Ok_0;
                    let (_, more) = walk_spec(vargs[i as int], ex, res)->Ok_0;
                    lemma_refs_concat(refs0, before, refs@, rs, more);
                    lemma_names_concat(asked0, rs, more);
                }
            },
        }
        i = i + 1;
    }
    assert(vargs.subrange(0, args@.len() as int) =~= vargs);
    let dims = dims_of(&checked);
    let mut what = String::from_str(function.name());
    what.append(" arguments");
    let dim = unify_dims(what.as_str(), &dims)?;
    Ok(TExpr::Call(function, dim, checked))
}

#[verifier::rlimit(50)]
#[verifier::spinoff_prover]
fn call_lerp<R: RefResolver>(
    function: Function,
    args: &Vec<Expr>,
    expected: Dim,
    resolver: &mut R,
    refs: &mut Vec<(Ref, Dim)>,
    Ghost(res): Ghost<Resolve>,
) -> (r: Result<TExpr, Diagnostic>)
    requires
        function == Function::Lerp,
        call_pre(args, function, *old(resolver), res),
    ensures
        forall|x: SpecRef| #[trigger] final(resolver).resolves(x) == res(x),
        walk_post(call_spec(function, view_exprs(args@), expected, res), r, old(refs)@, final(refs)@),
        asked_post(call_spec(function, view_exprs(args@), expected, res), old(resolver).asked(), final(resolver).asked()),
    decreases args, 1nat,
{
    let ghost asked0 = resolver.asked();
    let ghost refs0 = refs@;
    let ex = numeric(expected)?;
    proof {
        assert(decreases_to!(*args => args[0]));
        assert(decreases_to!(*args => args[1]));
        assert(decreases_to!(*args => args[2]));
    }
    let a = walk(&args[0], ex, resolver, refs, Ghost(res))?;
    let ghost m1 = refs@;
    let b = walk(&args[1], ex, resolver, refs, Ghost(res))?;
    let ghost m2 = refs@;
    let blend = walk(&args[2], Dim::Of(Dimension::ratio()), resolver, refs, Ghost(res))?;
    proof {
        let (_, ra) = walk_spec(args@[0]@, ex, res)->Ok_0;
        let (_, rb) = walk_spec(args@[1]@, ex, res)->Ok_0;
        let (_, rc) = walk_spec(args@[2]@, Dim::Of(Dimension::ratio()), res)->Ok_0;
        lemma_refs_concat(refs0, m1, m2, ra, rb);
        lemma_refs_concat(refs0, m2, refs@, ra + rb, rc);
        lemma_names_concat(asked0, ra, rb);
        lemma_names_concat(asked0, ra + rb, rc);
    }
    let mut dims: Vec<Dim> = Vec::new();
    dims.push(a.dim());
    dims.push(b.dim());
    proof {
        assert(dims@ =~= seq![a@, b@].map_values(|t: SpecTExpr| texpr_dim(t)));
    }
    let unified = unify_dims("lerp endpoints", &dims)?;
    let blend_dim = blend.dim();
    if Dim::unify(blend_dim, Dim::Of(Dimension::ratio())).is_none() {
        let mut message = String::from_str("lerp blend parameter must be a ratio, got ");
        let shown = blend_dim.describe();
        message.append(shown.as_str());
        return Err(Diagnostic::error(Code::DimensionMismatch, message));
    }
    let mut items: Vec<TExpr> = Vec::new();
    items.push(a);
    items.push(b);
    items.push(blend);
    proof {
        lemma_view_texprs(items@);
        assert(view_texprs(items@) =~= seq![items@[0]@, items@[1]@, items@[2]@]);
    }
    Ok(TExpr::Call(function, unified, items))
}

fn call_sqrt<R: RefResolver>(
    function: Function,
    args: &Vec<Expr>,
    expected: Dim,
    resolver: &mut R,
    refs: &mut Vec<(Ref, Dim)>,
    Ghost(res): Ghost<Resolve>,
) -> (r: Result<TExpr, Diagnostic>)
    requires
        function == Function::Sqrt,
        call_pre(args, function, *old(resolver), res),
    ensures
        forall|x: SpecRef| #[trigger] final(resolver).resolves(x) == res(x),
        walk_post(call_spec(function, view_exprs(args@), expected, res), r, old(refs)@, final(refs)@),
        asked_post(call_spec(function, view_exprs(args@), expected, res), old(resolver).asked(), final(resolver).asked()),
    decreases args, 1nat,
{
    proof {
        assert(decreases_to!(*args => args[0]));
    }
    let operand = walk(&args[0], Dim::Any, resolver, refs, Ghost(res))?;
    let dim = match operand.dim() {
        Dim::Any => numeric(expected)?,
        Dim::Bool => {
            return Err(mismatch_error("sqrt does not accept a boolean"));
        },
        Dim::Of(dimension) => match dimension.sqrt() {
            Some(h) => Dim::Of(h),
            None => {
                let mut message = String::from_str(
                    "sqrt needs even exponents (for example the squared length inside a distance), got ",
                );
                let shown = dimension.describe();
                message.append(shown.as_str());
                return Err(Diagnostic::error(Code::DimensionMismatch, message));
            },
        },
    };
    let mut items: Vec<TExpr> = Vec::new();
    items.push(operand);
    proof {
        lemma_view_texprs(items@);
        assert(view_texprs(items@) =~= seq![items@[0]@]);
    }
    Ok(TExpr::Call(function, dim, items))
}

proof fn lemma_i32_product(a: int, b: int)
    requires
        i32::MIN <= a <= i32::MAX,
        i32::MIN <= b <= i32::MAX,
    ensures
        i64::MIN <= a * b <= i64::MAX,
{
    assert(-0x8000_0000_0000_0000 <= a * b <= 0x4000_0000_0000_0000) by (nonlinear_arith)
        requires
            -0x8000_0000 <= a <= 0x7fff_ffff,
            -0x8000_0000 <= b <= 0x7fff_ffff,
    ;
}

#[verifier::rlimit(60)]
#[verifier::spinoff_prover]
fn call_pow<R: RefResolver>(
    function: Function,
    args: &Vec<Expr>,
    expected: Dim,
    resolver: &mut R,
    refs: &mut Vec<(Ref, Dim)>,
    Ghost(res): Ghost<Resolve>,
) -> (r: Result<TExpr, Diagnostic>)
    requires
        function == Function::Pow,
        call_pre(args, function, *old(resolver), res),
    ensures
        forall|x: SpecRef| #[trigger] final(resolver).resolves(x) == res(x),
        walk_post(call_spec(function, view_exprs(args@), expected, res), r, old(refs)@, final(refs)@),
        asked_post(call_spec(function, view_exprs(args@), expected, res), old(resolver).asked(), final(resolver).asked()),
    decreases args, 1nat,
{
    proof {
        assert(decreases_to!(*args => args[0]));
    }
    let base = walk(&args[0], Dim::Any, resolver, refs, Ghost(res))?;
    let exponent = match &args[1] {
        Expr::Literal(n) => n,
        _ => {
            return Err(mismatch_error("pow exponent must be a literal integer"));
        },
    };
    if exponent.exponent < 0 {
        let mut message = String::from_str("pow exponent must be an integer, got ");
        let shown = exponent.to_plain();
        message.append(shown.as_str());
        return Err(Diagnostic::error(Code::DimensionMismatch, message));
    }
    let k = saturated_integer(exponent);
    let dim = match base.dim() {
        Dim::Of(d) => {
            proof {
                lemma_i32_product(d.length as int, k as int);
                lemma_i32_product(d.angle as int, k as int);
            }
            let wl = d.length as i64 * k as i64;
            let wa = d.angle as i64 * k as i64;
            if wl < i32::MIN as i64 || wl > i32::MAX as i64 || wa < i32::MIN as i64 || wa
                > i32::MAX as i64 {
                return Err(mismatch_error("dimension exponents leave the supported range"));
            }
            Dim::Of(d.pow(k))
        },
        other => other,
    };
    let mut items: Vec<TExpr> = Vec::new();
    items.push(base);
    items.push(TExpr::Literal(exponent.duplicate(), Dim::Any));
    proof {
        lemma_view_texprs(items@);
        assert(view_texprs(items@) =~= seq![items@[0]@, items@[1]@]);
    }
    Ok(TExpr::Call(function, dim, items))
}

fn call_trig<R: RefResolver>(
    function: Function,
    args: &Vec<Expr>,
    expected: Dim,
    resolver: &mut R,
    refs: &mut Vec<(Ref, Dim)>,
    Ghost(res): Ghost<Resolve>,
) -> (r: Result<TExpr, Diagnostic>)
    requires
        function == Function::Sin || function == Function::Cos || function == Function::Tan,
        call_pre(args, function, *old(resolver), res),
    ensures
        forall|x: SpecRef| #[trigger] final(resolver).resolves(x) == res(x),
        walk_post(call_spec(function, view_exprs(args@), expected, res), r, old(refs)@, final(refs)@),
        asked_post(call_spec(function, view_exprs(args@), expected, res), old(resolver).asked(), final(resolver).asked()),
    decreases args, 1nat,
{
    proof {
        assert(decreases_to!(*args => args[0]));
    }
    let operand = walk(&args[0], Dim::Of(Dimension::angle()), resolver, refs, Ghost(res))?;
    let d = operand.dim();
    if Dim::unify(d, Dim::Of(Dimension::angle())).is_none() {
        let mut message = String::from_str(function.name());
        message.append(" expects an angle, got ");
        let shown = d.describe();
        message.append(shown.as_str());
        return Err(Diagnostic::error(Code::DimensionMismatch, message));
    }
    let mut items: Vec<TExpr> = Vec::new();
    items.push(operand);
    proof {
        lemma_view_texprs(items@);
        assert(view_texprs(items@) =~= seq![items@[0]@]);
    }
    Ok(TExpr::Call(function, Dim::Of(Dimension::ratio()), items))
}

/// Check an expression against the expected dimension of its field.
pub fn check<R: RefResolver>(expr: &Expr, expected: Dim, resolver: &mut R) -> (r: Result<
    Checked,
    Diagnostic,
>)
    requires
        calls_ok(expr@),
        crate::ast::expr_wf(expr@),
    ensures
        view_checked_result(r) == check_spec(expr@, expected, answers(*old(resolver))),
        forall|x: SpecRef| #[trigger] final(resolver).resolves(x) == old(resolver).resolves(x),
        r matches Ok(c) ==> final(resolver).asked() == old(resolver).asked() + ref_names(c@.references),
{
    let ghost res = answers(*resolver);
    let mut references: Vec<(Ref, Dim)> = Vec::new();
    let checked = walk(expr, expected, resolver, &mut references, Ghost(res))?;
    assert(view_refs(references@) =~= view_refs(Seq::<(Ref, Dim)>::empty()) + view_refs(
        references@,
    ));
    let walked = checked.dim();
    let dim = match walked {
        Dim::Any => expected,
        other => other,
    };
    let compatible = match (expected, dim) {
        (Dim::Any, _) | (_, Dim::Any) => true,
        (Dim::Bool, Dim::Bool) => true,
        (Dim::Of(a), Dim::Of(b)) => a == b,
        _ => false,
    };
    if !compatible {
        let mut message = String::from_str("expression result is ");
        let shown = dim.describe();
        message.append(shown.as_str());
        message.append(", but this field requires ");
        let wanted = expected.describe();
        message.append(wanted.as_str());
        return Err(Diagnostic::error(Code::DimensionMismatch, message));
    }
    Ok(Checked { dim, expr: checked, references })
}

} // verus!

verus! {

/// Every reference recorded was answered by the resolver with its dimension.
pub open spec fn refs_resolved(refs: Seq<(SpecRef, Dim)>, res: Resolve) -> bool {
    forall|i: int| 0 <= i < refs.len() ==> res((#[trigger] refs[i]).0) == Ok::<Dim, DiagnosticView>(refs[i].1)
}

proof fn lemma_concat_resolved(a: Seq<(SpecRef, Dim)>, b: Seq<(SpecRef, Dim)>, res: Resolve)
    requires
        refs_resolved(a, res),
        refs_resolved(b, res),
    ensures
        refs_resolved(a + b, res),
{
    assert forall|i: int| 0 <= i < (a + b).len() implies res((#[trigger] (a + b)[i]).0) == Ok::<
        Dim,
        DiagnosticView,
    >((a + b)[i].1) by {
        if i < a.len() {
            assert((a + b)[i] == a[i]);
        } else {
            assert((a + b)[i] == b[i - a.len()]);
        }
    }
}

/// A successful walk records only references the resolver answered.
pub proof fn lemma_walk_refs_resolved(e: SpecExpr, expected: Dim, res: Resolve)
    requires
        walk_spec(e, expected, res) is Ok,
    ensures
        refs_resolved(walk_spec(e, expected, res)->Ok_0.1, res),
    decreases e, 1nat,
{
    match e {
        SpecExpr::Literal(_) => {},
        SpecExpr::Reference(r) => {},
        SpecExpr::Negate(inner) => {
            let ex = numeric_spec(expected)->Ok_0;
            lemma_walk_refs_resolved(*inner, ex, res);
        },
        SpecExpr::Binary(op, l, r) => {
            if op == BinOp::Add || op == BinOp::Sub {
                let ex = numeric_spec(expected)->Ok_0;
                lemma_walk_refs_resolved(*l, ex, res);
                lemma_walk_refs_resolved(*r, ex, res);
                lemma_concat_resolved(walk_spec(*l, ex, res)->Ok_0.1, walk_spec(*r, ex, res)->Ok_0.1, res);
            } else {
                lemma_walk_refs_resolved(*l, Dim::Any, res);
                lemma_walk_refs_resolved(*r, Dim::Any, res);
                lemma_concat_resolved(
                    walk_spec(*l, Dim::Any, res)->Ok_0.1,
                    walk_spec(*r, Dim::Any, res)->Ok_0.1,
                    res,
                );
            }
        },
        SpecExpr::Compare(op, l, r) => {
            lemma_walk_refs_resolved(*l, Dim::Any, res);
            lemma_walk_refs_resolved(*r, Dim::Any, res);
            lemma_concat_resolved(
                walk_spec(*l, Dim::Any, res)->Ok_0.1,
                walk_spec(*r, Dim::Any, res)->Ok_0.1,
                res,
            );
        },
        SpecExpr::Call(f, args) => {
            lemma_call_refs_resolved(f, args, expected, res);
        },
    }
}

proof fn lemma_args_refs_resolved(args: Seq<SpecExpr>, ex: Dim, res: Resolve)
    requires
        walk_args_spec(args, ex, res) is Ok,
    ensures
        refs_resolved(walk_args_spec(args, ex, res)->Ok_0.1, res),
    decreases args, 0nat,
{
    if args.len() > 0 {
        lemma_args_refs_resolved(args.drop_last(), ex, res);
        lemma_walk_refs_resolved(args.last(), ex, res);
        lemma_concat_resolved(
            walk_args_spec(args.drop_last(), ex, res)->Ok_0.1,
            walk_spec(args.last(), ex, res)->Ok_0.1,
            res,
        );
    }
}

proof fn lemma_call_refs_resolved(f: Function, args: Seq<SpecExpr>, expected: Dim, res: Resolve)
    requires
        call_spec(f, args, expected, res) is Ok,
    ensures
        refs_resolved(call_spec(f, args, expected, res)->Ok_0.1, res),
    decreases args, 2nat,
{
    match f {
        Function::Min | Function::Max | Function::Abs | Function::Clamp => {
            let ex = numeric_spec(expected)->Ok_0;
            lemma_args_refs_resolved(args, ex, res);
        },
        Function::Lerp => {
            let ex = numeric_spec(expected)->Ok_0;
            lemma_walk_refs_resolved(args[0], ex, res);
            lemma_walk_refs_resolved(args[1], ex, res);
            lemma_walk_refs_resolved(args[2], Dim::Of(Dimension::ratio()), res);
            let ra = walk_spec(args[0], ex, res)->Ok_0.1;
            let rb = walk_spec(args[1], ex, res)->Ok_0.1;
            let rc = walk_spec(args[2], Dim::Of(Dimension::ratio()), res)->Ok_0.1;
            lemma_concat_resolved(ra, rb, res);
            lemma_concat_resolved(ra + rb, rc, res);
        },
        Function::Sqrt | Function::Pow => {
            lemma_walk_refs_resolved(args[0], Dim::Any, res);
        },
        Function::Sin | Function::Cos | Function::Tan => {
            lemma_walk_refs_resolved(args[0], Dim::Of(Dimension::angle()), res);
        },
    }
}

/// A successful check records only references the resolver answered.
pub proof fn lemma_check_refs_resolved(e: SpecExpr, expected: Dim, res: Resolve)
    requires
        check_spec(e, expected, res) is Ok,
    ensures
        refs_resolved(check_spec(e, expected, res)->Ok_0.references, res),
{
    lemma_walk_refs_resolved(e, expected, res);
}

/// The reference leaves of an expression, in source order, repeats kept.
pub open spec fn reference_leaves(e: SpecExpr) -> Seq<SpecRef>
    decreases e, 1nat,
{
    match e {
        SpecExpr::Literal(_) => Seq::empty(),
        SpecExpr::Reference(r) => seq![r],
        SpecExpr::Negate(inner) => reference_leaves(*inner),
        SpecExpr::Binary(_, l, r) => reference_leaves(*l) + reference_leaves(*r),
        SpecExpr::Compare(_, l, r) => reference_leaves(*l) + reference_leaves(*r),
        SpecExpr::Call(_, args) => reference_leaves_all(args),
    }
}

pub open spec fn reference_leaves_all(args: Seq<SpecExpr>) -> Seq<SpecRef>
    decreases args, 0nat,
{
    if args.len() == 0 {
        Seq::empty()
    } else {
        reference_leaves_all(args.drop_last()) + reference_leaves(args.last())
    }
}

/// Every call has as many arguments as its function takes (as the parser
/// guarantees).
pub open spec fn arities_within(e: SpecExpr) -> bool
    decreases e, 1nat,
{
    match e {
        SpecExpr::Literal(_) => true,
        SpecExpr::Reference(_) => true,
        SpecExpr::Negate(inner) => arities_within(*inner),
        SpecExpr::Binary(_, l, r) => arities_within(*l) && arities_within(*r),
        SpecExpr::Compare(_, l, r) => arities_within(*l) && arities_within(*r),
        SpecExpr::Call(f, args) => f.arity_spec().0 <= args.len() <= f.arity_spec().1 && arities_within_all(args),
    }
}

pub open spec fn arities_within_all(args: Seq<SpecExpr>) -> bool
    decreases args, 0nat,
{
    if args.len() == 0 {
        true
    } else {
        arities_within_all(args.drop_last()) && arities_within(args.last())
    }
}

proof fn lemma_within_all_entry(args: Seq<SpecExpr>, i: int)
    requires
        arities_within_all(args),
        0 <= i < args.len(),
    ensures
        arities_within(args[i]),
    decreases args.len(),
{
    if i < args.len() - 1 {
        lemma_within_all_entry(args.drop_last(), i);
    }
}

proof fn lemma_walk_leaves(e: SpecExpr, expected: Dim, res: Resolve)
    requires
        arities_within(e),
        walk_spec(e, expected, res) is Ok,
    ensures
        ref_names(walk_spec(e, expected, res)->Ok_0.1) == reference_leaves(e),
    decreases e, 1nat,
{
    match e {
        SpecExpr::Literal(_) => {
            assert(ref_names(Seq::<(SpecRef, Dim)>::empty()) =~= Seq::<SpecRef>::empty());
        },
        SpecExpr::Reference(r) => {
            let dim = res(r)->Ok_0;
            assert(ref_names(seq![(r, dim)]) =~= seq![r]);
        },
        SpecExpr::Negate(inner) => {
            let ex = numeric_spec(expected)->Ok_0;
            lemma_walk_leaves(*inner, ex, res);
        },
        SpecExpr::Binary(op, l, r) => {
            let ex = if op == BinOp::Add || op == BinOp::Sub {
                numeric_spec(expected)->Ok_0
            } else {
                Dim::Any
            };
            lemma_walk_leaves(*l, ex, res);
            lemma_walk_leaves(*r, ex, res);
            let (a, b) = (walk_spec(*l, ex, res)->Ok_0.1, walk_spec(*r, ex, res)->Ok_0.1);
            assert(ref_names(a + b) =~= ref_names(a) + ref_names(b));
        },
        SpecExpr::Compare(op, l, r) => {
            lemma_walk_leaves(*l, Dim::Any, res);
            lemma_walk_leaves(*r, Dim::Any, res);
            let (a, b) = (walk_spec(*l, Dim::Any, res)->Ok_0.1, walk_spec(*r, Dim::Any, res)->Ok_0.1);
            assert(ref_names(a + b) =~= ref_names(a) + ref_names(b));
        },
        SpecExpr::Call(f, args) => {
            lemma_call_leaves(f, args, expected, res);
        },
    }
}

proof fn lemma_args_leaves(args: Seq<SpecExpr>, ex: Dim, res: Resolve)
    requires
        arities_within_all(args),
        walk_args_spec(args, ex, res) is Ok,
    ensures
        ref_names(walk_args_spec(args, ex, res)->Ok_0.1) == reference_leaves_all(args),
    decreases args, 0nat,
{
    if args.len() > 0 {
        lemma_args_leaves(args.drop_last(), ex, res);
        lemma_walk_leaves(args.last(), ex, res);
        let a = walk_args_spec(args.drop_last(), ex, res)->Ok_0.1;
        let b = walk_spec(args.last(), ex, res)->Ok_0.1;
        assert(ref_names(a + b) =~= ref_names(a) + ref_names(b));
    } else {
        assert(ref_names(Seq::<(SpecRef, Dim)>::empty()) =~= Seq::<SpecRef>::empty());
    }
}

proof fn lemma_leaves_all_short(args: Seq<SpecExpr>)
    requires
        1 <= args.len() <= 3,
    ensures
        args.len() == 1 ==> reference_leaves_all(args) == reference_leaves(args[0]),
        args.len() == 2 ==> reference_leaves_all(args) == reference_leaves(args[0]) + reference_leaves(args[1]),
        args.len() == 3 ==> reference_leaves_all(args) == reference_leaves(args[0]) + reference_leaves(args[1])
            + reference_leaves(args[2]),
{
    let e = Seq::<SpecExpr>::empty();
    assert(reference_leaves_all(e) == Seq::<SpecRef>::empty());
    let one = args.take(1);
    assert(one.drop_last() =~= e);
    assert(reference_leaves_all(one) =~= reference_leaves(args[0]));
    if args.len() >= 2 {
        let two = args.take(2);
        assert(two.drop_last() =~= one);
        assert(reference_leaves_all(two) == reference_leaves_all(one) + reference_leaves(args[1]));
        if args.len() == 3 {
            assert(args.drop_last() =~= two);
        } else {
            assert(args =~= two);
        }
    } else {
        assert(args =~= one);
    }
}

#[verifier::spinoff_prover]
proof fn lemma_call_leaves(f: Function, args: Seq<SpecExpr>, expected: Dim, res: Resolve)
    requires
        args.len() <= f.arity_spec().1,
        arities_within_all(args),
        call_spec(f, args, expected, res) is Ok,
    ensures
        ref_names(call_spec(f, args, expected, res)->Ok_0.1) == reference_leaves_all(args),
    decreases args, 2nat,
{
    match f {
        Function::Min | Function::Max | Function::Abs | Function::Clamp => {
            let ex = numeric_spec(expected)->Ok_0;
            lemma_args_leaves(args, ex, res);
        },
        Function::Lerp => {
            let ex = numeric_spec(expected)->Ok_0;
            lemma_within_all_entry(args, 0);
            lemma_within_all_entry(args, 1);
            lemma_within_all_entry(args, 2);
            lemma_walk_leaves(args[0], ex, res);
            lemma_walk_leaves(args[1], ex, res);
            lemma_walk_leaves(args[2], Dim::Of(Dimension::ratio()), res);
            let ra = walk_spec(args[0], ex, res)->Ok_0.1;
            let rb = walk_spec(args[1], ex, res)->Ok_0.1;
            let rc = walk_spec(args[2], Dim::Of(Dimension::ratio()), res)->Ok_0.1;
            assert(ref_names(ra + rb + rc) =~= ref_names(ra) + ref_names(rb) + ref_names(rc));
            lemma_leaves_all_short(args);
        },
        Function::Sqrt | Function::Sin | Function::Cos | Function::Tan => {
            let ex = if f == Function::Sqrt { Dim::Any } else { Dim::Of(Dimension::angle()) };
            lemma_within_all_entry(args, 0);
            lemma_walk_leaves(args[0], ex, res);
            lemma_leaves_all_short(args);
        },
        Function::Pow => {
            lemma_within_all_entry(args, 0);
            lemma_walk_leaves(args[0], Dim::Any, res);
            lemma_leaves_all_short(args);
            assert(reference_leaves(args[1]) =~= Seq::<SpecRef>::empty());
            assert(reference_leaves(args[0]) + reference_leaves(args[1]) =~= reference_leaves(args[0]));
        },
    }
}

/// A successful check records each reference leaf of the expression, in
/// source order, repeats kept; with [`check`]'s contract, the resolver was
/// asked about exactly these references, once per leaf, in this order.
pub proof fn law_check_references(e: SpecExpr, expected: Dim, res: Resolve)
    requires
        arities_within(e),
        check_spec(e, expected, res) is Ok,
    ensures
        ref_names(check_spec(e, expected, res)->Ok_0.references) == reference_leaves(e),
{
    lemma_walk_leaves(e, expected, res);
}

/// Dividing one dimensioned operand by another subtracts exponents: when
/// the operands check as `Dim::Of(a)` and `Dim::Of(b)` and the differences
/// fit, the quotient checks, whatever the field expects of it, as the
/// dimension with length exponent `a.length - b.length` and angle exponent
/// `a.angle - b.angle`.
pub proof fn law_quotient_dimension(
    l: SpecExpr,
    r: SpecExpr,
    expected: Dim,
    res: Resolve,
    a: Dimension,
    b: Dimension,
)
    requires
        walk_spec(l, Dim::Any, res) is Ok,
        walk_spec(r, Dim::Any, res) is Ok,
        texpr_dim(walk_spec(l, Dim::Any, res)->Ok_0.0) == Dim::Of(a),
        texpr_dim(walk_spec(r, Dim::Any, res)->Ok_0.0) == Dim::Of(b),
        i32::MIN <= a.length - b.length <= i32::MAX,
        i32::MIN <= a.angle - b.angle <= i32::MAX,
    ensures
        walk_spec(SpecExpr::Binary(BinOp::Div, Box::new(l), Box::new(r)), expected, res) is Ok,
        ({
            let d = texpr_dim(walk_spec(SpecExpr::Binary(BinOp::Div, Box::new(l), Box::new(r)), expected, res)->Ok_0.0);
            &&& d is Of
            &&& d->Of_0.length == a.length - b.length
            &&& d->Of_0.angle == a.angle - b.angle
        }),
{
}

/// A quotient of two operands of the same dimension is a ratio, and a field
/// that expects a ratio accepts it.
pub proof fn law_quotient_of_like_is_ratio(l: SpecExpr, r: SpecExpr, res: Resolve, a: Dimension)
    requires
        walk_spec(l, Dim::Any, res) is Ok,
        walk_spec(r, Dim::Any, res) is Ok,
        texpr_dim(walk_spec(l, Dim::Any, res)->Ok_0.0) == Dim::Of(a),
        texpr_dim(walk_spec(r, Dim::Any, res)->Ok_0.0) == Dim::Of(a),
    ensures
        check_spec(
            SpecExpr::Binary(BinOp::Div, Box::new(l), Box::new(r)),
            Dim::Of(Dimension { length: 0, angle: 0 }),
            res,
        ) is Ok,
        check_spec(
            SpecExpr::Binary(BinOp::Div, Box::new(l), Box::new(r)),
            Dim::Of(Dimension { length: 0, angle: 0 }),
            res,
        )->Ok_0.dim == Dim::Of(Dimension { length: 0, angle: 0 }),
{
    law_quotient_dimension(l, r, Dim::Of(Dimension { length: 0, angle: 0 }), res, a, a);
}

/// Multiplying dimensioned operands adds exponents.
pub proof fn law_product_dimension(
    l: SpecExpr,
    r: SpecExpr,
    expected: Dim,
    res: Resolve,
    a: Dimension,
    b: Dimension,
)
    requires
        walk_spec(l, Dim::Any, res) is Ok,
        walk_spec(r, Dim::Any, res) is Ok,
        texpr_dim(walk_spec(l, Dim::Any, res)->Ok_0.0) == Dim::Of(a),
        texpr_dim(walk_spec(r, Dim::Any, res)->Ok_0.0) == Dim::Of(b),
        i32::MIN <= a.length + b.length <= i32::MAX,
        i32::MIN <= a.angle + b.angle <= i32::MAX,
    ensures
        walk_spec(SpecExpr::Binary(BinOp::Mul, Box::new(l), Box::new(r)), expected, res) is Ok,
        ({
            let d = texpr_dim(walk_spec(SpecExpr::Binary(BinOp::Mul, Box::new(l), Box::new(r)), expected, res)->Ok_0.0);
            &&& d is Of
            &&& d->Of_0.length == a.length + b.length
            &&& d->Of_0.angle == a.angle + b.angle
        }),
{
}

/// Adding or subtracting needs operands of one dimension: operands that
/// check as `Dim::Of(a)` and `Dim::Of(b)` give `Dim::Of(a)` when `a == b`,
/// and a dimension mismatch otherwise.
pub proof fn law_sum_dimension(
    op: BinOp,
    l: SpecExpr,
    r: SpecExpr,
    expected: Dim,
    res: Resolve,
    a: Dimension,
    b: Dimension,
)
    requires
        op == BinOp::Add || op == BinOp::Sub,
        expected != Dim::Bool,
        walk_spec(l, expected, res) is Ok,
        walk_spec(r, expected, res) is Ok,
        texpr_dim(walk_spec(l, expected, res)->Ok_0.0) == Dim::Of(a),
        texpr_dim(walk_spec(r, expected, res)->Ok_0.0) == Dim::Of(b),
    ensures
        a == b ==> walk_spec(SpecExpr::Binary(op, Box::new(l), Box::new(r)), expected, res) is Ok
            && texpr_dim(walk_spec(SpecExpr::Binary(op, Box::new(l), Box::new(r)), expected, res)->Ok_0.0)
            == Dim::Of(a),
        a != b ==> walk_spec(SpecExpr::Binary(op, Box::new(l), Box::new(r)), expected, res) is Err
            && walk_spec(SpecExpr::Binary(op, Box::new(l), Box::new(r)), expected, res)->Err_0.code
            == Code::DimensionMismatch,
{
}

/// A comparison of operands of one dimension is a boolean; operands of
/// different dimensions cannot be compared.
pub proof fn law_comparison_dimension(
    op: CmpOp,
    l: SpecExpr,
    r: SpecExpr,
    expected: Dim,
    res: Resolve,
    a: Dimension,
    b: Dimension,
)
    requires
        walk_spec(l, Dim::Any, res) is Ok,
        walk_spec(r, Dim::Any, res) is Ok,
        texpr_dim(walk_spec(l, Dim::Any, res)->Ok_0.0) == Dim::Of(a),
        texpr_dim(walk_spec(r, Dim::Any, res)->Ok_0.0) == Dim::Of(b),
    ensures
        a == b ==> walk_spec(SpecExpr::Compare(op, Box::new(l), Box::new(r)), expected, res) is Ok
            && texpr_dim(walk_spec(SpecExpr::Compare(op, Box::new(l), Box::new(r)), expected, res)->Ok_0.0)
            == Dim::Bool,
        a != b ==> walk_spec(SpecExpr::Compare(op, Box::new(l), Box::new(r)), expected, res) is Err
            && walk_spec(SpecExpr::Compare(op, Box::new(l), Box::new(r)), expected, res)->Err_0.code
            == Code::DimensionMismatch,
{
}

/// `sin`, `cos` and `tan` take an angle and give a ratio: an operand that
/// checks as another dimension is a dimension mismatch.
pub proof fn law_trig_dimension(f: Function, x: SpecExpr, expected: Dim, res: Resolve, d: Dimension)
    requires
        f == Function::Sin || f == Function::Cos || f == Function::Tan,
        walk_spec(x, Dim::Of(Dimension { length: 0, angle: 1 }), res) is Ok,
        texpr_dim(walk_spec(x, Dim::Of(Dimension { length: 0, angle: 1 }), res)->Ok_0.0) == Dim::Of(d),
    ensures
        d == (Dimension { length: 0, angle: 1 }) ==> call_spec(f, seq![x], expected, res) is Ok
            && texpr_dim(call_spec(f, seq![x], expected, res)->Ok_0.0) == Dim::Of(
            Dimension { length: 0, angle: 0 },
        ),
        d != (Dimension { length: 0, angle: 1 }) ==> call_spec(f, seq![x], expected, res) is Err
            && call_spec(f, seq![x], expected, res)->Err_0.code == Code::DimensionMismatch,
{
}

} // verus!
