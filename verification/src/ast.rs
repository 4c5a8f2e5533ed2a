//! Abstract syntax tree of the expression language and its printer.
//!
//! A number literal is held exactly, as a canonical decimal: its significant
//! digits and a power of ten.
use crate::text::{push_char, seq_of_nat};
use vstd::prelude::*;

verus! {

/// An unsigned decimal number `digits * 10^exponent` in canonical form:
/// every digit lies in `0..10`, there is no leading or trailing zero digit,
/// and zero is the empty digit list with exponent zero.
#[derive(Debug, Clone, PartialEq)]
pub struct Number {
    pub digits: Vec<u8>,
    pub exponent: i64,
}

pub struct SpecNumber {
    pub digits: Seq<u8>,
    pub exponent: int,
}

impl View for Number {
    type V = SpecNumber;

    open spec fn view(&self) -> SpecNumber {
        SpecNumber { digits: self.digits@, exponent: self.exponent as int }
    }
}

impl SpecNumber {
    pub open spec fn wf(self) -> bool {
        &&& forall|i: int| 0 <= i < self.digits.len() ==> #[trigger] self.digits[i] < 10
        &&& self.digits.len() > 0 ==> self.digits[0] != 0 && self.digits.last() != 0
        &&& self.digits.len() == 0 ==> self.exponent == 0
    }
}

pub open spec fn digit_chars(digits: Seq<u8>) -> Seq<char> {
    digits.map_values(|d: u8| (d + 48) as char)
}

pub open spec fn zeros(n: nat) -> Seq<char> {
    Seq::new(n, |i: int| '0')
}

/// Plain decimal rendering: no exponent, and `.0` after an integral value.
pub open spec fn number_text(n: SpecNumber) -> Seq<char> {
    let len = n.digits.len() as int;
    if len == 0 {
        "0.0"@
    } else if n.exponent >= 0 {
        digit_chars(n.digits) + zeros(n.exponent as nat) + ".0"@
    } else if -n.exponent >= len {
        "0."@ + zeros((-n.exponent - len) as nat) + digit_chars(n.digits)
    } else {
        digit_chars(n.digits.subrange(0, len + n.exponent)) + "."@ + digit_chars(
            n.digits.subrange(len + n.exponent, len),
        )
    }
}

/// Plain decimal rendering without a forced fraction (`1`, `2.5`, `0.01`).
pub open spec fn number_plain(n: SpecNumber) -> Seq<char> {
    let len = n.digits.len() as int;
    if len == 0 {
        "0"@
    } else if n.exponent >= 0 {
        digit_chars(n.digits) + zeros(n.exponent as nat)
    } else {
        number_text(n)
    }
}

fn push_digits(out: &mut String, digits: &Vec<u8>, start: usize, end: usize)
    requires
        start <= end <= digits@.len(),
        forall|i: int| 0 <= i < digits@.len() ==> #[trigger] digits@[i] < 10,
    ensures
        final(out)@ == old(out)@ + digit_chars(digits@.subrange(start as int, end as int)),
{
    let mut i = start;
    while i < end
        invariant
            start <= i <= end <= digits@.len(),
            forall|k: int| 0 <= k < digits@.len() ==> #[trigger] digits@[k] < 10,
            out@ == old(out)@ + digit_chars(digits@.subrange(start as int, i as int)),
        decreases end - i,
    {
        let d = digits[i];
        push_char(out, (d + 48u8) as char);
        i = i + 1;
        assert(digit_chars(digits@.subrange(start as int, i as int)) =~= digit_chars(
            digits@.subrange(start as int, (i - 1) as int),
        ).push((d + 48) as char));
    }
}

fn push_zeros(out: &mut String, count: u64)
    ensures
        final(out)@ == old(out)@ + zeros(count as nat),
{
    let mut i: u64 = 0;
    while i < count
        invariant
            i <= count,
            out@ == old(out)@ + zeros(i as nat),
        decreases count - i,
    {
        push_char(out, '0');
        i = i + 1;
        assert(zeros(i as nat) =~= zeros((i - 1) as nat).push('0'));
    }
}

impl Number {
    pub open spec fn wf(&self) -> bool {
        self@.wf()
    }

    /// An equal copy of this number.
    pub fn duplicate(&self) -> (r: Number)
        ensures
            r@ == self@,
    {
        let digits = self.digits.clone();
        assert(digits@ =~= self.digits@);
        Number { digits, exponent: self.exponent }
    }

    /// The plain decimal rendering, without a forced `.0`.
    pub fn to_plain(&self) -> (r: String)
        requires
            self.wf(),
        ensures
            r@ == number_plain(self@),
    {
        if self.digits.len() == 0 {
            return String::from_str("0");
        }
        if self.exponent >= 0 {
            let mut out = String::new();
            push_digits(&mut out, &self.digits, 0, self.digits.len());
            push_zeros(&mut out, self.exponent as u64);
            assert(self.digits@.subrange(0, self.digits@.len() as int) =~= self.digits@);
            return out;
        }
        self.to_text()
    }

    /// The plain decimal rendering used by the printer.
    pub fn to_text(&self) -> (r: String)
        requires
            self.wf(),
        ensures
            r@ == number_text(self@),
    {
        let len = self.digits.len();
        let mut out = String::new();
        if len == 0 {
            out.append("0.0");
            return out;
        }
        if self.exponent >= 0 {
            push_digits(&mut out, &self.digits, 0, len);
            push_zeros(&mut out, self.exponent as u64);
            out.append(".0");
            assert(self.digits@.subrange(0, len as int) =~= self.digits@);
            return out;
        }
        let neg: u64 = if self.exponent == i64::MIN {
            9223372036854775808u64
        } else {
            (-self.exponent) as u64
        };
        if neg >= len as u64 {
            out.append("0.");
            push_zeros(&mut out, neg - len as u64);
            push_digits(&mut out, &self.digits, 0, len);
            assert(self.digits@.subrange(0, len as int) =~= self.digits@);
            return out;
        }
        let split = len - neg as usize;
        push_digits(&mut out, &self.digits, 0, split);
        out.append(".");
        push_digits(&mut out, &self.digits, split, len);
        out
    }
}

#[derive(Debug, Clone, Copy, PartialEq, Eq, Structural)]
pub enum StationLeaf {
    PositionX,
    PositionY,
    PositionZ,
    Chord,
    Twist,
}

#[derive(Debug, Clone, Copy, PartialEq, Eq, Structural)]
pub enum Coordinate {
    X,
    Y,
    Z,
}

#[derive(Debug, Clone, Copy, PartialEq, Eq, Structural)]
pub enum BinOp {
    Add,
    Sub,
    Mul,
    Div,
}

#[derive(Debug, Clone, Copy, PartialEq, Eq, Structural)]
pub enum CmpOp {
    Less,
    LessEqual,
    Greater,
    GreaterEqual,
    Equal,
    NotEqual,
}

#[derive(Debug, Clone, Copy, PartialEq, Eq, Structural)]
pub enum Function {
    Min,
    Max,
    Clamp,
    Abs,
    Sqrt,
    Pow,
    Sin,
    Cos,
    Tan,
    Lerp,
}

#[derive(Debug, Clone, PartialEq)]
pub enum Ref {
    Parameter(String),
    Station { station: String, leaf: StationLeaf },
    InterfaceOrigin { component: String, interface: String, coordinate: Coordinate },
}

pub enum SpecRef {
    Parameter(Seq<char>),
    Station { station: Seq<char>, leaf: StationLeaf },
    InterfaceOrigin { component: Seq<char>, interface: Seq<char>, coordinate: Coordinate },
}

impl View for Ref {
    type V = SpecRef;

    open spec fn view(&self) -> SpecRef {
        match self {
            Ref::Parameter(id) => SpecRef::Parameter(id@),
            Ref::Station { station, leaf } => SpecRef::Station { station: station@, leaf: *leaf },
            Ref::InterfaceOrigin { component, interface, coordinate } => SpecRef::InterfaceOrigin {
                component: component@,
                interface: interface@,
                coordinate: *coordinate,
            },
        }
    }
}

#[derive(Debug, PartialEq)]
pub enum Expr {
    Literal(Number),
    Reference(Ref),
    Negate(Box<Expr>),
    Binary(BinOp, Box<Expr>, Box<Expr>),
    Compare(CmpOp, Box<Expr>, Box<Expr>),
    Call(Function, Vec<Expr>),
}

pub enum SpecExpr {
    Literal(SpecNumber),
    Reference(SpecRef),
    Negate(Box<SpecExpr>),
    Binary(BinOp, Box<SpecExpr>, Box<SpecExpr>),
    Compare(CmpOp, Box<SpecExpr>, Box<SpecExpr>),
    Call(Function, Seq<SpecExpr>),
}

pub open spec fn view_expr(e: Expr) -> SpecExpr
    decreases e,
{
    match e {
        Expr::Literal(n) => SpecExpr::Literal(n@),
        Expr::Reference(r) => SpecExpr::Reference(r@),
        Expr::Negate(inner) => SpecExpr::Negate(Box::new(view_expr(*inner))),
        Expr::Binary(op, l, r) => SpecExpr::Binary(
            op,
            Box::new(view_expr(*l)),
            Box::new(view_expr(*r)),
        ),
        Expr::Compare(op, l, r) => SpecExpr::Compare(
            op,
            Box::new(view_expr(*l)),
            Box::new(view_expr(*r)),
        ),
        Expr::Call(f, args) => SpecExpr::Call(f, view_exprs(args@)),
    }
}

pub open spec fn view_exprs(args: Seq<Expr>) -> Seq<SpecExpr>
    decreases args,
{
    if args.len() == 0 {
        Seq::empty()
    } else {
        view_exprs(args.drop_last()).push(view_expr(args.last()))
    }
}

impl View for Expr {
    type V = SpecExpr;

    open spec fn view(&self) -> SpecExpr {
        view_expr(*self)
    }
}

/// Every literal in the expression is a canonical decimal.
pub open spec fn expr_wf(e: SpecExpr) -> bool
    decreases e,
{
    match e {
        SpecExpr::Literal(n) => n.wf(),
        SpecExpr::Reference(_) => true,
        SpecExpr::Negate(inner) => expr_wf(*inner),
        SpecExpr::Binary(_, l, r) => expr_wf(*l) && expr_wf(*r),
        SpecExpr::Compare(_, l, r) => expr_wf(*l) && expr_wf(*r),
        SpecExpr::Call(_, args) => exprs_wf(args),
    }
}

pub open spec fn exprs_wf(args: Seq<SpecExpr>) -> bool
    decreases args,
{
    if args.len() == 0 {
        true
    } else {
        exprs_wf(args.drop_last()) && expr_wf(args.last())
    }
}

/// The fewest arguments a call of `f` reads by position.
pub open spec fn min_args(f: Function) -> nat {
    match f {
        Function::Lerp => 3,
        Function::Pow => 2,
        Function::Sqrt | Function::Sin | Function::Cos | Function::Tan => 1,
        _ => 0,
    }
}

/// Every call has at least the arguments its function reads by position.
pub open spec fn calls_ok(e: SpecExpr) -> bool
    decreases e,
{
    match e {
        SpecExpr::Literal(_) => true,
        SpecExpr::Reference(_) => true,
        SpecExpr::Negate(inner) => calls_ok(*inner),
        SpecExpr::Binary(_, l, r) => calls_ok(*l) && calls_ok(*r),
        SpecExpr::Compare(_, l, r) => calls_ok(*l) && calls_ok(*r),
        SpecExpr::Call(f, args) => args.len() >= min_args(f) && calls_ok_all(args),
    }
}

pub open spec fn calls_ok_all(args: Seq<SpecExpr>) -> bool
    decreases args,
{
    if args.len() == 0 {
        true
    } else {
        calls_ok_all(args.drop_last()) && calls_ok(args.last())
    }
}

/// A list of expressions passes [`calls_ok`] exactly when each one does.
pub proof fn lemma_calls_ok_all(args: Seq<SpecExpr>)
    ensures
        calls_ok_all(args) <==> forall|k: int| 0 <= k < args.len() ==> calls_ok(#[trigger] args[k]),
    decreases args.len(),
{
    if args.len() > 0 {
        lemma_calls_ok_all(args.drop_last());
        if forall|k: int| 0 <= k < args.len() ==> calls_ok(#[trigger] args[k]) {
            assert forall|k: int| 0 <= k < args.drop_last().len() implies calls_ok(
                #[trigger] args.drop_last()[k],
            ) by {
                assert(args.drop_last()[k] == args[k]);
            }
        }
        if calls_ok_all(args) {
            assert forall|k: int| 0 <= k < args.len() implies calls_ok(#[trigger] args[k]) by {
                if k < args.len() - 1 {
                    assert(args.drop_last()[k] == args[k]);
                }
            }
        }
    }
}

impl Function {
    pub open spec fn from_name_spec(name: Seq<char>) -> Option<Function> {
        if name == "min"@ {
            Some(Function::Min)
        } else if name == "max"@ {
            Some(Function::Max)
        } else if name == "clamp"@ {
            Some(Function::Clamp)
        } else if name == "abs"@ {
            Some(Function::Abs)
        } else if name == "sqrt"@ {
            Some(Function::Sqrt)
        } else if name == "pow"@ {
            Some(Function::Pow)
        } else if name == "sin"@ {
            Some(Function::Sin)
        } else if name == "cos"@ {
            Some(Function::Cos)
        } else if name == "tan"@ {
            Some(Function::Tan)
        } else if name == "lerp"@ {
            Some(Function::Lerp)
        } else {
            None
        }
    }

    pub fn from_name(name: &str) -> (r: Option<Self>)
        ensures
            r == Function::from_name_spec(name@),
    {
        let all = [
            Function::Min,
            Function::Max,
            Function::Clamp,
            Function::Abs,
            Function::Sqrt,
            Function::Pow,
            Function::Sin,
            Function::Cos,
            Function::Tan,
            Function::Lerp,
        ];
        let mut i: usize = 0;
        while i < 10
            invariant
                0 <= i <= 10,
                all@ == seq![
                    Function::Min,
                    Function::Max,
                    Function::Clamp,
                    Function::Abs,
                    Function::Sqrt,
                    Function::Pow,
                    Function::Sin,
                    Function::Cos,
                    Function::Tan,
                    Function::Lerp,
                ],
                forall|k: int| 0 <= k < i ==> name@ != (#[trigger] all@[k]).name_spec(),
            decreases 10 - i,
        {
            let candidate = all[i];
            if crate::text::str_eq(name, candidate.name()) {
                return Some(candidate);
            }
            i = i + 1;
        }
        proof {
            reveal_strlit("min");
            reveal_strlit("max");
            reveal_strlit("clamp");
            reveal_strlit("abs");
            reveal_strlit("sqrt");
            reveal_strlit("pow");
            reveal_strlit("sin");
            reveal_strlit("cos");
            reveal_strlit("tan");
            reveal_strlit("lerp");
            assert(name@ != all@[0].name_spec());
            assert(name@ != all@[1].name_spec());
            assert(name@ != all@[2].name_spec());
            assert(name@ != all@[3].name_spec());
            assert(name@ != all@[4].name_spec());
            assert(name@ != all@[5].name_spec());
            assert(name@ != all@[6].name_spec());
            assert(name@ != all@[7].name_spec());
            assert(name@ != all@[8].name_spec());
            assert(name@ != all@[9].name_spec());
        }
        None
    }

    pub open spec fn name_spec(self) -> Seq<char> {
        match self {
            Function::Min => "min"@,
            Function::Max => "max"@,
            Function::Clamp => "clamp"@,
            Function::Abs => "abs"@,
            Function::Sqrt => "sqrt"@,
            Function::Pow => "pow"@,
            Function::Sin => "sin"@,
            Function::Cos => "cos"@,
            Function::Tan => "tan"@,
            Function::Lerp => "lerp"@,
        }
    }

    pub fn name(self) -> (r: &'static str)
        ensures
            r@ == self.name_spec(),
    {
        match self {
            Function::Min => "min",
            Function::Max => "max",
            Function::Clamp => "clamp",
            Function::Abs => "abs",
            Function::Sqrt => "sqrt",
            Function::Pow => "pow",
            Function::Sin => "sin",
            Function::Cos => "cos",
            Function::Tan => "tan",
            Function::Lerp => "lerp",
        }
    }

    pub open spec fn arity_spec(self) -> (usize, usize) {
        match self {
            Function::Min | Function::Max => (1, usize::MAX),
            Function::Clamp | Function::Lerp => (3, 3),
            Function::Abs | Function::Sqrt | Function::Sin | Function::Cos | Function::Tan => (
                1,
                1,
            ),
            Function::Pow => (2, 2),
        }
    }

    /// (minimum, maximum) argument count; `usize::MAX` means unbounded.
    pub fn arity(self) -> (r: (usize, usize))
        ensures
            r == self.arity_spec(),
    {
        match self {
            Function::Min | Function::Max => (1, usize::MAX),
            Function::Clamp | Function::Lerp => (3, 3),
            Function::Abs | Function::Sqrt | Function::Sin | Function::Cos | Function::Tan => (
                1,
                1,
            ),
            Function::Pow => (2, 2),
        }
    }
}

/// Every name that [`Function::name`] produces is read back by
/// [`Function::from_name`] as the same function.
pub proof fn lemma_function_name_round_trip(f: Function)
    ensures
        Function::from_name_spec(f.name_spec()) == Some(f),
{
    reveal_strlit("min");
    reveal_strlit("max");
    reveal_strlit("clamp");
    reveal_strlit("abs");
    reveal_strlit("sqrt");
    reveal_strlit("pow");
    reveal_strlit("sin");
    reveal_strlit("cos");
    reveal_strlit("tan");
    reveal_strlit("lerp");
    assert("min"@[0] == 'm' && "min"@[1] == 'i');
    assert("max"@[0] == 'm' && "max"@[1] == 'a');
    assert("clamp"@[0] == 'c' && "clamp"@[1] == 'l');
    assert("abs"@[0] == 'a' && "abs"@[1] == 'b');
    assert("sqrt"@[0] == 's' && "sqrt"@[1] == 'q');
    assert("pow"@[0] == 'p' && "pow"@[1] == 'o');
    assert("sin"@[0] == 's' && "sin"@[1] == 'i');
    assert("cos"@[0] == 'c' && "cos"@[1] == 'o');
    assert("tan"@[0] == 't' && "tan"@[1] == 'a');
    assert("lerp"@[0] == 'l' && "lerp"@[1] == 'e');
}

pub open spec fn leaf_text(leaf: StationLeaf) -> Seq<char> {
    match leaf {
        StationLeaf::PositionX => "position.x"@,
        StationLeaf::PositionY => "position.y"@,
        StationLeaf::PositionZ => "position.z"@,
        StationLeaf::Chord => "chord"@,
        StationLeaf::Twist => "twist"@,
    }
}

pub open spec fn coordinate_text(c: Coordinate) -> Seq<char> {
    match c {
        Coordinate::X => "x"@,
        Coordinate::Y => "y"@,
        Coordinate::Z => "z"@,
    }
}

/// The source form of a reference, `@` prefix included.
pub open spec fn ref_text(r: SpecRef) -> Seq<char> {
    match r {
        SpecRef::Parameter(id) => "@param."@ + id,
        SpecRef::Station { station, leaf } => "@station."@ + station + "."@ + leaf_text(leaf),
        SpecRef::InterfaceOrigin { component, interface, coordinate } => "@component."@ + component
            + ".interface."@ + interface + ".origin."@ + coordinate_text(coordinate),
    }
}

impl Ref {
    /// An equal copy of this reference.
    pub fn duplicate(&self) -> (r: Ref)
        ensures
            r@ == self@,
    {
        match self {
            Ref::Parameter(id) => Ref::Parameter(id.clone()),
            Ref::Station { station, leaf } => Ref::Station { station: station.clone(), leaf: *leaf },
            Ref::InterfaceOrigin { component, interface, coordinate } => Ref::InterfaceOrigin {
                component: component.clone(),
                interface: interface.clone(),
                coordinate: *coordinate,
            },
        }
    }

    /// The source form of the reference, `@` prefix included.
    pub fn to_string(&self) -> (r: String)
        ensures
            r@ == ref_text(self@),
    {
        match self {
            Ref::Parameter(id) => {
                let mut out = String::from_str("@param.");
                out.append(id.as_str());
                out
            },
            Ref::Station { station, leaf } => {
                let mut out = String::from_str("@station.");
                out.append(station.as_str());
                out.append(".");
                let text = match leaf {
                    StationLeaf::PositionX => "position.x",
                    StationLeaf::PositionY => "position.y",
                    StationLeaf::PositionZ => "position.z",
                    StationLeaf::Chord => "chord",
                    StationLeaf::Twist => "twist",
                };
                out.append(text);
                out
            },
            Ref::InterfaceOrigin { component, interface, coordinate } => {
                let mut out = String::from_str("@component.");
                out.append(component.as_str());
                out.append(".interface.");
                out.append(interface.as_str());
                out.append(".origin.");
                let text = match coordinate {
                    Coordinate::X => "x",
                    Coordinate::Y => "y",
                    Coordinate::Z => "z",
                };
                out.append(text);
                out
            },
        }
    }
}

pub open spec fn op_symbol_spec(op: BinOp) -> Seq<char> {
    match op {
        BinOp::Add => "+"@,
        BinOp::Sub => "-"@,
        BinOp::Mul => "*"@,
        BinOp::Div => "/"@,
    }
}

pub open spec fn comparison_symbol_spec(op: CmpOp) -> Seq<char> {
    match op {
        CmpOp::Less => "<"@,
        CmpOp::LessEqual => "<="@,
        CmpOp::Greater => ">"@,
        CmpOp::GreaterEqual => ">="@,
        CmpOp::Equal => "=="@,
        CmpOp::NotEqual => "!="@,
    }
}

fn op_symbol(op: BinOp) -> (r: &'static str)
    ensures
        r@ == op_symbol_spec(op),
{
    match op {
        BinOp::Add => "+",
        BinOp::Sub => "-",
        BinOp::Mul => "*",
        BinOp::Div => "/",
    }
}

fn comparison_symbol(op: CmpOp) -> (r: &'static str)
    ensures
        r@ == comparison_symbol_spec(op),
{
    match op {
        CmpOp::Less => "<",
        CmpOp::LessEqual => "<=",
        CmpOp::Greater => ">",
        CmpOp::GreaterEqual => ">=",
        CmpOp::Equal => "==",
        CmpOp::NotEqual => "!=",
    }
}

/// Formula source of an expression (without the leading `=`): binary
/// operations and comparisons fully parenthesized, calls as `name(a, b)`.
pub open spec fn print_spec(e: SpecExpr) -> Seq<char>
    decreases e,
{
    match e {
        SpecExpr::Literal(n) => number_text(n),
        SpecExpr::Reference(r) => ref_text(r),
        SpecExpr::Negate(inner) => "-"@ + print_spec(*inner),
        SpecExpr::Binary(op, l, r) => "("@ + print_spec(*l) + " "@ + op_symbol_spec(op) + " "@
            + print_spec(*r) + ")"@,
        SpecExpr::Compare(op, l, r) => "("@ + print_spec(*l) + " "@ + comparison_symbol_spec(op) + " "@
            + print_spec(*r) + ")"@,
        SpecExpr::Call(f, args) => f.name_spec() + "("@ + print_args_spec(args) + ")"@,
    }
}

/// The printed arguments joined by `, `.
pub open spec fn print_args_spec(args: Seq<SpecExpr>) -> Seq<char>
    decreases args,
{
    if args.len() == 0 {
        Seq::empty()
    } else if args.len() == 1 {
        print_spec(args[0])
    } else {
        print_args_spec(args.drop_last()) + ", "@ + print_spec(args.last())
    }
}

/// Render an expression back to formula source (without the leading `=`).
/// Parenthesization is conservative and preserves structure exactly.
pub fn print(expr: &Expr) -> (r: String)
    requires
        expr_wf(expr@),
    ensures
        r@ == print_spec(expr@),
    decreases expr,
{
    match expr {
        Expr::Literal(value) => value.to_text(),
        Expr::Reference(reference) => reference.to_string(),
        Expr::Negate(inner) => {
            let mut out = String::from_str("-");
            let rendered = print(inner);
            out.append(rendered.as_str());
            out
        },
        Expr::Binary(op, lhs, rhs) => {
            let mut out = String::from_str("(");
            let l = print(lhs);
            out.append(l.as_str());
            out.append(" ");
            out.append(op_symbol(*op));
            out.append(" ");
            let r = print(rhs);
            out.append(r.as_str());
            out.append(")");
            out
        },
        Expr::Compare(op, lhs, rhs) => {
            let mut out = String::from_str("(");
            let l = print(lhs);
            out.append(l.as_str());
            out.append(" ");
            out.append(comparison_symbol(*op));
            out.append(" ");
            let r = print(rhs);
            out.append(r.as_str());
            out.append(")");
            out
        },
        Expr::Call(function, args) => {
            let mut out = String::from_str(function.name());
            out.append("(");
            let ghost views = view_exprs(args@);
            proof {
                lemma_view_exprs(args@);
                assert(expr@ == SpecExpr::Call(*function, views));
                assert(expr_wf(SpecExpr::Call(*function, views)));
                lemma_wf_call(*function, views);
            }
            let mut i: usize = 0;
            let mut joined = String::new();
            while i < args.len()
                invariant
                    *expr == Expr::Call(*function, *args),
                    i <= args@.len(),
                    views == view_exprs(args@),
                    views.len() == args@.len(),
                    forall|k: int| 0 <= k < args@.len() ==> views[k] == (#[trigger] args@[k])@,
                    forall|k: int| 0 <= k < views.len() ==> expr_wf(#[trigger] views[k]),
                    joined@ == print_args_spec(views.subrange(0, i as int)),
                decreases args@.len() - i,
            {
                if i > 0 {
                    joined.append(", ");
                }
                proof {
                    broadcast use vstd::std_specs::vec::axiom_vec_index_decreases;

                    assert((*expr)->Call_1 == *args);
                    assert(decreases_to!(*expr => (*expr)->Call_1));
                    assert(decreases_to!((*expr)->Call_1 => ((*expr)->Call_1)[i as int]));
                    assert(decreases_to!(*expr => args[i as int]));
                    assert(expr_wf(views[i as int]));
                }
                let item = print(&args[i]);
                joined.append(item.as_str());
                i = i + 1;
                proof {
                    let s = views.subrange(0, i as int);
                    assert(s.drop_last() =~= views.subrange(0, (i - 1) as int));
                    assert(s.last() == views[(i - 1) as int]);
                    if i == 1 {
                        assert(views.subrange(0, 0) =~= Seq::<SpecExpr>::empty());
                    }
                }
            }
            assert(views.subrange(0, args@.len() as int) =~= views);
            out.append(joined.as_str());
            out.append(")");
            out
        },
    }
}

/// The arguments of a well-formed call are well-formed.
pub proof fn lemma_wf_call(f: Function, args: Seq<SpecExpr>)
    requires
        expr_wf(SpecExpr::Call(f, args)),
    ensures
        forall|k: int| 0 <= k < args.len() ==> expr_wf(#[trigger] args[k]),
{
    lemma_exprs_wf(args);
}

/// A list of expressions is well-formed exactly when each one is.
pub proof fn lemma_exprs_wf(args: Seq<SpecExpr>)
    ensures
        exprs_wf(args) <==> forall|k: int| 0 <= k < args.len() ==> expr_wf(#[trigger] args[k]),
    decreases args.len(),
{
    if args.len() > 0 {
        lemma_exprs_wf(args.drop_last());
        if forall|k: int| 0 <= k < args.len() ==> expr_wf(#[trigger] args[k]) {
            assert forall|k: int| 0 <= k < args.drop_last().len() implies expr_wf(
                #[trigger] args.drop_last()[k],
            ) by {
                assert(args.drop_last()[k] == args[k]);
            }
        }
        if exprs_wf(args) {
            assert forall|k: int| 0 <= k < args.len() implies expr_wf(#[trigger] args[k]) by {
                if k < args.len() - 1 {
                    assert(args.drop_last()[k] == args[k]);
                }
            }
        }
    }
}

/// The views of a list of expressions are the views of its elements.
pub proof fn lemma_view_exprs(args: Seq<Expr>)
    ensures
        view_exprs(args).len() == args.len(),
        forall|k: int| 0 <= k < args.len() ==> view_exprs(args)[k] == (#[trigger] args[k])@,
    decreases args.len(),
{
    if args.len() > 0 {
        lemma_view_exprs(args.drop_last());
        assert forall|k: int| 0 <= k < args.len() implies view_exprs(args)[k] == (
        #[trigger] args[k])@ by {
            if k < args.len() - 1 {
                assert(args.drop_last()[k] == args[k]);
            }
        }
    }
}

} // verus!
