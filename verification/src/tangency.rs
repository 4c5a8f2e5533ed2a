//! Leading-edge tangency DSL.
//!
//! Panel clauses shape the two panels: `left` is the root-kink panel, `right`
//! the kink-tip panel, `full` both at once. Their spec is `auto` (adapt to
//! the other side) or an explicit tangent vector `x,y,z` in aircraft axes.
//! Station clauses anchor the leading edge at the ends: `root:x,y,z` sets the
//! direction the leading edge leaves the root with, `tip:x,y,z` the direction
//! it arrives at the tip with. Every spec takes an optional trailing
//! `:number` strength; omitted means 1.
//!
//! Numbers are kept as exact decimals.
use vstd::prelude::*;
use crate::decimal::{one_spec, read_decimal, view_decimal_option, decimal_spec, Decimal, SpecDecimal};
use crate::diagnostic::{error_view, Code, Diagnostic, DiagnosticView};
use crate::parser::{lemma_split_nonempty, split_chars, split_spec, trim_chars, trim_spec};
use crate::text::{chars_of, str_debug, str_debug_text, string_from_chars};

verus! {

broadcast use vstd::std_specs::vec::axiom_spec_len;

#[derive(Debug, Clone, Copy, PartialEq, Eq, Structural)]
pub enum Side {
    Left,
    Right,
    Full,
    Root,
    Tip,
}

/// A parsed spec: `auto` or a tangent vector, plus its strength.
#[derive(Debug, PartialEq)]
pub struct Spec {
    /// `true` for `auto`; `false` for an explicit vector in `vector`.
    pub auto: bool,
    pub vector: Option<[Decimal; 3]>,
    pub strength: Decimal,
}

pub struct SpecTangent {
    pub auto: bool,
    pub vector: Option<(SpecDecimal, SpecDecimal, SpecDecimal)>,
    pub strength: SpecDecimal,
}

impl View for Spec {
    type V = SpecTangent;

    open spec fn view(&self) -> SpecTangent {
        SpecTangent {
            auto: self.auto,
            vector: match self.vector {
                Some(v) => Some((v[0]@, v[1]@, v[2]@)),
                None => None,
            },
            strength: self.strength@,
        }
    }
}

impl Spec {
    /// An equal copy.
    pub fn duplicate(&self) -> (r: Spec)
        ensures
            r@ == self@,
    {
        let vector = match &self.vector {
            Some(v) => Some([v[0].duplicate(), v[1].duplicate(), v[2].duplicate()]),
            None => None,
        };
        Spec { auto: self.auto, vector, strength: self.strength.duplicate() }
    }
}

#[derive(Debug, PartialEq)]
pub struct LeTangencyDsl {
    pub left: Option<Spec>,
    pub right: Option<Spec>,
    pub root: Option<Spec>,
    pub tip: Option<Spec>,
}

pub struct TangencyView {
    pub left: Option<SpecTangent>,
    pub right: Option<SpecTangent>,
    pub root: Option<SpecTangent>,
    pub tip: Option<SpecTangent>,
}

pub open spec fn view_spec_option(s: Option<Spec>) -> Option<SpecTangent> {
    match s {
        Some(v) => Some(v@),
        None => None,
    }
}

impl View for LeTangencyDsl {
    type V = TangencyView;

    open spec fn view(&self) -> TangencyView {
        TangencyView {
            left: view_spec_option(self.left),
            right: view_spec_option(self.right),
            root: view_spec_option(self.root),
            tip: view_spec_option(self.tip),
        }
    }
}

impl TangencyView {
    pub open spec fn is_empty_spec(self) -> bool {
        self.left is None && self.right is None && self.root is None && self.tip is None
    }
}

impl LeTangencyDsl {
    pub fn is_empty(&self) -> (r: bool)
        ensures
            r == self@.is_empty_spec(),
    {
        self.left.is_none() && self.right.is_none() && self.root.is_none() && self.tip.is_none()
    }
}

pub open spec fn tangency_error(message: Seq<char>) -> DiagnosticView {
    error_view(Code::InvalidTangency, message)
}

pub open spec fn number_spec(text: Seq<char>, what: Seq<char>) -> Result<SpecDecimal, DiagnosticView> {
    match decimal_spec(trim_spec(text)) {
        Some(b) => Ok(b),
        None => Err(tangency_error(what + " "@ + str_debug_text(text) + " is not a number"@)),
    }
}

pub open spec fn vector_spec(text: Seq<char>) -> Result<(SpecDecimal, SpecDecimal, SpecDecimal), DiagnosticView> {
    let parts = split_spec(text, ',');
    if parts.len() != 3 {
        Err(tangency_error("tangent vector "@ + str_debug_text(text) + " must be x,y,z"@))
    } else {
        match number_spec(parts[0], "tangent component"@) {
            Err(d) => Err(d),
            Ok(x) => match number_spec(parts[1], "tangent component"@) {
                Err(d) => Err(d),
                Ok(y) => match number_spec(parts[2], "tangent component"@) {
                    Err(d) => Err(d),
                    Ok(z) => Ok((x, y, z)),
                },
            },
        }
    }
}

/// Index of the last occurrence of `c`.
pub open spec fn last_index_of(s: Seq<char>, c: char) -> Option<int>
    decreases s.len(),
{
    if s.len() == 0 {
        None
    } else if s.last() == c {
        Some(s.len() - 1)
    } else {
        last_index_of(s.drop_last(), c)
    }
}

/// Index of the first occurrence of `c`.
pub open spec fn first_index_of(s: Seq<char>, c: char) -> Option<int>
    decreases s.len(),
{
    if s.len() == 0 {
        None
    } else {
        match first_index_of(s.drop_last(), c) {
            Some(i) => Some(i),
            None => if s.last() == c {
                Some(s.len() - 1)
            } else {
                None
            },
        }
    }
}

/// A spec text split from its trailing strength: only when the part after
/// the last colon reads as a number.
pub open spec fn split_strength(text: Seq<char>) -> (Seq<char>, SpecDecimal) {
    match last_index_of(text, ':') {
        Some(p) => match number_spec(text.subrange(p + 1, text.len() as int), "strength"@) {
            Ok(v) => (text.subrange(0, p), v),
            Err(_) => (text, one_spec()),
        },
        None => (text, one_spec()),
    }
}

pub open spec fn spec_spec(text: Seq<char>, allow_auto: bool) -> Result<SpecTangent, DiagnosticView> {
    let (body, strength) = split_strength(text);
    if trim_spec(body) == "auto"@ {
        if !allow_auto {
            Err(
                tangency_error(
                    "this clause requires an explicit tangent vector; 'auto' is only valid for left, right, or full"@,
                ),
            )
        } else {
            Ok(SpecTangent { auto: true, vector: None, strength })
        }
    } else {
        match vector_spec(body) {
            Err(d) => Err(d),
            Ok(v) => Ok(SpecTangent { auto: false, vector: Some(v), strength }),
        }
    }
}

pub open spec fn duplicate_error(name: Seq<char>) -> DiagnosticView {
    tangency_error("duplicate "@ + str_debug_text(name) + " clause"@)
}

/// The effect of one clause on the sides parsed so far.
pub open spec fn clause_step(acc: TangencyView, clause: Seq<char>) -> Result<TangencyView, DiagnosticView> {
    let c = trim_spec(clause);
    if c.len() == 0 {
        Err(tangency_error("tangency contains an empty clause"@))
    } else {
        match first_index_of(c, ':') {
            None => Err(tangency_error("tangency clause "@ + str_debug_text(c) + " must read <side>:<spec>"@)),
            Some(q) => {
                let side = trim_spec(c.subrange(0, q));
                let spec = c.subrange(q + 1, c.len() as int);
                if side == "left"@ {
                    if acc.left is Some {
                        Err(duplicate_error("left"@))
                    } else {
                        match spec_spec(spec, true) {
                            Err(d) => Err(d),
                            Ok(v) => Ok(TangencyView { left: Some(v), ..acc }),
                        }
                    }
                } else if side == "right"@ {
                    if acc.right is Some {
                        Err(duplicate_error("right"@))
                    } else {
                        match spec_spec(spec, true) {
                            Err(d) => Err(d),
                            Ok(v) => Ok(TangencyView { right: Some(v), ..acc }),
                        }
                    }
                } else if side == "root"@ {
                    if acc.root is Some {
                        Err(duplicate_error("root"@))
                    } else {
                        match spec_spec(spec, false) {
                            Err(d) => Err(d),
                            Ok(v) => Ok(TangencyView { root: Some(v), ..acc }),
                        }
                    }
                } else if side == "tip"@ {
                    if acc.tip is Some {
                        Err(duplicate_error("tip"@))
                    } else {
                        match spec_spec(spec, false) {
                            Err(d) => Err(d),
                            Ok(v) => Ok(TangencyView { tip: Some(v), ..acc }),
                        }
                    }
                } else if side == "full"@ {
                    if acc.left is Some || acc.right is Some {
                        Err(tangency_error("'full' cannot be combined with 'left' or 'right'"@))
                    } else {
                        match spec_spec(spec, true) {
                            Err(d) => Err(d),
                            Ok(v) => Ok(TangencyView { left: Some(v), right: Some(v), ..acc }),
                        }
                    }
                } else {
                    Err(
                        tangency_error(
                            "unknown tangency side "@ + str_debug_text(side)
                                + "; use left, right, full, root, or tip"@,
                        ),
                    )
                }
            },
        }
    }
}

pub open spec fn no_sides() -> TangencyView {
    TangencyView { left: None, right: None, root: None, tip: None }
}

/// The clauses applied in order from no sides; the first error stops.
pub open spec fn clauses_fold(clauses: Seq<Seq<char>>) -> Result<TangencyView, DiagnosticView>
    decreases clauses.len(),
{
    if clauses.len() == 0 {
        Ok(no_sides())
    } else {
        match clauses_fold(clauses.drop_last()) {
            Err(d) => Err(d),
            Ok(acc) => clause_step(acc, clauses.last()),
        }
    }
}

/// The meaning of a tangency text: its `;`-separated clauses, at least one
/// side named.
pub open spec fn le_tangency_spec(dsl: Seq<char>) -> Result<TangencyView, DiagnosticView> {
    match clauses_fold(split_spec(dsl, ';')) {
        Err(d) => Err(d),
        Ok(t) => if t.is_empty_spec() {
            Err(tangency_error("tangency must name at least one side"@))
        } else {
            Ok(t)
        },
    }
}

pub open spec fn view_tangency_result(r: Result<LeTangencyDsl, Diagnostic>) -> Result<TangencyView, DiagnosticView> {
    match r {
        Ok(t) => Ok(t@),
        Err(d) => Err(d@),
    }
}

fn tangency_diagnostic(message: String) -> (r: Diagnostic)
    ensures
        r@ == tangency_error(message@),
{
    Diagnostic::error(Code::InvalidTangency, message)
}

fn slice(s: &Vec<char>, a: usize, b: usize) -> (r: Vec<char>)
    requires
        a <= b <= s@.len(),
    ensures
        r@ == s@.subrange(a as int, b as int),
{
    let mut out: Vec<char> = Vec::new();
    let mut k = a;
    while k < b
        invariant
            a <= k <= b <= s@.len(),
            out@ == s@.subrange(a as int, k as int),
        decreases b - k,
    {
        out.push(s[k]);
        k = k + 1;
        assert(out@ =~= s@.subrange(a as int, k as int));
    }
    out
}

fn find_last(s: &Vec<char>, c: char) -> (r: Option<usize>)
    ensures
        match r {
            Some(i) => last_index_of(s@, c) == Some(i as int) && i < s@.len(),
            None => last_index_of(s@, c) is None,
        },
{
    let mut i: usize = s.len();
    assert(s@.take(i as int) =~= s@);
    while i > 0
        invariant
            i <= s@.len(),
            last_index_of(s@, c) == last_index_of(s@.take(i as int), c),
        decreases i,
    {
        assert(s@.take(i as int).drop_last() =~= s@.take(i - 1));
        if s[i - 1] == c {
            return Some(i - 1);
        }
        i = i - 1;
    }
    None
}

proof fn lemma_first_index_prefix(s: Seq<char>, c: char, j: int)
    requires
        0 <= j <= s.len(),
        first_index_of(s.take(j), c) is Some,
    ensures
        first_index_of(s, c) == first_index_of(s.take(j), c),
    decreases s.len() - j,
{
    if j < s.len() {
        assert(s.take(j + 1).drop_last() =~= s.take(j));
        lemma_first_index_prefix(s, c, j + 1);
    } else {
        assert(s.take(j) =~= s);
    }
}

fn find_first(s: &Vec<char>, c: char) -> (r: Option<usize>)
    ensures
        match r {
            Some(i) => first_index_of(s@, c) == Some(i as int) && i < s@.len(),
            None => first_index_of(s@, c) is None,
        },
{
    let mut i: usize = 0;
    while i < s.len()
        invariant
            i <= s@.len(),
            first_index_of(s@.take(i as int), c) is None,
        decreases s@.len() - i,
    {
        assert(s@.take(i + 1).drop_last() =~= s@.take(i as int));
        if s[i] == c {
            proof {
                lemma_first_index_prefix(s@, c, i + 1);
            }
            return Some(i);
        }
        i = i + 1;
    }
    assert(s@.take(s@.len() as int) =~= s@);
    None
}

fn chars_equal(s: &Vec<char>, word: &str) -> (r: bool)
    ensures
        r == (s@ == word@),
{
    let w = chars_of(word);
    if s.len() != w.len() {
        return false;
    }
    let mut i: usize = 0;
    while i < s.len()
        invariant
            i <= s@.len() == w@.len(),
            w@ == word@,
            forall|k: int| 0 <= k < i ==> s@[k] == w@[k],
        decreases s@.len() - i,
    {
        if s[i] != w[i] {
            return false;
        }
        i = i + 1;
    }
    assert(s@ =~= w@);
    true
}

fn parse_number(text: &Vec<char>, what: &str) -> (r: Result<Decimal, Diagnostic>)
    ensures
        match r {
            Ok(b) => number_spec(text@, what@) == Ok::<SpecDecimal, DiagnosticView>(b@),
            Err(d) => number_spec(text@, what@) == Err::<SpecDecimal, DiagnosticView>(d@),
        },
{
    let trimmed = trim_chars(text);
    match read_decimal(&trimmed) {
        Some(value) => Ok(value),
        None => {
            let mut message = String::from_str(what);
            message.append(" ");
            let original = string_from_chars(text.as_slice());
            message.append(str_debug(original.as_str()).as_str());
            message.append(" is not a number");
            proof {
                reveal_strlit(" ");
                reveal_strlit(" is not a number");
            }
            Err(tangency_diagnostic(message))
        },
    }
}

fn parse_vector(text: &Vec<char>) -> (r: Result<[Decimal; 3], Diagnostic>)
    ensures
        match r {
            Ok(v) => vector_spec(text@) == Ok::<(SpecDecimal, SpecDecimal, SpecDecimal), DiagnosticView>(
                (v[0]@, v[1]@, v[2]@),
            ),
            Err(d) => vector_spec(text@) == Err::<(SpecDecimal, SpecDecimal, SpecDecimal), DiagnosticView>(d@),
        },
{
    let parts = split_chars(text, ',');
    if parts.len() != 3 {
        let mut message = String::from_str("tangent vector ");
        let original = string_from_chars(text.as_slice());
        message.append(str_debug(original.as_str()).as_str());
        message.append(" must be x,y,z");
        proof {
            reveal_strlit("tangent vector ");
            reveal_strlit(" must be x,y,z");
        }
        return Err(tangency_diagnostic(message));
    }
    proof {
        reveal_strlit("tangent component");
    }
    let x = parse_number(&parts[0], "tangent component")?;
    let y = parse_number(&parts[1], "tangent component")?;
    let z = parse_number(&parts[2], "tangent component")?;
    Ok([x, y, z])
}

fn parse_spec(text: &Vec<char>, allow_auto: bool) -> (r: Result<Spec, Diagnostic>)
    ensures
        match r {
            Ok(v) => spec_spec(text@, allow_auto) == Ok::<SpecTangent, DiagnosticView>(v@),
            Err(d) => spec_spec(text@, allow_auto) == Err::<SpecTangent, DiagnosticView>(d@),
        },
{
    proof {
        reveal_strlit("strength");
        reveal_strlit("auto");
    }
    let mut body = slice(text, 0, text.len());
    assert(body@ =~= text@);
    let mut strength = Decimal::one();
    match find_last(text, ':') {
        Some(p) => {
            let tail = slice(text, p + 1, text.len());
            match parse_number(&tail, "strength") {
                Ok(value) => {
                    strength = value;
                    body = slice(text, 0, p);
                },
                Err(_) => {},
            }
        },
        None => {},
    }
    assert(split_strength(text@) == (body@, strength@));
    let trimmed = trim_chars(&body);
    if chars_equal(&trimmed, "auto") {
        if !allow_auto {
            return Err(
                tangency_diagnostic(
                    String::from_str(
                        "this clause requires an explicit tangent vector; 'auto' is only valid for left, right, or full",
                    ),
                ),
            );
        }
        return Ok(Spec { auto: true, vector: None, strength });
    }
    let vector = parse_vector(&body)?;
    Ok(Spec { auto: false, vector: Some(vector), strength })
}

fn duplicate(name: &str) -> (r: Diagnostic)
    ensures
        r@ == duplicate_error(name@),
{
    let mut message = String::from_str("duplicate ");
    message.append(str_debug(name).as_str());
    message.append(" clause");
    proof {
        reveal_strlit("duplicate ");
        reveal_strlit(" clause");
    }
    tangency_diagnostic(message)
}

fn apply_clause(acc: LeTangencyDsl, clause: &Vec<char>) -> (r: Result<LeTangencyDsl, Diagnostic>)
    ensures
        view_tangency_result(r) == clause_step(acc@, clause@),
{
    proof {
        reveal_strlit("left");
        reveal_strlit("right");
        reveal_strlit("root");
        reveal_strlit("tip");
        reveal_strlit("full");
    }
    let mut acc = acc;
    let c = trim_chars(clause);
    if c.len() == 0 {
        return Err(tangency_diagnostic(String::from_str("tangency contains an empty clause")));
    }
    let q = match find_first(&c, ':') {
        Some(q) => q,
        None => {
            let mut message = String::from_str("tangency clause ");
            let text = string_from_chars(c.as_slice());
            message.append(str_debug(text.as_str()).as_str());
            message.append(" must read <side>:<spec>");
            proof {
                reveal_strlit("tangency clause ");
                reveal_strlit(" must read <side>:<spec>");
            }
            return Err(tangency_diagnostic(message));
        },
    };
    let side = trim_chars(&slice(&c, 0, q));
    let spec = slice(&c, q + 1, c.len());
    if chars_equal(&side, "left") {
        if acc.left.is_some() {
            return Err(duplicate("left"));
        }
        acc.left = Some(parse_spec(&spec, true)?);
        Ok(acc)
    } else if chars_equal(&side, "right") {
        if acc.right.is_some() {
            return Err(duplicate("right"));
        }
        acc.right = Some(parse_spec(&spec, true)?);
        Ok(acc)
    } else if chars_equal(&side, "root") {
        if acc.root.is_some() {
            return Err(duplicate("root"));
        }
        acc.root = Some(parse_spec(&spec, false)?);
        Ok(acc)
    } else if chars_equal(&side, "tip") {
        if acc.tip.is_some() {
            return Err(duplicate("tip"));
        }
        acc.tip = Some(parse_spec(&spec, false)?);
        Ok(acc)
    } else if chars_equal(&side, "full") {
        if acc.left.is_some() || acc.right.is_some() {
            return Err(
                tangency_diagnostic(String::from_str("'full' cannot be combined with 'left' or 'right'")),
            );
        }
        let value = parse_spec(&spec, true)?;
        acc.left = Some(value.duplicate());
        acc.right = Some(value);
        Ok(acc)
    } else {
        let mut message = String::from_str("unknown tangency side ");
        let text = string_from_chars(side.as_slice());
        message.append(str_debug(text.as_str()).as_str());
        message.append("; use left, right, full, root, or tip");
        proof {
            reveal_strlit("unknown tangency side ");
            reveal_strlit("; use left, right, full, root, or tip");
        }
        Err(tangency_diagnostic(message))
    }
}

proof fn lemma_fold_err_extends(cs: Seq<Seq<char>>, j: int)
    requires
        0 <= j <= cs.len(),
        clauses_fold(cs.take(j)) is Err,
    ensures
        clauses_fold(cs) == clauses_fold(cs.take(j)),
    decreases cs.len() - j,
{
    if j < cs.len() {
        assert(cs.take(j + 1).drop_last() =~= cs.take(j));
        lemma_fold_err_extends(cs, j + 1);
    } else {
        assert(cs.take(j) =~= cs);
    }
}

/// Parses the leading-edge tangency DSL.
pub fn parse_le_tangency(dsl: &str) -> (r: Result<LeTangencyDsl, Diagnostic>)
    ensures
        view_tangency_result(r) == le_tangency_spec(dsl@),
{
    let chars = chars_of(dsl);
    let clauses = split_chars(&chars, ';');
    let ghost cs = split_spec(chars@, ';');
    let mut acc = LeTangencyDsl { left: None, right: None, root: None, tip: None };
    let mut i: usize = 0;
    assert(cs.take(0) =~= Seq::<Seq<char>>::empty());
    while i < clauses.len()
        invariant
            i <= clauses@.len() == cs.len(),
            cs == split_spec(dsl@, ';'),
            forall|k: int| 0 <= k < clauses@.len() ==> (#[trigger] clauses@[k])@ == cs[k],
            clauses_fold(cs.take(i as int)) == Ok::<TangencyView, DiagnosticView>(acc@),
        decreases clauses@.len() - i,
    {
        assert(cs.take(i + 1).drop_last() =~= cs.take(i as int));
        assert(cs.take(i + 1).last() == cs[i as int]);
        match apply_clause(acc, &clauses[i]) {
            Ok(next) => {
                acc = next;
            },
            Err(d) => {
                proof {
                    lemma_fold_err_extends(cs, i + 1);
                }
                return Err(d);
            },
        }
        i = i + 1;
    }
    assert(cs.take(cs.len() as int) =~= cs);
    if acc.is_empty() {
        return Err(tangency_diagnostic(String::from_str("tangency must name at least one side")));
    }
    Ok(acc)
}

/// The root and tip sides hold explicit tangent vectors.
pub open spec fn root_tip_explicit(t: TangencyView) -> bool {
    &&& t.root matches Some(s) ==> !s.auto && s.vector is Some
    &&& t.tip matches Some(s) ==> !s.auto && s.vector is Some
}

proof fn lemma_clauses_explicit(clauses: Seq<Seq<char>>)
    ensures
        clauses_fold(clauses) matches Ok(t) ==> root_tip_explicit(t),
    decreases clauses.len(),
{
    if clauses.len() > 0 {
        lemma_clauses_explicit(clauses.drop_last());
    }
}

/// Whenever a tangency text parses, its root and tip sides, where present,
/// are explicit vectors: `auto` is only accepted for left, right or full.
pub proof fn law_root_tip_explicit(dsl: Seq<char>)
    ensures
        le_tangency_spec(dsl) matches Ok(t) ==> root_tip_explicit(t),
{
    lemma_clauses_explicit(split_spec(dsl, ';'));
}

} // verus!
