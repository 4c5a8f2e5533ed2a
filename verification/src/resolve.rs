//! Second pass of graph construction: every expression is checked now that
//! all nodes exist, dependency edges are wired, and the dimensions demanded
//! of each parameter are collected.
use vstd::prelude::*;
use crate::ast::{Ref, SpecRef};
use crate::builder::{
    built_from, key_index, lemma_resolved_in_range, resolve_node_spec, skeleton, view_diagnostics, Builder,
};
use crate::check::{
    answers, check, check_spec, lemma_check_refs_resolved, refs_resolved, view_checked_result, Checked,
    RefLog, RefResolver, SpecChecked, Resolve,
};
use crate::diagnostic::{error_view, Code, Diagnostic, DiagnosticView};
use crate::dim::{Dim, Dimension};
use crate::model::AircraftDefinition;
use crate::node::{view_nodes, view_ref_nodes, NodeId, NodeView, SourceView, ValueSource};
use crate::text::{str_debug, str_debug_text};

verus! {

broadcast use vstd::std_specs::vec::axiom_spec_len;

/// The dimension demanded of whatever feeds a node.
pub open spec fn expected_of(v: NodeView) -> Dimension {
    match v.dimension {
        Some(d) => d,
        None => Dimension::ratio(),
    }
}

/// What the graph answers when an expression asks for a reference's
/// dimension: the producing node's dimension, `Any` for a parameter whose
/// dimension is not yet known.
pub open spec fn graph_answer(doc: AircraftDefinition, r: SpecRef) -> Result<Dim, DiagnosticView> {
    match resolve_node_spec(doc, r) {
        Err(d) => Err(d),
        Ok(n) => match skeleton(doc)[n as int].dimension {
            Some(d) => Ok(Dim::Of(d)),
            None => Ok(Dim::Any),
        },
    }
}

pub open spec fn graph_answers(doc: AircraftDefinition) -> Resolve {
    |r: SpecRef| graph_answer(doc, r)
}

/// Resolves references against the nodes being built while checking.
pub struct GraphResolver<'a> {
    doc: &'a AircraftDefinition,
    builder: &'a Builder,
    asked: Ghost<RefLog>,
}

impl<'a> GraphResolver<'a> {
    #[verifier::type_invariant]
    spec fn inv(self) -> bool {
        &&& built_from(*self.builder, *self.doc)
        &&& self.builder.nodes@.len() == skeleton(*self.doc).len()
        &&& forall|i: int|
            0 <= i < self.builder.nodes@.len() ==> (#[trigger] self.builder.nodes@[i]).dimension
                == skeleton(*self.doc)[i].dimension
    }

    pub closed spec fn document(self) -> AircraftDefinition {
        *self.doc
    }
}

impl<'a> RefResolver for GraphResolver<'a> {
    open spec fn resolves(&self, reference: SpecRef) -> Result<Dim, DiagnosticView> {
        graph_answer(self.document(), reference)
    }

    closed spec fn asked(&self) -> RefLog {
        self.asked@
    }

    fn dimension_of(&mut self, reference: &Ref) -> (r: Result<Dim, Diagnostic>) {
        proof {
            use_type_invariant(&*self);
        }
        self.asked = Ghost(self.asked@.push(reference@));
        let node = self.builder.resolve_node(self.doc, reference)?;
        proof {
            lemma_resolved_in_range(*self.doc, reference@);
        }
        match self.builder.nodes[node].dimension {
            Some(d) => Ok(Dim::Of(d)),
            None => Ok(Dim::Any),
        }
    }
}

/// How resolution treats one node of the skeleton.
pub enum Outcome {
    Unchanged,
    ParamOk(NodeId),
    ParamUnknown(DiagnosticView),
    Checked(SpecChecked),
    Failed(DiagnosticView),
}

/// A check error keeps the location it carries, else takes the node's.
pub open spec fn located(d: DiagnosticView, path: Seq<char>, subject: Seq<char>) -> DiagnosticView {
    DiagnosticView {
        path: match d.path {
            Some(p) => Some(p),
            None => Some(path),
        },
        subject: match d.subject {
            Some(s) => Some(s),
            None => Some(subject),
        },
        ..d
    }
}

#[verifier::opaque]
pub open spec fn outcome(doc: AircraftDefinition, i: int) -> Outcome {
    let v = skeleton(doc)[i];
    match v.source {
        SourceView::Parameter(id) => match key_index(doc.parameters@, id) {
            Some(p) => Outcome::ParamOk(p as NodeId),
            None => Outcome::ParamUnknown(
                error_view(Code::UnknownReference, "unknown parameter "@ + str_debug_text(id)).with_path(
                    v.path,
                ).with_subject(v.subject),
            ),
        },
        SourceView::Unresolved(e) => match check_spec(e, Dim::Of(expected_of(v)), graph_answers(doc)) {
            Ok(c) => Outcome::Checked(c),
            Err(d) => Outcome::Failed(located(d, v.path, v.subject)),
        },
        _ => Outcome::Unchanged,
    }
}

proof fn lemma_outcome_param(doc: AircraftDefinition, i: int)
    requires
        skeleton(doc)[i].source is Parameter,
    ensures
        outcome(doc, i) == match key_index(doc.parameters@, skeleton(doc)[i].source->Parameter_0) {
            Some(p) => Outcome::ParamOk(p as NodeId),
            None => Outcome::ParamUnknown(
                error_view(
                    Code::UnknownReference,
                    "unknown parameter "@ + str_debug_text(skeleton(doc)[i].source->Parameter_0),
                ).with_path(skeleton(doc)[i].path).with_subject(skeleton(doc)[i].subject),
            ),
        },
{
    reveal(outcome);
}

proof fn lemma_outcome_expr(doc: AircraftDefinition, i: int)
    requires
        skeleton(doc)[i].source is Unresolved,
    ensures
        outcome(doc, i) == match check_spec(
            skeleton(doc)[i].source->Unresolved_0,
            Dim::Of(expected_of(skeleton(doc)[i])),
            graph_answers(doc),
        ) {
            Ok(c) => Outcome::Checked(c),
            Err(d) => Outcome::Failed(located(d, skeleton(doc)[i].path, skeleton(doc)[i].subject)),
        },
{
    reveal(outcome);
}

proof fn lemma_outcome_other(doc: AircraftDefinition, i: int)
    requires
        !(skeleton(doc)[i].source is Unresolved),
        !(skeleton(doc)[i].source is Parameter),
    ensures
        outcome(doc, i) == Outcome::Unchanged,
{
    reveal(outcome);
}

pub open spec fn outcome_errors(o: Outcome) -> Seq<DiagnosticView> {
    match o {
        Outcome::ParamUnknown(d) => seq![d],
        Outcome::Failed(d) => seq![d],
        _ => Seq::empty(),
    }
}

/// Errors of the nodes before `k`, in node order.
pub open spec fn errors_before(doc: AircraftDefinition, k: int) -> Seq<DiagnosticView>
    decreases k,
{
    if k <= 0 {
        Seq::empty()
    } else {
        errors_before(doc, k - 1) + outcome_errors(outcome(doc, k - 1))
    }
}

/// Resolution stops at the first successfully checked expression that
/// follows an error.
pub open spec fn halts_at(doc: AircraftDefinition, k: int) -> bool {
    outcome(doc, k) is Checked && errors_before(doc, k).len() > 0
}

pub open spec fn first_halt(doc: AircraftDefinition, k: int) -> Option<int>
    decreases k,
{
    if k <= 0 {
        None
    } else {
        match first_halt(doc, k - 1) {
            Some(j) => Some(j),
            None => if halts_at(doc, k - 1) {
                Some(k - 1)
            } else {
                None
            },
        }
    }
}

/// The errors resolution reports, if any.
pub open spec fn resolve_errors(doc: AircraftDefinition) -> Seq<DiagnosticView> {
    let n = skeleton(doc).len() as int;
    match first_halt(doc, n) {
        Some(k) => errors_before(doc, k),
        None => errors_before(doc, n),
    }
}

/// The producer of every reference of a checked expression.
pub open spec fn producers(doc: AircraftDefinition, c: SpecChecked) -> Seq<(SpecRef, NodeId)> {
    c.references.map_values(|p: (SpecRef, Dim)| (p.0, resolve_node_spec(doc, p.0)->Ok_0))
}

pub open spec fn resolved_view(doc: AircraftDefinition, i: int) -> NodeView {
    let v = skeleton(doc)[i];
    match outcome(doc, i) {
        Outcome::ParamOk(p) => NodeView { deps: seq![p], ..v },
        Outcome::Checked(c) => NodeView {
            deps: producers(doc, c).map_values(|q: (SpecRef, NodeId)| q.1),
            ref_nodes: producers(doc, c),
            source: SourceView::Expression(c),
            ..v
        },
        _ => v,
    }
}

/// The dimension a checked reference demands of a parameter: its own when
/// concrete, the field's when unconstrained, none when boolean.
pub open spec fn demanded(d: Dim, expected: Dimension) -> Option<Dimension> {
    match d {
        Dim::Of(x) => Some(x),
        Dim::Any => Some(expected),
        Dim::Bool => None,
    }
}

pub open spec fn ref_demands(
    doc: AircraftDefinition,
    refs: Seq<(SpecRef, Dim)>,
    expected: Dimension,
    subject: Seq<char>,
    p: int,
) -> Seq<(Dimension, Seq<char>)>
    decreases refs.len(),
{
    if refs.len() == 0 {
        Seq::empty()
    } else {
        let (r, d) = refs.last();
        ref_demands(doc, refs.drop_last(), expected, subject, p) + match r {
            SpecRef::Parameter(id) => if key_index(doc.parameters@, id) == Some(p) {
                match demanded(d, expected) {
                    Some(x) => seq![(x, subject)],
                    None => Seq::empty(),
                }
            } else {
                Seq::empty()
            },
            _ => Seq::empty(),
        }
    }
}

/// The dimensions node `i` demands of parameter `p`, with its subject.
pub open spec fn demands(doc: AircraftDefinition, i: int, p: int) -> Seq<(Dimension, Seq<char>)> {
    let v = skeleton(doc)[i];
    match outcome(doc, i) {
        Outcome::ParamOk(q) => if q == p {
            seq![(expected_of(v), v.subject)]
        } else {
            Seq::empty()
        },
        Outcome::Checked(c) => ref_demands(doc, c.references, expected_of(v), v.subject, p),
        _ => Seq::empty(),
    }
}

pub open spec fn demands_before(doc: AircraftDefinition, k: int, p: int) -> Seq<(Dimension, Seq<char>)>
    decreases k,
{
    if k <= 0 {
        Seq::empty()
    } else {
        demands_before(doc, k - 1, p) + demands(doc, k - 1, p)
    }
}

pub open spec fn view_demands(v: Seq<(Dimension, String)>) -> Seq<(Dimension, Seq<char>)> {
    v.map_values(|q: (Dimension, String)| (q.0, q.1@))
}


impl<'a> GraphResolver<'a> {
    fn new(doc: &'a AircraftDefinition, builder: &'a Builder) -> (r: Self)
        requires
            built_from(*builder, *doc),
            builder.nodes@.len() == skeleton(*doc).len(),
            forall|i: int|
                0 <= i < builder.nodes@.len() ==> (#[trigger] builder.nodes@[i]).dimension == skeleton(*doc)[i].dimension,
        ensures
            r.document() == *doc,
    {
        GraphResolver { doc, builder, asked: Ghost(Seq::empty()) }
    }
}

proof fn lemma_first_halt_stable(doc: AircraftDefinition, j: int, m: int)
    requires
        0 <= j < m,
        first_halt(doc, j + 1) == Some(j),
    ensures
        first_halt(doc, m) == Some(j),
    decreases m,
{
    if m > j + 1 {
        lemma_first_halt_stable(doc, j, m - 1);
    }
}

/// The nodes of a build in progress: resolved before `i`, untouched after.
pub open spec fn nodes_at(doc: AircraftDefinition, nodes: Seq<NodeView>, i: int) -> bool {
    &&& nodes.len() == skeleton(doc).len()
    &&& forall|j: int| 0 <= j < i ==> #[trigger] nodes[j] == resolved_view(doc, j)
    &&& forall|j: int| i <= j < nodes.len() ==> #[trigger] nodes[j] == skeleton(doc)[j]
}

/// Resolution has handled the nodes before `i` without stopping.
pub open spec fn resolving(b: Builder, doc: AircraftDefinition, cons: Seq<Vec<(Dimension, String)>>, i: int) -> bool {
    &&& 0 <= i <= skeleton(doc).len()
    &&& built_from(b, doc)
    &&& b.nodes@.len() == skeleton(doc).len()
    &&& nodes_at(doc, view_nodes(b.nodes@), i)
    &&& crate::builder::sources_wf(b.nodes@)
    &&& view_diagnostics(b.errors@) == errors_before(doc, i)
    &&& first_halt(doc, i) is None
    &&& cons.len() == doc.parameters@.len()
    &&& forall|q: int| 0 <= q < cons.len() ==> view_demands((#[trigger] cons[q])@) == demands_before(doc, i, q)
}

proof fn lemma_dims_kept(doc: AircraftDefinition, b: Builder, i: int)
    requires
        b.nodes@.len() == skeleton(doc).len(),
        nodes_at(doc, view_nodes(b.nodes@), i),
    ensures
        forall|j: int| 0 <= j < b.nodes@.len() ==> (#[trigger] b.nodes@[j]).dimension == skeleton(doc)[j].dimension,
{
    assert forall|j: int| 0 <= j < b.nodes@.len() implies (#[trigger] b.nodes@[j]).dimension == skeleton(
        doc,
    )[j].dimension by {
        assert(view_nodes(b.nodes@)[j] == b.nodes@[j]@);
        if j < i {
            assert(b.nodes@[j]@ == resolved_view(doc, j));
        } else {
            assert(b.nodes@[j]@ == skeleton(doc)[j]);
        }
    }
}

impl Builder {
    fn resolve_param_node(
        &mut self,
        doc: &AircraftDefinition,
        index: usize,
        cons: &mut Vec<Vec<(Dimension, String)>>,
    )
        requires
            resolving(*old(self), *doc, old(cons)@, index as int),
            index < skeleton(*doc).len(),
            skeleton(*doc)[index as int].source is Parameter,
        ensures
            resolving(*final(self), *doc, final(cons)@, index + 1),
            final(self).param_nodes == old(self).param_nodes,
            final(self).station_nodes == old(self).station_nodes,
            final(self).component_stations == old(self).component_stations,
    {
        let ghost i = index as int;
        let ghost v = skeleton(*doc)[i];
        let ghost id = v.source->Parameter_0;
        let ghost old_errors = view_diagnostics(self.errors@);
        let ghost old_nodes = view_nodes(self.nodes@);
        let ghost old_cons = cons@;
        assert(old_nodes[i] == self.nodes@[i]@);
        let found = match &self.nodes[index].source {
            ValueSource::Parameter(id) => find_param(&self.param_nodes, id.as_str()),
            _ => None,
        };
        proof {
            crate::builder::lemma_key_index_same_pub(self.param_nodes@, doc.parameters@, id);
            lemma_outcome_param(*doc, i);
        }
        match found {
            Some(q) => {
                let param = self.param_nodes[q].1;
                assert(param == q);
                let expected = self.nodes[index].expected_dimension();
                let subject = self.nodes[index].subject.clone();
                let ghost before_deps = self.nodes@[i].deps@;
                self.nodes[index].deps.push(param);
                let ghost cq = cons@[q as int];
                cons[q].push((expected, subject));
                proof {
                    crate::builder::lemma_skeleton_fresh(*doc);
                    assert(skeleton(*doc)[i].deps == Seq::<NodeId>::empty());
                    assert(before_deps =~= Seq::<NodeId>::empty());
                    assert(self.nodes@[i]@ == resolved_view(*doc, i));
                    assert forall|j: int| 0 <= j < self.nodes@.len() && j != i implies self.nodes@[j]
                        == old(self).nodes@[j] by {}
                    assert(view_nodes(self.nodes@) =~= old_nodes.update(i, resolved_view(*doc, i)));
                    assert(view_diagnostics(self.errors@) =~= errors_before(*doc, i + 1));
                    assert forall|r: int| 0 <= r < cons@.len() implies view_demands((#[trigger] cons@[r])@)
                        == demands_before(*doc, i + 1, r) by {
                        if r == q {
                            assert(view_demands(cons@[r]@) =~= view_demands(cq@).push((expected, v.subject)));
                        } else {
                            assert(cons@[r] == old_cons[r]);
                            assert(demands(*doc, i, r) =~= Seq::empty());
                        }
                    }
                }
            },
            None => {
                let path = self.nodes[index].path.clone();
                let subject = self.nodes[index].subject.clone();
                let message = match &self.nodes[index].source {
                    ValueSource::Parameter(id) => unknown_parameter_message(id.as_str()),
                    _ => String::new(),
                };
                self.errors.push(
                    Diagnostic::error(Code::UnknownReference, message).with_path(path).with_subject(subject),
                );
                proof {
                    assert(view_diagnostics(self.errors@) =~= errors_before(*doc, i + 1));
                    assert forall|r: int| 0 <= r < cons@.len() implies view_demands((#[trigger] cons@[r])@)
                        == demands_before(*doc, i + 1, r) by {
                        assert(demands(*doc, i, r) =~= Seq::empty());
                    }
                }
            },
        }
        proof {
            assert(first_halt(*doc, i + 1) is None);
            assert forall|j: int| 0 <= j < i + 1 implies #[trigger] view_nodes(self.nodes@)[j] == resolved_view(*doc, j) by {
                if j == i {
                    assert(view_nodes(self.nodes@)[j] == self.nodes@[j]@);
                }
            }
        }
    }
}

impl Builder {
    /// Checks one expression node. Returns `true` when resolution stops
    /// here: the check succeeded but earlier nodes failed.
    #[verifier::rlimit(40)]
    fn resolve_expr_node(
        &mut self,
        doc: &AircraftDefinition,
        index: usize,
        cons: &mut Vec<Vec<(Dimension, String)>>,
    ) -> (halt: bool)
        requires
            resolving(*old(self), *doc, old(cons)@, index as int),
            index < skeleton(*doc).len(),
            skeleton(*doc)[index as int].source is Unresolved,
        ensures
            halt == halts_at(*doc, index as int),
            !halt ==> resolving(*final(self), *doc, final(cons)@, index + 1),
            halt ==> view_diagnostics(final(self).errors@) == errors_before(*doc, index as int),
            final(self).param_nodes == old(self).param_nodes,
            final(self).station_nodes == old(self).station_nodes,
            final(self).component_stations == old(self).component_stations,
    {
        let ghost i = index as int;
        let ghost v = skeleton(*doc)[i];
        let ghost e = v.source->Unresolved_0;
        let ghost old_nodes = view_nodes(self.nodes@);
        let ghost old_cons = cons@;
        assert(old_nodes[i] == self.nodes@[i]@);
        proof {
            lemma_outcome_expr(*doc, i);
            lemma_dims_kept(*doc, *self, i);
        }
        let expected = self.nodes[index].expected_dimension();
        assert(expected == expected_of(v));
        let result = match &self.nodes[index].source {
            ValueSource::Unresolved(expr) => {
                assert(expr@ == e);
                let mut resolver = GraphResolver::new(doc, self);
                proof {
                    assert(answers(resolver) =~= graph_answers(*doc));
                }
                check(expr, Dim::Of(expected), &mut resolver)
            },
            _ => Err(Diagnostic::error(Code::Internal, String::new())),
        };
        match result {
            Ok(checked) => {
                let ghost c = checked@;
                assert(outcome(*doc, i) == Outcome::Checked(c));
                proof {
                    lemma_check_refs_resolved(e, Dim::Of(expected), graph_answers(*doc));
                }
                let subject = self.nodes[index].subject.clone();
                let ghost refs = c.references;
                let mut k: usize = 0;
                while k < checked.references.len()
                    invariant
                        k <= checked.references@.len(),
                        refs == crate::check::view_refs(checked.references@),
                        cons@.len() == doc.parameters@.len(),
                        subject@ == v.subject,
                        expected == expected_of(v),
                        built_from(*self, *doc),
                        forall|q: int|
                            0 <= q < cons@.len() ==> view_demands((#[trigger] cons@[q])@) == view_demands(old_cons[q]@)
                                + ref_demands(*doc, refs.take(k as int), expected, v.subject, q),
                    decreases checked.references@.len() - k,
                {
                    let ghost before = cons@;
                    proof {
                        assert(refs.take(k + 1).drop_last() =~= refs.take(k as int));
                        assert(refs.take(k + 1).last() == refs[k as int]);
                        assert(refs[k as int] == (checked.references@[k as int].0@, checked.references@[k as int].1));
                    }
                    match &checked.references[k].0 {
                        Ref::Parameter(id) => {
                            proof {
                                crate::builder::lemma_key_index_same_pub(self.param_nodes@, doc.parameters@, id@);
                            }
                            match find_param(&self.param_nodes, id.as_str()) {
                                Some(q) => {
                                    match checked.references[k].1 {
                                        Dim::Of(x) => {
                                            let ghost cq = cons@[q as int];
                                            cons[q].push((x, subject.clone()));
                                            proof {
                                                assert(view_demands(cons@[q as int]@) =~= view_demands(cq@).push((x, v.subject)));
                                            }
                                        },
                                        Dim::Any => {
                                            let ghost cq = cons@[q as int];
                                            cons[q].push((expected, subject.clone()));
                                            proof {
                                                assert(view_demands(cons@[q as int]@) =~= view_demands(cq@).push((expected, v.subject)));
                                            }
                                        },
                                        Dim::Bool => {},
                                    }
                                    proof {
                                        assert forall|r: int| 0 <= r < cons@.len() implies view_demands(
                                            (#[trigger] cons@[r])@,
                                        ) == view_demands(old_cons[r]@) + ref_demands(
                                            *doc,
                                            refs.take(k + 1),
                                            expected,
                                            v.subject,
                                            r,
                                        ) by {
                                            if r != q {
                                                assert(cons@[r] == before[r]);
                                            }
                                        }
                                    }
                                },
                                None => {
                                    proof {
                                        assert forall|r: int| 0 <= r < cons@.len() implies view_demands(
                                            (#[trigger] cons@[r])@,
                                        ) == view_demands(old_cons[r]@) + ref_demands(
                                            *doc,
                                            refs.take(k + 1),
                                            expected,
                                            v.subject,
                                            r,
                                        ) by {}
                                    }
                                },
                            }
                        },
                        _ => {
                            proof {
                                assert forall|r: int| 0 <= r < cons@.len() implies view_demands(
                                    (#[trigger] cons@[r])@,
                                ) == view_demands(old_cons[r]@) + ref_demands(
                                    *doc,
                                    refs.take(k + 1),
                                    expected,
                                    v.subject,
                                    r,
                                ) by {}
                            }
                        },
                    }
                    k = k + 1;
                }
                proof {
                    assert(refs.take(refs.len() as int) =~= refs);
                }
                let mut wired: Vec<(Ref, NodeId)> = Vec::new();
                let mut deps: Vec<NodeId> = Vec::new();
                let mut k: usize = 0;
                while k < checked.references.len()
                    invariant
                        k <= checked.references@.len(),
                        refs == crate::check::view_refs(checked.references@),
                        refs_resolved(refs, graph_answers(*doc)),
                        built_from(*self, *doc),
                        view_ref_nodes(wired@) == producers(*doc, c).take(k as int),
                        deps@ == producers(*doc, c).take(k as int).map_values(|q: (SpecRef, NodeId)| q.1),
                        c.references == refs,
                    decreases checked.references@.len() - k,
                {
                    assert(refs[k as int] == (checked.references@[k as int].0@, checked.references@[k as int].1));
                    assert(graph_answers(*doc)(refs[k as int].0) is Ok);
                    match self.resolve_node(doc, &checked.references[k].0) {
                        Ok(node) => {
                            let ghost pp = wired@;
                            let ghost dd = deps@;
                            wired.push((checked.references[k].0.duplicate(), node));
                            deps.push(node);
                            proof {
                                assert(producers(*doc, c).take(k + 1) =~= producers(*doc, c).take(k as int).push(
                                    (refs[k as int].0, node),
                                ));
                                assert(view_ref_nodes(wired@) =~= view_ref_nodes(pp).push((refs[k as int].0, node)));
                                assert(view_ref_nodes(wired@) =~= producers(*doc, c).take(k + 1));
                                assert(deps@ =~= producers(*doc, c).take(k + 1).map_values(
                                    |q: (SpecRef, NodeId)| q.1,
                                ));
                            }
                        },
                        Err(d) => {
                            assert(false);
                        },
                    }
                    k = k + 1;
                }
                proof {
                    assert(producers(*doc, c).take(refs.len() as int) =~= producers(*doc, c));
                }
                if self.errors.len() > 0 {
                    proof {
                        assert(view_diagnostics(self.errors@).len() > 0);
                    }
                    return true;
                }
                self.nodes[index].deps = deps;
                self.nodes[index].ref_nodes = wired;
                self.nodes[index].source = ValueSource::Expression(checked);
                proof {
                    assert(self.nodes@[i]@ == resolved_view(*doc, i));
                    assert(view_diagnostics(self.errors@) =~= errors_before(*doc, i + 1));
                    assert forall|r: int| 0 <= r < cons@.len() implies view_demands((#[trigger] cons@[r])@)
                        == demands_before(*doc, i + 1, r) by {}
                    assert forall|j: int| 0 <= j < i + 1 implies #[trigger] view_nodes(self.nodes@)[j]
                        == resolved_view(*doc, j) by {
                        if j == i {
                            assert(view_nodes(self.nodes@)[j] == self.nodes@[j]@);
                        } else {
                            assert(view_nodes(self.nodes@)[j] == old_nodes[j]);
                        }
                    }
                    assert forall|j: int| i + 1 <= j < view_nodes(self.nodes@).len() implies #[trigger] view_nodes(
                        self.nodes@,
                    )[j] == skeleton(*doc)[j] by {
                        assert(view_nodes(self.nodes@)[j] == old_nodes[j]);
                    }
                    assert(crate::builder::sources_wf(self.nodes@));
                }
                false
            },
            Err(d) => {
                let mut d = d;
                if d.path.is_none() {
                    d.path = Some(self.nodes[index].path.clone());
                }
                if d.subject.is_none() {
                    d.subject = Some(self.nodes[index].subject.clone());
                }
                self.errors.push(d);
                proof {
                    assert(view_diagnostics(self.errors@) =~= errors_before(*doc, i + 1));
                    assert forall|r: int| 0 <= r < cons@.len() implies view_demands((#[trigger] cons@[r])@)
                        == demands_before(*doc, i + 1, r) by {
                        assert(demands(*doc, i, r) =~= Seq::empty());
                    }
                    assert forall|j: int| 0 <= j < i + 1 implies #[trigger] view_nodes(self.nodes@)[j]
                        == resolved_view(*doc, j) by {
                        if j == i {
                            assert(view_nodes(self.nodes@)[j] == self.nodes@[j]@);
                        }
                    }
                }
                false
            },
        }
    }
}

impl Builder {
    /// Checks every expression, wires dependency edges, and collects per
    /// parameter the dimensions its consumers demand (indexed like the
    /// parameters).
    pub fn resolve_dependencies(&mut self, doc: &AircraftDefinition) -> (r: Result<
        Vec<Vec<(Dimension, String)>>,
        Vec<Diagnostic>,
    >)
        requires
            built_from(*old(self), *doc),
            view_nodes(old(self).nodes@) == skeleton(*doc),
            crate::builder::sources_wf(old(self).nodes@),
            old(self).errors@.len() == 0,
        ensures
            final(self).param_nodes == old(self).param_nodes,
            final(self).station_nodes == old(self).station_nodes,
            final(self).component_stations == old(self).component_stations,
            r is Ok <==> resolve_errors(*doc).len() == 0,
            match r {
                Ok(cons) => {
                    &&& cons@.len() == doc.parameters@.len()
                    &&& forall|p: int|
                        0 <= p < cons@.len() ==> view_demands((#[trigger] cons@[p])@) == demands_before(
                            *doc,
                            skeleton(*doc).len() as int,
                            p,
                        )
                    &&& view_nodes(final(self).nodes@) == Seq::new(
                        skeleton(*doc).len(),
                        |i: int| resolved_view(*doc, i),
                    )
                    &&& final(self).errors@.len() == 0
                },
                Err(errors) => view_diagnostics(errors@) == resolve_errors(*doc),
            },
    {
        let ghost n = skeleton(*doc).len() as int;
        let mut cons: Vec<Vec<(Dimension, String)>> = Vec::new();
        let mut p: usize = 0;
        while p < doc.parameters.len()
            invariant
                p <= doc.parameters@.len(),
                cons@.len() == p,
                forall|q: int| 0 <= q < p ==> (#[trigger] cons@[q])@.len() == 0,
            decreases doc.parameters@.len() - p,
        {
            cons.push(Vec::new());
            p = p + 1;
        }
        proof {
            assert forall|q: int| 0 <= q < cons@.len() implies view_demands((#[trigger] cons@[q])@)
                == demands_before(*doc, 0, q) by {
                assert(view_demands(cons@[q]@) =~= Seq::empty());
            }
            assert(view_diagnostics(self.errors@) =~= errors_before(*doc, 0));
            assert(view_nodes(self.nodes@).len() == self.nodes@.len());
        }
        let mut index: usize = 0;
        while index < self.nodes.len()
            invariant
                n == skeleton(*doc).len(),
                resolving(*self, *doc, cons@, index as int),
                self.param_nodes == old(self).param_nodes,
                self.station_nodes == old(self).station_nodes,
                self.component_stations == old(self).component_stations,
            decreases n - index,
        {
            let ghost i = index as int;
            assert(view_nodes(self.nodes@)[i] == self.nodes@[i]@);
            let kind: u8 = match &self.nodes[index].source {
                ValueSource::Parameter(_) => 1,
                ValueSource::Unresolved(_) => 2,
                _ => 0,
            };
            if kind == 1 {
                self.resolve_param_node(doc, index, &mut cons);
            } else if kind == 2 {
                if self.resolve_expr_node(doc, index, &mut cons) {
                    proof {
                        assert(first_halt(*doc, i + 1) == Some(i));
                        lemma_first_halt_stable(*doc, i, n);
                    }
                    let mut out: Vec<Diagnostic> = Vec::new();
                    std::mem::swap(&mut out, &mut self.errors);
                    return Err(out);
                }
            } else {
                proof {
                    lemma_outcome_other(*doc, i);
                    assert(view_diagnostics(self.errors@) =~= errors_before(*doc, i + 1));
                    assert forall|r: int| 0 <= r < cons@.len() implies view_demands((#[trigger] cons@[r])@)
                        == demands_before(*doc, i + 1, r) by {
                        assert(demands(*doc, i, r) =~= Seq::empty());
                    }
                    assert forall|j: int| 0 <= j < i + 1 implies #[trigger] view_nodes(self.nodes@)[j]
                        == resolved_view(*doc, j) by {}
                }
            }
            index = index + 1;
        }
        proof {
            lemma_no_halt_without_errors(*doc, n);
        }
        if self.errors.len() > 0 {
            let mut out: Vec<Diagnostic> = Vec::new();
            std::mem::swap(&mut out, &mut self.errors);
            return Err(out);
        }
        proof {
            assert(view_nodes(self.nodes@) =~= Seq::new(n as nat, |i: int| resolved_view(*doc, i)));
        }
        Ok(cons)
    }
}

proof fn lemma_no_halt_without_errors(doc: AircraftDefinition, k: int)
    ensures
        errors_before(doc, k).len() == 0 ==> first_halt(doc, k) is None,
    decreases k,
{
    if k > 0 {
        lemma_no_halt_without_errors(doc, k - 1);
    }
}

fn find_param(param_nodes: &Vec<(String, NodeId)>, id: &str) -> (r: Option<usize>)
    ensures
        match r {
            Some(i) => key_index(param_nodes@, id@) == Some(i as int) && i < param_nodes@.len(),
            None => key_index(param_nodes@, id@) is None,
        },
{
    crate::builder::find_key_index_pub(param_nodes, id)
}

fn unknown_parameter_message(id: &str) -> (r: String)
    ensures
        r@ == "unknown parameter "@ + str_debug_text(id@),
{
    let mut message = String::from_str("unknown parameter ");
    message.append(str_debug(id).as_str());
    proof {
        reveal_strlit("unknown parameter ");
    }
    message
}


/// Every dependency wired by resolution names a node of the skeleton.
pub proof fn lemma_resolved_deps_in_range(doc: AircraftDefinition, i: int)
    requires
        0 <= i < skeleton(doc).len(),
    ensures
        forall|k: int|
            0 <= k < resolved_view(doc, i).deps.len() ==> (#[trigger] resolved_view(doc, i).deps[k])
                < skeleton(doc).len(),
{
    reveal(outcome);
    let v = skeleton(doc)[i];
    match outcome(doc, i) {
        Outcome::ParamOk(p) => {
            crate::builder::lemma_key_index_bound_pub(doc.parameters@, v.source->Parameter_0);
            crate::builder::lemma_skeleton_len(doc);
        },
        Outcome::Checked(c) => {
            let e = v.source->Unresolved_0;
            lemma_check_refs_resolved(e, Dim::Of(expected_of(v)), graph_answers(doc));
            assert forall|k: int| 0 <= k < resolved_view(doc, i).deps.len() implies (#[trigger] resolved_view(
                doc,
                i,
            ).deps[k]) < skeleton(doc).len() by {
                let r = c.references[k].0;
                assert(graph_answers(doc)(c.references[k].0) is Ok);
                lemma_resolved_in_range(doc, r);
            }
        },
        _ => {
            crate::builder::lemma_skeleton_fresh(doc);
        },
    }
}

} // verus!
