//! Third pass of graph construction: each parameter takes the dimension its
//! consumers demand. Conflicting demands are errors; a parameter nothing
//! consumes is a warning.
use vstd::prelude::*;
use crate::builder::{view_diagnostics, Builder};
use crate::diagnostic::{error_view, warning_view, Code, Diagnostic, DiagnosticView};
use crate::dim::Dimension;
use crate::node::{view_nodes, NodeId, NodeView};
use crate::resolve::view_demands;
use crate::text::{str_debug, str_debug_text};

verus! {

broadcast use vstd::std_specs::vec::axiom_spec_len;

pub open spec fn param_location(d: DiagnosticView, id: Seq<char>) -> DiagnosticView {
    d.with_path("parameters/"@ + id).with_subject("parameter "@ + id)
}

pub open spec fn unreferenced_warning(id: Seq<char>) -> DiagnosticView {
    param_location(
        warning_view(
            Code::UnknownReference,
            "parameter "@ + str_debug_text(id) + " is not referenced by any field"@,
        ),
        id,
    )
}

pub open spec fn conflict_error(id: Seq<char>, demanded: Dimension, consumer: Seq<char>, existing: Dimension) -> DiagnosticView {
    param_location(
        error_view(
            Code::DimensionMismatch,
            "parameter "@ + str_debug_text(id) + " is used as "@ + demanded.describe_spec() + " by "@
                + str_debug_text(consumer) + " but as "@ + existing.describe_spec() + " elsewhere"@,
        ),
        id,
    )
}

/// One error per demand that differs from the first.
pub open spec fn conflicts(id: Seq<char>, ds: Seq<(Dimension, Seq<char>)>, first: Dimension) -> Seq<DiagnosticView>
    decreases ds.len(),
{
    if ds.len() == 0 {
        Seq::empty()
    } else {
        conflicts(id, ds.drop_last(), first) + if ds.last().0 == first {
            Seq::empty()
        } else {
            seq![conflict_error(id, ds.last().0, ds.last().1, first)]
        }
    }
}

pub open spec fn param_warnings(id: Seq<char>, ds: Seq<(Dimension, Seq<char>)>) -> Seq<DiagnosticView> {
    if ds.len() == 0 {
        seq![unreferenced_warning(id)]
    } else {
        Seq::empty()
    }
}

pub open spec fn param_errors(id: Seq<char>, ds: Seq<(Dimension, Seq<char>)>) -> Seq<DiagnosticView> {
    if ds.len() == 0 {
        Seq::empty()
    } else {
        conflicts(id, ds, ds[0].0)
    }
}

/// The dimension a parameter takes: the first one demanded of it.
pub open spec fn inferred(ds: Seq<(Dimension, Seq<char>)>) -> Option<Dimension> {
    if ds.len() == 0 {
        None
    } else {
        Some(ds[0].0)
    }
}

pub open spec fn warnings_upto(ids: Seq<Seq<char>>, dss: Seq<Seq<(Dimension, Seq<char>)>>, k: int) -> Seq<DiagnosticView>
    decreases k,
{
    if k <= 0 {
        Seq::empty()
    } else {
        warnings_upto(ids, dss, k - 1) + param_warnings(ids[k - 1], dss[k - 1])
    }
}

pub open spec fn errors_upto(ids: Seq<Seq<char>>, dss: Seq<Seq<(Dimension, Seq<char>)>>, k: int) -> Seq<DiagnosticView>
    decreases k,
{
    if k <= 0 {
        Seq::empty()
    } else {
        errors_upto(ids, dss, k - 1) + param_errors(ids[k - 1], dss[k - 1])
    }
}

pub open spec fn param_ids(b: Builder) -> Seq<Seq<char>> {
    b.param_nodes@.map_values(|e: (String, NodeId)| e.0@)
}

pub open spec fn demand_lists(cons: Seq<Vec<(Dimension, String)>>) -> Seq<Seq<(Dimension, Seq<char>)>> {
    cons.map_values(|c: Vec<(Dimension, String)>| view_demands(c@))
}

fn located(d: Diagnostic, id: &str) -> (r: Diagnostic)
    ensures
        r@ == param_location(d@, id@),
{
    let mut path = String::from_str("parameters/");
    path.append(id);
    let mut subject = String::from_str("parameter ");
    subject.append(id);
    proof {
        reveal_strlit("parameters/");
        reveal_strlit("parameter ");
    }
    d.with_path(path).with_subject(subject)
}

impl Builder {
    /// Binds every parameter node to the dimension first demanded of it.
    pub fn infer_parameter_dimensions(&mut self, cons: &Vec<Vec<(Dimension, String)>>) -> (r: Result<
        Vec<Diagnostic>,
        Vec<Diagnostic>,
    >)
        requires
            cons@.len() == old(self).param_nodes@.len(),
            forall|p: int| 0 <= p < cons@.len() ==> (#[trigger] old(self).param_nodes@[p]).1 == p,
            old(self).param_nodes@.len() <= old(self).nodes@.len(),
            old(self).errors@.len() == 0,
        ensures
            final(self).param_nodes == old(self).param_nodes,
            final(self).station_nodes == old(self).station_nodes,
            final(self).component_stations == old(self).component_stations,
            final(self).nodes@.len() == old(self).nodes@.len(),
            forall|i: int|
                0 <= i < final(self).nodes@.len() ==> (#[trigger] view_nodes(final(self).nodes@)[i]) == if i
                    < cons@.len() && inferred(demand_lists(cons@)[i]) is Some {
                    NodeView { dimension: inferred(demand_lists(cons@)[i]), ..view_nodes(old(self).nodes@)[i] }
                } else {
                    view_nodes(old(self).nodes@)[i]
                },
            ({
                let ids = param_ids(*old(self));
                let dss = demand_lists(cons@);
                let errors = errors_upto(ids, dss, ids.len() as int);
                match r {
                    Ok(w) => errors.len() == 0 && view_diagnostics(w@) == warnings_upto(ids, dss, ids.len() as int),
                    Err(e) => errors.len() > 0 && view_diagnostics(e@) == errors,
                }
            }),
    {
        let ghost ids = param_ids(*self);
        let ghost dss = demand_lists(cons@);
        let ghost old_nodes = view_nodes(self.nodes@);
        let mut warnings: Vec<Diagnostic> = Vec::new();
        let mut p: usize = 0;
        assert(view_diagnostics(warnings@) =~= warnings_upto(ids, dss, 0));
        assert(view_diagnostics(self.errors@) =~= errors_upto(ids, dss, 0));
        while p < self.param_nodes.len()
            invariant
                p <= self.param_nodes@.len() == cons@.len(),
                ids == param_ids(*self),
                dss == demand_lists(cons@),
                self.param_nodes == old(self).param_nodes,
                self.station_nodes == old(self).station_nodes,
                self.component_stations == old(self).component_stations,
                forall|q: int| 0 <= q < cons@.len() ==> (#[trigger] self.param_nodes@[q]).1 == q,
                self.nodes@.len() == old_nodes.len(),
                cons@.len() <= self.nodes@.len(),
                forall|i: int|
                    0 <= i < self.nodes@.len() ==> (#[trigger] view_nodes(self.nodes@)[i]) == if i < p && inferred(
                        dss[i],
                    ) is Some {
                        NodeView { dimension: inferred(dss[i]), ..old_nodes[i] }
                    } else {
                        old_nodes[i]
                    },
                view_diagnostics(warnings@) == warnings_upto(ids, dss, p as int),
                view_diagnostics(self.errors@) == errors_upto(ids, dss, p as int),
            decreases cons@.len() - p,
        {
            let ghost ds = dss[p as int];
            let id = &self.param_nodes[p].0;
            let index = self.param_nodes[p].1;
            assert(index == p);
            let demands = &cons[p];
            assert(view_demands(demands@) == ds);
            if demands.len() == 0 {
                let mut message = String::from_str("parameter ");
                message.append(str_debug(id.as_str()).as_str());
                message.append(" is not referenced by any field");
                proof {
                    reveal_strlit("parameter ");
                    reveal_strlit(" is not referenced by any field");
                }
                let w = located(Diagnostic::warning(Code::UnknownReference, message), id.as_str());
                warnings.push(w);
                proof {
                    assert(view_diagnostics(warnings@) =~= warnings_upto(ids, dss, p + 1));
                    assert(view_diagnostics(self.errors@) =~= errors_upto(ids, dss, p + 1));
                }
            } else {
                let first = demands[0].0;
                let ghost e0 = view_diagnostics(self.errors@);
                let ghost ns = self.nodes@;
                let mut k: usize = 0;
                while k < demands.len()
                    invariant
                        k <= demands@.len(),
                        self.nodes@ == ns,
                        self.param_nodes == old(self).param_nodes,
                        self.station_nodes == old(self).station_nodes,
                        self.component_stations == old(self).component_stations,
                        p < cons@.len(),
                        index == p,
                        view_demands(demands@) == ds,
                        ds.len() > 0,
                        first == ds[0].0,
                        view_diagnostics(self.errors@) == e0 + conflicts(ids[p as int], ds.take(k as int), first),
                        ids[p as int] == id@,
                    decreases demands@.len() - k,
                {
                    proof {
                        assert(ds.take(k + 1).drop_last() =~= ds.take(k as int));
                        assert(ds[k as int] == (demands@[k as int].0, demands@[k as int].1@));
                    }
                    let demanded = demands[k].0;
                    if demanded != first {
                        let mut message = String::from_str("parameter ");
                        message.append(str_debug(id.as_str()).as_str());
                        message.append(" is used as ");
                        message.append(demanded.describe().as_str());
                        message.append(" by ");
                        message.append(str_debug(demands[k].1.as_str()).as_str());
                        message.append(" but as ");
                        message.append(first.describe().as_str());
                        message.append(" elsewhere");
                        proof {
                            reveal_strlit("parameter ");
                            reveal_strlit(" is used as ");
                            reveal_strlit(" by ");
                            reveal_strlit(" but as ");
                            reveal_strlit(" elsewhere");
                        }
                        let e = located(Diagnostic::error(Code::DimensionMismatch, message), id.as_str());
                        let ghost before = view_diagnostics(self.errors@);
                        self.errors.push(e);
                        proof {
                            assert(view_diagnostics(self.errors@) =~= before.push(e@));
                            assert(conflicts(ids[p as int], ds.take(k + 1), first) =~= conflicts(
                                ids[p as int],
                                ds.take(k as int),
                                first,
                            ).push(conflict_error(ids[p as int], demanded, ds[k as int].1, first)));
                            assert(view_diagnostics(self.errors@) =~= e0 + conflicts(
                                ids[p as int],
                                ds.take(k + 1),
                                first,
                            ));
                        }
                    } else {
                        proof {
                            assert(conflicts(ids[p as int], ds.take(k + 1), first) =~= conflicts(
                                ids[p as int],
                                ds.take(k as int),
                                first,
                            ));
                        }
                    }
                    k = k + 1;
                }
                proof {
                    assert(ds.take(ds.len() as int) =~= ds);
                    assert(view_diagnostics(self.errors@) =~= errors_upto(ids, dss, p + 1));
                    assert(view_diagnostics(warnings@) =~= warnings_upto(ids, dss, p + 1));
                }
                let ghost before_nodes = view_nodes(self.nodes@);
                self.nodes[index].dimension = Some(first);
                proof {
                    assert forall|i: int| 0 <= i < self.nodes@.len() implies (#[trigger] view_nodes(self.nodes@)[i])
                        == if i < p + 1 && inferred(dss[i]) is Some {
                        NodeView { dimension: inferred(dss[i]), ..old_nodes[i] }
                    } else {
                        old_nodes[i]
                    } by {
                        if i != p {
                            assert(view_nodes(self.nodes@)[i] == before_nodes[i]);
                        } else {
                            assert(view_nodes(self.nodes@)[i] == self.nodes@[i]@);
                            assert(before_nodes[i] == old_nodes[i]);
                        }
                    }
                }
            }
            p = p + 1;
        }
        if self.errors.len() > 0 {
            let mut out: Vec<Diagnostic> = Vec::new();
            std::mem::swap(&mut out, &mut self.errors);
            return Err(out);
        }
        Ok(warnings)
    }
}

} // verus!
