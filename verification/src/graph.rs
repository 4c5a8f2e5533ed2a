//! The typed dependency graph over an aircraft document.
//!
//! Every raw parameter and typed numeric field becomes a node; references in
//! expressions become edges. Building resolves and dimension-checks every
//! expression, infers parameter dimensions from their consumers, and rejects
//! cycles before any evaluation. The evaluation order is deterministic, and
//! re-evaluation after an edit covers exactly the descendants of the edited
//! nodes.
use vstd::prelude::*;
use crate::ast::Coordinate;
use crate::builder::{
    built_from, key_index, last_station, skeleton, skeleton_errors, station_nodes_spec, stations_recorded,
    view_diagnostics, wing_of, Builder, StationNodes,
};
use crate::diagnostic::{error_view, Code, Diagnostic, DiagnosticView, Severity};
use crate::infer::{demand_lists, errors_upto, inferred, param_ids, unreferenced_warning, warnings_upto};
use crate::model::AircraftDefinition;
use crate::node::{view_nodes, FieldKind, Node, NodeId, NodeKind, NodeKindView, NodeView};
use crate::order::{
    acyclic, build_consumers, consumer_list, consumers_in_range, consumers_spec, deps_of, descendants_of,
    dfs_finds, edges_in_range, find_cycle, is_cycle, is_evaluation_order, lemma_consumer_occurrences,
    lemma_occurrences_of_entry, lemma_occurrences_positive, reached, topological_order,
};
use crate::resolve::{demands_before, lemma_resolved_deps_in_range, resolve_errors, resolved_view};

verus! {

broadcast use vstd::std_specs::vec::axiom_spec_len;

/// The demands collected for each parameter, by parameter index.
pub open spec fn demand_table(doc: AircraftDefinition) -> Seq<Seq<(crate::dim::Dimension, Seq<char>)>> {
    Seq::new(
        doc.parameters@.len(),
        |p: int| demands_before(doc, skeleton(doc).len() as int, p),
    )
}

pub open spec fn param_id_list(doc: AircraftDefinition) -> Seq<Seq<char>> {
    doc.parameters@.map_values(|e: (String, u64)| e.0@)
}

/// The errors of dimension inference.
pub open spec fn inference_errors(doc: AircraftDefinition) -> Seq<DiagnosticView> {
    errors_upto(param_id_list(doc), demand_table(doc), doc.parameters@.len() as int)
}

/// The warnings of dimension inference: unreferenced parameters.
pub open spec fn inference_warnings(doc: AircraftDefinition) -> Seq<DiagnosticView> {
    warnings_upto(param_id_list(doc), demand_table(doc), doc.parameters@.len() as int)
}

/// The nodes of a built graph: resolved, with parameters bound to the
/// dimension first demanded of them.
pub open spec fn built_nodes(doc: AircraftDefinition) -> Seq<NodeView> {
    Seq::new(
        skeleton(doc).len(),
        |i: int|
            {
                let v = resolved_view(doc, i);
                if i < doc.parameters@.len() && inferred(demand_table(doc)[i]) is Some {
                    NodeView { dimension: inferred(demand_table(doc)[i]), ..v }
                } else {
                    v
                }
            },
    )
}

pub open spec fn view_deps(vs: Seq<NodeView>) -> Seq<Seq<NodeId>> {
    vs.map_values(|v: NodeView| v.deps)
}

/// Short names along a chain, joined by arrows.
pub open spec fn chain_text(nodes: Seq<NodeView>, c: Seq<NodeId>) -> Seq<char>
    decreases c.len(),
{
    if c.len() == 0 {
        Seq::empty()
    } else if c.len() == 1 {
        nodes[c[0] as int].short_name
    } else {
        chain_text(nodes, c.drop_last()) + " -> "@ + nodes[c.last() as int].short_name
    }
}

pub open spec fn cycle_error(nodes: Seq<NodeView>, c: Seq<NodeId>) -> DiagnosticView {
    error_view(Code::CycleDetected, "dependency cycle detected: "@ + chain_text(nodes, c))
}

/// The node of a station's field: the station is looked up by its id (a
/// later station with the same id shadows an earlier one).
pub open spec fn station_field_of(doc: AircraftDefinition, ci: int, si: int, f: FieldKind) -> Option<NodeId> {
    if 0 <= ci < doc.components@.len() && 0 <= si < wing_of(doc.components@[ci]).stations@.len() {
        let stations = wing_of(doc.components@[ci]).stations@;
        let sj = last_station(stations, stations[si].id@)->Some_0;
        let sn = station_nodes_spec(doc, ci, sj);
        match f {
            FieldKind::PositionX => Some(sn.position[0]),
            FieldKind::PositionY => Some(sn.position[1]),
            FieldKind::PositionZ => Some(sn.position[2]),
            FieldKind::Chord => Some(sn.chord),
            FieldKind::Twist => Some(sn.twist),
            _ => sn.trailing_edge,
        }
    } else {
        None
    }
}

/// A built graph. Construct with [`build`].
pub struct Graph {
    pub nodes: Vec<Node>,
    /// For each node, the indices of nodes that consume it.
    pub consumers: Vec<Vec<NodeId>>,
    /// Deterministic evaluation order (dependencies first).
    pub order: Vec<NodeId>,
    /// Parameter ids (ascending) with their nodes.
    pub param_nodes: Vec<(String, NodeId)>,
    /// Per component, per station: its field nodes.
    pub station_nodes: Vec<Vec<StationNodes>>,
    /// Per component: station ids in order.
    pub component_stations: Vec<Vec<String>>,
    /// The document the graph was built from.
    pub source: Ghost<AircraftDefinition>,
}

impl Graph {
    /// The document the graph was built from.
    pub open spec fn document(&self) -> AircraftDefinition {
        self.source@
    }

    /// The graph is the one built from its document.
    pub open spec fn wf(&self) -> bool {
        let doc = self.source@;
        &&& view_nodes(self.nodes@) == built_nodes(doc)
        &&& edges_in_range(deps_of(self.nodes@))
        &&& acyclic(deps_of(self.nodes@))
        &&& self.consumers@.len() == self.nodes@.len()
        &&& forall|d: int|
            0 <= d < self.consumers@.len() ==> (#[trigger] self.consumers@[d])@ == consumers_spec(
                deps_of(self.nodes@),
            )[d]
        &&& is_evaluation_order(self.nodes@, self.order@)
        &&& self.param_nodes@.len() == doc.parameters@.len()
        &&& forall|p: int|
            0 <= p < doc.parameters@.len() ==> (#[trigger] self.param_nodes@[p]).0@ == doc.parameters@[p].0@
                && self.param_nodes@[p].1 == p
        &&& stations_recorded(self.component_stations@, self.station_nodes@, doc, doc.components@.len() as int)
    }

    /// The wired nodes, consumer lists and evaluation order of a graph.
    pub proof fn lemma_wf_facts(&self)
        requires
            self.wf(),
        ensures
            view_nodes(self.nodes@) == built_nodes(self.document()),
            edges_in_range(deps_of(self.nodes@)),
            acyclic(deps_of(self.nodes@)),
            self.consumers@.len() == self.nodes@.len(),
            forall|d: int|
                0 <= d < self.consumers@.len() ==> (#[trigger] self.consumers@[d])@ == consumers_spec(
                    deps_of(self.nodes@),
                )[d],
            is_evaluation_order(self.nodes@, self.order@),
    {
    }

    /// The node of a parameter, if the document has it.
    pub fn parameter_node(&self, id: &str) -> (r: Option<NodeId>)
        requires
            self.wf(),
        ensures
            r == match key_index(self.document().parameters@, id@) {
                Some(p) => Some(p as NodeId),
                None => None::<NodeId>,
            },
    {
        proof {
            crate::builder::lemma_key_index_same_pub(self.param_nodes@, self.source@.parameters@, id@);
        }
        match crate::builder::find_key_index_pub(&self.param_nodes, id) {
            Some(p) => Some(self.param_nodes[p].1),
            None => None,
        }
    }

    /// The node of one typed field of a station.
    pub fn station_field_node(&self, component_index: usize, station_index: usize, field: FieldKind) -> (r:
        Option<NodeId>)
        requires
            self.wf(),
        ensures
            r == station_field_of(self.document(), component_index as int, station_index as int, field),
    {
        let ghost doc = self.source@;
        if component_index >= self.component_stations.len() {
            return None;
        }
        let stations = &self.component_stations[component_index];
        if station_index >= stations.len() {
            return None;
        }
        let ghost wing_stations = wing_of(doc.components@[component_index as int]).stations@;
        assert(stations@[station_index as int]@ == wing_stations[station_index as int].id@);
        let id = stations[station_index].as_str();
        let found = crate::builder::find_last_station_pub(stations, id, Ghost(wing_stations));
        proof {
            crate::builder::lemma_last_station_bound_pub(wing_stations, wing_stations[station_index as int].id@);
            crate::builder::lemma_last_station_found(wing_stations, station_index as int);
        }
        let sj = match found {
            Some(sj) => sj,
            None => {
                return None;
            },
        };
        assert(self.component_stations@[component_index as int]@[sj as int]@ == wing_stations[sj as int].id@);
        let nodes = self.station_nodes[component_index][sj];
        match field {
            FieldKind::PositionX => Some(nodes.position[0]),
            FieldKind::PositionY => Some(nodes.position[1]),
            FieldKind::PositionZ => Some(nodes.position[2]),
            FieldKind::Chord => Some(nodes.chord),
            FieldKind::Twist => Some(nodes.twist),
            FieldKind::TrailingEdgeThickness | FieldKind::TrailingEdgeFraction => nodes.trailing_edge,
        }
    }

    /// The node of one coordinate (0, 1, 2 for x, y, z) of a component's
    /// frame origin: the first such node.
    pub fn frame_origin_node(&self, component_index: usize, axis: usize) -> (r: Option<NodeId>)
        ensures
            match r {
                Some(i) => i < self.nodes@.len() && axis < 3 && self.nodes@[i as int].kind@ == frame_kind(component_index, axis) && forall|j: int|
                    0 <= j < i ==> self.nodes@[j].kind@ != frame_kind(component_index, axis),
                None => axis >= 3 || forall|j: int|
                    0 <= j < self.nodes@.len() ==> self.nodes@[j].kind@ != frame_kind(component_index, axis),
            },
    {
        let coordinate = if axis == 0 {
            Coordinate::X
        } else if axis == 1 {
            Coordinate::Y
        } else if axis == 2 {
            Coordinate::Z
        } else {
            return None;
        };
        let mut i: usize = 0;
        while i < self.nodes.len()
            invariant
                i <= self.nodes@.len(),
                axis < 3,
                coordinate == axis_coordinate(axis),
                forall|j: int|
                    0 <= j < i ==> self.nodes@[j].kind@ != frame_kind(component_index, axis),
            decreases self.nodes@.len() - i,
        {
            match &self.nodes[i].kind {
                NodeKind::FrameOrigin { component_index: c, coordinate: k } => {
                    if *c == component_index && *k == coordinate {
                        return Some(i);
                    }
                },
                _ => {},
            }
            i = i + 1;
        }
        None
    }

    /// All nodes transitively consumed by `seeds`, including the seeds
    /// themselves, ascending.
    pub fn descendants(&self, seeds: &[NodeId]) -> (r: Vec<NodeId>)
        requires
            self.wf(),
            forall|i: int| 0 <= i < seeds@.len() ==> (#[trigger] seeds@[i]) < self.nodes@.len(),
        ensures
            forall|i: int, j: int| 0 <= i < j < r@.len() ==> r@[i] < r@[j],
            forall|v: NodeId|
                #[trigger] r@.contains(v) <==> (v < self.nodes@.len() && reached(
                    consumers_spec(deps_of(self.nodes@)),
                    seeds@,
                    v,
                )),
    {
        proof {
            let cons = self.consumers@.map_values(|c: Vec<NodeId>| c@);
            assert(cons =~= consumers_spec(deps_of(self.nodes@)));
            assert(deps_of(self.nodes@).len() == self.nodes@.len());
            assert(self.nodes@.len() == self.nodes.len());
            crate::order::lemma_consumers_in_range(deps_of(self.nodes@));
        }
        descendants_of(&self.consumers, seeds)
    }
}

pub open spec fn frame_kind(component_index: usize, axis: usize) -> NodeKindView {
    NodeKindView::FrameOrigin { component_index, coordinate: axis_coordinate(axis) }
}

pub open spec fn axis_coordinate(axis: usize) -> Coordinate {
    if axis == 0 {
        Coordinate::X
    } else if axis == 1 {
        Coordinate::Y
    } else {
        Coordinate::Z
    }
}


/// A document whose graph builds: no syntax, reference, dimension or
/// cycle error.
pub open spec fn build_succeeds(doc: AircraftDefinition) -> bool {
    &&& skeleton_errors(doc).len() == 0
    &&& resolve_errors(doc).len() == 0
    &&& inference_errors(doc).len() == 0
    &&& acyclic(view_deps(built_nodes(doc)))
}

/// The errors a failing build reports: those of the first phase that
/// fails; for a cycle, one error naming the cycle that the depth-first
/// search from the lowest unvisited node finds (see [`dfs_finds`]; by
/// [`crate::order::law_dfs_outcome_unique`] there is only one).
pub open spec fn build_failure(doc: AircraftDefinition, errors: Seq<DiagnosticView>) -> bool {
    if skeleton_errors(doc).len() > 0 {
        errors == skeleton_errors(doc)
    } else if resolve_errors(doc).len() > 0 {
        errors == resolve_errors(doc)
    } else if inference_errors(doc).len() > 0 {
        errors == inference_errors(doc)
    } else {
        exists|c: Seq<NodeId>|
            is_cycle(view_deps(built_nodes(doc)), c) && dfs_finds(view_deps(built_nodes(doc)), c) && errors
                == seq![cycle_error(built_nodes(doc), c)]
    }
}

/// Short names of the nodes along a chain, joined by arrows.
pub fn cycle_chain(nodes: &Vec<Node>, cycle: &Vec<NodeId>) -> (r: String)
    requires
        forall|i: int| 0 <= i < cycle@.len() ==> (#[trigger] cycle@[i]) < nodes@.len(),
    ensures
        r@ == chain_text(view_nodes(nodes@), cycle@),
{
    let ghost vs = view_nodes(nodes@);
    let mut out = String::new();
    let mut i: usize = 0;
    proof {
        assert(cycle@.take(0) =~= Seq::<NodeId>::empty());
    }
    while i < cycle.len()
        invariant
            i <= cycle@.len(),
            vs == view_nodes(nodes@),
            forall|j: int| 0 <= j < cycle@.len() ==> (#[trigger] cycle@[j]) < nodes@.len(),
            out@ == chain_text(vs, cycle@.take(i as int)),
        decreases cycle@.len() - i,
    {
        let node = cycle[i];
        assert(vs[node as int] == nodes@[node as int]@);
        if i > 0 {
            out.append(" -> ");
        }
        out.append(nodes[node].short_name.as_str());
        proof {
            reveal_strlit(" -> ");
            let t = cycle@.take(i + 1);
            assert(t.drop_last() =~= cycle@.take(i as int));
            assert(t.last() == node);
            if i == 0 {
                assert(t =~= seq![node]);
            }
        }
        i = i + 1;
    }
    assert(cycle@.take(cycle@.len() as int) =~= cycle@);
    out
}

/// Builds the graph of a document. Errors come from the first phase that
/// fails: field syntax, references and checks, parameter dimensions, then
/// cycles. Unreferenced parameters come back as warnings.
pub fn build(doc: &AircraftDefinition) -> (r: Result<(Graph, Vec<Diagnostic>), Vec<Diagnostic>>)
    ensures
        match r {
            Ok((g, warnings)) => {
                &&& build_succeeds(*doc)
                &&& g.wf()
                &&& g.document() == *doc
                &&& view_diagnostics(warnings@) == inference_warnings(*doc)
            },
            Err(errors) => !build_succeeds(*doc) && build_failure(*doc, view_diagnostics(errors@)),
        },
{
    let mut builder = Builder::new();
    builder.create_nodes(doc);
    if builder.errors.len() > 0 {
        let mut out: Vec<Diagnostic> = Vec::new();
        std::mem::swap(&mut out, &mut builder.errors);
        return Err(out);
    }
    assert(view_diagnostics(builder.errors@).len() == 0);
    let ghost n = skeleton(*doc).len() as int;
    let ghost pids = param_id_list(*doc);
    let cons = match builder.resolve_dependencies(doc) {
        Ok(cons) => cons,
        Err(errors) => {
            return Err(errors);
        },
    };
    proof {
        assert(param_ids(builder) =~= pids);
        assert(demand_lists(cons@) =~= demand_table(*doc));
        assert(view_nodes(builder.nodes@).len() == builder.nodes@.len());
        crate::builder::lemma_skeleton_len(*doc);
    }
    let ghost resolved = builder.nodes@;
    let warnings = match builder.infer_parameter_dimensions(&cons) {
        Ok(warnings) => warnings,
        Err(errors) => {
            return Err(errors);
        },
    };
    proof {
        assert(view_nodes(builder.nodes@) =~= built_nodes(*doc));
        assert forall|v: int, k: int|
            0 <= v < deps_of(builder.nodes@).len() && 0 <= k < deps_of(builder.nodes@)[v].len()
                implies #[trigger] deps_of(builder.nodes@)[v][k] < deps_of(builder.nodes@).len() by {
            assert(deps_of(builder.nodes@)[v] == view_nodes(builder.nodes@)[v].deps);
            lemma_resolved_deps_in_range(*doc, v);
        }
        assert(deps_of(builder.nodes@) =~= view_deps(built_nodes(*doc)));
    }
    match find_cycle(&builder.nodes) {
        Some(cycle) => {
            let mut message = String::from_str("dependency cycle detected: ");
            let chain = cycle_chain(&builder.nodes, &cycle);
            message.append(chain.as_str());
            proof {
                reveal_strlit("dependency cycle detected: ");
                crate::order::law_cycle_excludes_order(deps_of(builder.nodes@), cycle@);
            }
            let mut out: Vec<Diagnostic> = Vec::new();
            out.push(Diagnostic::error(Code::CycleDetected, message));
            proof {
                assert(view_diagnostics(out@) =~= seq![cycle_error(built_nodes(*doc), cycle@)]);
            }
            return Err(out);
        },
        None => {},
    }
    let order = topological_order(&builder.nodes);
    let consumers = build_consumers(&builder.nodes);
    let Builder { nodes, param_nodes, station_nodes, component_stations, errors } = builder;
    let graph = Graph {
        nodes,
        consumers,
        order,
        param_nodes,
        station_nodes,
        component_stations,
        source: Ghost(*doc),
    };
    Ok((graph, warnings))
}


/// In a built graph the evaluation order lists every node exactly once,
/// each after all the nodes it depends on.
pub proof fn law_graph_order(g: Graph)
    requires
        g.wf(),
    ensures
        forall|v: NodeId| v < g.nodes@.len() ==> #[trigger] g.order@.contains(v),
        forall|i: int, j: int| 0 <= i < j < g.order@.len() ==> g.order@[i] != g.order@[j],
        forall|k: int, d: int|
            0 <= k < g.order@.len() && 0 <= d < deps_of(g.nodes@)[g.order@[k] as int].len() ==> g.order@.take(
                k,
            ).contains(#[trigger] deps_of(g.nodes@)[g.order@[k] as int][d]),
{
    crate::order::law_order_complete(g.nodes@, g.order@);
    crate::order::law_order_dependencies_first(g.nodes@, g.order@);
}

/// In a built graph the consumer lists invert the dependency lists: `n`
/// consumes `d` exactly when `d` is among `n`'s dependencies.
pub proof fn law_graph_consumers(g: Graph)
    requires
        g.wf(),
    ensures
        forall|n: NodeId, d: NodeId|
            n < g.nodes@.len() && d < g.nodes@.len() ==> (#[trigger] g.consumers@[d as int]@.contains(n)
                <==> #[trigger] g.nodes@[n as int].deps@.contains(d)),
{
    let deps = deps_of(g.nodes@);
    assert(g.nodes@.len() == g.nodes.len());
    assert forall|n: NodeId, d: NodeId|
        n < g.nodes@.len() && d < g.nodes@.len() implies (#[trigger] g.consumers@[d as int]@.contains(n)
            <==> #[trigger] g.nodes@[n as int].deps@.contains(d)) by {
        assert(deps[n as int] == g.nodes@[n as int].deps@);
        assert(g.consumers@[d as int]@ == consumer_list(deps, deps.len() as int, d as int));
        lemma_consumer_occurrences(deps, deps.len() as int, d as int, n as int);
        if g.consumers@[d as int]@.contains(n) {
            let i = choose|i: int| 0 <= i < g.consumers@[d as int]@.len() && g.consumers@[d as int]@[i] == n;
            lemma_occurrences_of_entry(g.consumers@[d as int]@, i);
            lemma_occurrences_positive(deps[n as int], d as int);
        }
        if g.nodes@[n as int].deps@.contains(d) {
            let i = choose|i: int| 0 <= i < deps[n as int].len() && deps[n as int][i] == d;
            lemma_occurrences_of_entry(deps[n as int], i);
            lemma_occurrences_positive(g.consumers@[d as int]@, n as int);
        }
    }
}

/// The parameters that no field references, in parameter order.
pub open spec fn unreferenced_parameters(doc: AircraftDefinition) -> Seq<int> {
    Seq::new(doc.parameters@.len(), |p: int| p).filter(|p: int| demand_table(doc)[p].len() == 0)
}

proof fn lemma_warnings_prefix(doc: AircraftDefinition, k: int)
    requires
        0 <= k <= doc.parameters@.len(),
    ensures
        warnings_upto(param_id_list(doc), demand_table(doc), k) == Seq::new(k as nat, |p: int| p).filter(
            |p: int| demand_table(doc)[p].len() == 0,
        ).map_values(|p: int| unreferenced_warning(param_id_list(doc)[p])),
    decreases k,
{
    reveal(Seq::filter);
    let pred = |p: int| demand_table(doc)[p].len() == 0;
    let f = |p: int| unreferenced_warning(param_id_list(doc)[p]);
    if k > 0 {
        lemma_warnings_prefix(doc, k - 1);
        let all = Seq::new(k as nat, |p: int| p);
        assert(all.drop_last() =~= Seq::new((k - 1) as nat, |p: int| p));
        assert(all.last() == k - 1);
        let before = Seq::new((k - 1) as nat, |p: int| p).filter(pred);
        if pred(k - 1) {
            assert(all.filter(pred) == before.push(k - 1));
            assert(all.filter(pred).map_values(f) =~= before.map_values(f).push(f(k - 1)));
        } else {
            assert(all.filter(pred) == before);
        }
        assert(warnings_upto(param_id_list(doc), demand_table(doc), k) =~= all.filter(pred).map_values(f));
    } else {
        assert(Seq::new(0, |p: int| p).filter(pred) =~= Seq::<int>::empty());
        assert(Seq::<int>::empty().map_values(f) =~= Seq::<DiagnosticView>::empty());
    }
}

/// A successful build warns once per parameter that no field references, in
/// parameter order, and about nothing else.
pub proof fn law_build_warnings(doc: AircraftDefinition)
    ensures
        inference_warnings(doc) == unreferenced_parameters(doc).map_values(
            |p: int| unreferenced_warning(param_id_list(doc)[p]),
        ),
        forall|i: int|
            0 <= i < inference_warnings(doc).len() ==> (#[trigger] inference_warnings(doc)[i]).severity
                == Severity::Warning,
{
    lemma_warnings_prefix(doc, doc.parameters@.len() as int);
}

} // verus!
