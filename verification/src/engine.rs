//! Engine logic independent of geometry: patches and how they edit a
//! document, the seeds an edit starts re-evaluation from, transaction and
//! job results, and tracing a mesh triangle back to its source.
use vstd::prelude::*;
use crate::builder::{key_index, view_diagnostics, wing_of};
use crate::diagnostic::{error_view, has_error, Code, Diagnostic, DiagnosticView};
use crate::graph::{build, build_failure, build_succeeds, inference_warnings, station_field_of, Graph};
use crate::order::{consumers_spec, deps_of, reached};
use crate::semantic::{validate, validate_spec};
use crate::model::{
    has_key, insert_sorted, keys_ascend, AircraftDefinition, Component, Station, StationTangency, TrailingEdge,
    TypedValue, Wing,
};
use crate::node::{view_nodes, FieldKind, NodeId};
use crate::mesh::FaceSource;
use crate::text::{append_nat, is_alnum_spec, is_lower_spec, seq_of_nat, str_debug, str_debug_text};

verus! {

broadcast use vstd::std_specs::vec::axiom_spec_len;

#[derive(Debug, Clone, Copy, PartialEq, Eq, Structural)]
pub struct TransactionId(pub u64);

/// A source edit offered to the engine. Numbers are binary64 bit patterns.
#[derive(Debug)]
pub enum Patch {
    SetParameter { id: String, value: u64 },
    /// Create a named raw scalar; its dimension is inferred from the first
    /// field that consumes it.
    AddParameter { id: String, value: u64 },
    /// Set or clear a station's leading-edge tangency.
    SetStationTangency { component_index: usize, station_index: usize, tangency: Option<StationTangency> },
    SetStationField { component_index: usize, station_index: usize, field: FieldKind, value: TypedValue },
}

#[derive(Debug)]
pub struct UpdateResult {
    pub transaction: TransactionId,
    pub committed: bool,
    pub revision: u64,
    pub diagnostics: Vec<Diagnostic>,
    /// Subjects of the graph nodes affected by the committed patch.
    pub affected: Vec<String>,
}

#[derive(Debug)]
pub enum MeshJobError {
    Cancelled,
    Stale { current: u64, expected: u64 },
    Failed(Vec<Diagnostic>),
}

pub open spec fn unknown_component_spec(component_index: nat) -> DiagnosticView {
    error_view(
        Code::UnknownReference,
        "component index "@ + seq_of_nat(component_index) + " is outside the document"@,
    )
}

pub fn unknown_component(component_index: usize) -> (r: Diagnostic)
    ensures
        r@ == unknown_component_spec(component_index as nat),
{
    let mut message = String::from_str("component index ");
    append_nat(&mut message, component_index as u64);
    message.append(" is outside the document");
    proof {
        reveal_strlit("component index ");
        reveal_strlit(" is outside the document");
    }
    Diagnostic::error(Code::UnknownReference, message)
}

/// The schema's parameter id pattern: a lowercase ASCII letter, then ASCII
/// letters, digits, `.`, `_` and `-`.
pub open spec fn valid_parameter_id(id: Seq<char>) -> bool {
    &&& id.len() > 0
    &&& is_lower_spec(id[0])
    &&& forall|i: int| 1 <= i < id.len() ==> is_alnum_spec(#[trigger] id[i]) || id[i] == '.' || id[i] == '_' || id[i] == '-'
}

pub fn is_valid_parameter_id(id: &str) -> (r: bool)
    ensures
        r == valid_parameter_id(id@),
{
    let chars = crate::text::chars_of(id);
    if chars.len() == 0 || !('a' <= chars[0] && chars[0] <= 'z') {
        return false;
    }
    let mut i: usize = 1;
    while i < chars.len()
        invariant
            1 <= i <= chars@.len(),
            chars@ == id@,
            forall|k: int| 1 <= k < i ==> is_alnum_spec(#[trigger] chars@[k]) || chars@[k] == '.' || chars@[k] == '_'
                || chars@[k] == '-',
        decreases chars@.len() - i,
    {
        let c = chars[i];
        if !(crate::text::is_alnum(c) || c == '.' || c == '_' || c == '-') {
            return false;
        }
        i = i + 1;
    }
    true
}


/// `b` is `a` except, at most, for station `si` of component `ci`.
pub open spec fn only_station_differs(a: AircraftDefinition, b: AircraftDefinition, ci: int, si: int) -> bool {
    &&& b.schema == a.schema
    &&& b.id == a.id
    &&& b.name == a.name
    &&& b.units == a.units
    &&& b.unit_system_locked == a.unit_system_locked
    &&& b.coordinate_system == a.coordinate_system
    &&& b.parameters == a.parameters
    &&& b.airfoils == a.airfoils
    &&& b.analysis_cases == a.analysis_cases
    &&& b.components@.len() == a.components@.len()
    &&& forall|c: int| 0 <= c < a.components@.len() && c != ci ==> #[trigger] b.components@[c] == a.components@[c]
    &&& ({
        let wa = wing_of(a.components@[ci]);
        let wb = wing_of(b.components@[ci]);
        &&& wb.id == wa.id
        &&& wb.role == wa.role
        &&& wb.frame == wa.frame
        &&& wb.symmetry == wa.symmetry
        &&& wb.interfaces == wa.interfaces
        &&& wb.stations@.len() == wa.stations@.len()
        &&& forall|s: int| 0 <= s < wa.stations@.len() && s != si ==> #[trigger] wb.stations@[s] == wa.stations@[s]
    })
}

/// `b` is `a` except, at most, for the parameter values and their set.
pub open spec fn only_parameters_differ(a: AircraftDefinition, b: AircraftDefinition) -> bool {
    &&& b.schema == a.schema
    &&& b.id == a.id
    &&& b.name == a.name
    &&& b.units == a.units
    &&& b.unit_system_locked == a.unit_system_locked
    &&& b.coordinate_system == a.coordinate_system
    &&& b.airfoils == a.airfoils
    &&& b.components == a.components
    &&& b.analysis_cases == a.analysis_cases
}

pub open spec fn station_of(doc: AircraftDefinition, ci: int, si: int) -> Station {
    wing_of(doc.components@[ci]).stations@[si]
}

/// The station's typed field `f` holds `v`; everything else is as in `a`.
pub open spec fn field_set(a: Station, b: Station, f: FieldKind, v: TypedValue) -> bool {
    &&& b.id == a.id
    &&& b.airfoil == a.airfoil
    &&& b.tangency == a.tangency
    &&& (if f == FieldKind::PositionX { b.position.x.same(v) } else { b.position.x == a.position.x })
    &&& (if f == FieldKind::PositionY { b.position.y.same(v) } else { b.position.y == a.position.y })
    &&& (if f == FieldKind::PositionZ { b.position.z.same(v) } else { b.position.z == a.position.z })
    &&& (if f == FieldKind::Chord { b.chord.same(v) } else { b.chord == a.chord })
    &&& (if f == FieldKind::Twist { b.twist.same(v) } else { b.twist == a.twist })
    &&& (if f == FieldKind::TrailingEdgeThickness {
        b.trailing_edge matches Some(TrailingEdge::Absolute { thickness }) && thickness.same(v)
    } else if f == FieldKind::TrailingEdgeFraction {
        b.trailing_edge matches Some(TrailingEdge::ChordFraction { value }) && value.same(v)
    } else {
        b.trailing_edge == a.trailing_edge
    })
}

pub open spec fn station_index_error(si: nat) -> DiagnosticView {
    error_view(Code::UnknownReference, "station index "@ + seq_of_nat(si) + " is outside the wing"@)
}

/// Whether a field edit is refused for a station's trailing-edge mode.
pub open spec fn field_mode_error(st: Station, f: FieldKind) -> Option<DiagnosticView> {
    if f == FieldKind::TrailingEdgeThickness && !(st.trailing_edge matches Some(TrailingEdge::Absolute { .. })) {
        Some(error_view(Code::InvalidTrailingEdge, "station's trailing edge is not in absolute mode"@))
    } else if f == FieldKind::TrailingEdgeFraction && !(st.trailing_edge matches Some(
        TrailingEdge::ChordFraction { .. },
    )) {
        Some(error_view(Code::InvalidTrailingEdge, "station's trailing edge is not in chord-fraction mode"@))
    } else {
        None
    }
}

/// Where a station edit goes wrong, if anywhere.
pub open spec fn station_target_error(doc: AircraftDefinition, ci: int, si: int) -> Option<DiagnosticView> {
    if ci >= doc.components@.len() {
        Some(unknown_component_spec(ci as nat))
    } else if si >= wing_of(doc.components@[ci]).stations@.len() {
        Some(station_index_error(si as nat))
    } else {
        None
    }
}

/// Parameter entries as plain values.
pub open spec fn param_entries(v: Seq<(String, u64)>) -> Seq<(Seq<char>, u64)> {
    v.map_values(|e: (String, u64)| (e.0@, e.1))
}

pub open spec fn parameter_path(id: Seq<char>) -> Seq<char> {
    "parameters/"@ + id
}

fn station_index_diagnostic(si: usize) -> (r: Diagnostic)
    ensures
        r@ == station_index_error(si as nat),
{
    let mut message = String::from_str("station index ");
    append_nat(&mut message, si as u64);
    message.append(" is outside the wing");
    proof {
        reveal_strlit("station index ");
        reveal_strlit(" is outside the wing");
    }
    Diagnostic::error(Code::UnknownReference, message)
}

/// Applies a patch's mutation to a candidate document (no validation).
/// On error the document is left as it was.
pub fn apply_to_document(doc: &mut AircraftDefinition, patch: &Patch) -> (r: Result<(), Diagnostic>)
    requires
        old(doc).wf(),
    ensures
        final(doc).wf(),
        match patch {
            Patch::SetParameter { id, value } => if !has_key(old(doc).parameters@, id@) {
                r matches Err(d) && d@ == error_view(
                    Code::UnknownReference,
                    "unknown parameter "@ + str_debug_text(id@),
                ).with_path(parameter_path(id@)) && *final(doc) == *old(doc)
            } else {
                r is Ok && only_parameters_differ(*old(doc), *final(doc)) && final(doc).parameters@.len()
                    == old(doc).parameters@.len() && forall|p: int|
                    0 <= p < old(doc).parameters@.len() ==> #[trigger] final(doc).parameters@[p] == if old(
                        doc,
                    ).parameters@[p].0@ == id@ {
                        (old(doc).parameters@[p].0, *value)
                    } else {
                        old(doc).parameters@[p]
                    }
            },
            Patch::AddParameter { id, value } => if !valid_parameter_id(id@) {
                r matches Err(d) && d@ == error_view(
                    Code::SchemaViolation,
                    "parameter id "@ + str_debug_text(id@)
                        + " must start with a lowercase letter and use only letters, digits, '.', '_' and '-'"@,
                ).with_path(parameter_path(id@)) && *final(doc) == *old(doc)
            } else if has_key(old(doc).parameters@, id@) {
                r matches Err(d) && d@ == error_view(
                    Code::DuplicateIdentifier,
                    "parameter "@ + str_debug_text(id@) + " already exists"@,
                ).with_path(parameter_path(id@)) && *final(doc) == *old(doc)
            } else {
                r is Ok && only_parameters_differ(*old(doc), *final(doc)) && exists|p: int|
                    0 <= p <= old(doc).parameters@.len() && param_entries(final(doc).parameters@)
                        == #[trigger] param_entries(old(doc).parameters@).insert(p, (id@, *value))
            },
            Patch::SetStationTangency { component_index, station_index, tangency } => match station_target_error(
                *old(doc),
                *component_index as int,
                *station_index as int,
            ) {
                Some(e) => r matches Err(d) && d@ == e && *final(doc) == *old(doc),
                None => {
                    &&& r is Ok
                    &&& only_station_differs(*old(doc), *final(doc), *component_index as int, *station_index as int)
                    &&& ({
                        let (a, b) = (
                            station_of(*old(doc), *component_index as int, *station_index as int),
                            station_of(*final(doc), *component_index as int, *station_index as int),
                        );
                        b.id == a.id && b.position == a.position && b.chord == a.chord && b.twist == a.twist
                            && b.airfoil == a.airfoil && b.trailing_edge == a.trailing_edge
                            && b.tangency == *tangency
                    })
                },
            },
            Patch::SetStationField { component_index, station_index, field, value } => match station_target_error(
                *old(doc),
                *component_index as int,
                *station_index as int,
            ) {
                Some(e) => r matches Err(d) && d@ == e && *final(doc) == *old(doc),
                None => match field_mode_error(
                    station_of(*old(doc), *component_index as int, *station_index as int),
                    *field,
                ) {
                    Some(e) => r matches Err(d) && d@ == e && *final(doc) == *old(doc),
                    None => {
                        &&& r is Ok
                        &&& only_station_differs(*old(doc), *final(doc), *component_index as int, *station_index as int)
                        &&& field_set(
                            station_of(*old(doc), *component_index as int, *station_index as int),
                            station_of(*final(doc), *component_index as int, *station_index as int),
                            *field,
                            *value,
                        )
                    },
                },
            },
        },
{
    match patch {
        Patch::SetParameter { id, value } => set_parameter(doc, id, *value),
        Patch::AddParameter { id, value } => add_parameter(doc, id, *value),
        Patch::SetStationTangency { component_index, station_index, tangency } => set_station_tangency(
            doc,
            *component_index,
            *station_index,
            *tangency,
        ),
        Patch::SetStationField { component_index, station_index, field, value } => set_station_field(
            doc,
            *component_index,
            *station_index,
            *field,
            value,
        ),
    }
}


fn set_parameter(doc: &mut AircraftDefinition, id: &String, value: u64) -> (r: Result<(), Diagnostic>)
    requires
        old(doc).wf(),
    ensures
        final(doc).wf(),
        if !has_key(old(doc).parameters@, id@) {
            r matches Err(d) && d@ == error_view(Code::UnknownReference, "unknown parameter "@ + str_debug_text(id@)).with_path(
                parameter_path(id@),
            ) && *final(doc) == *old(doc)
        } else {
            r is Ok && only_parameters_differ(*old(doc), *final(doc)) && final(doc).parameters@.len()
                == old(doc).parameters@.len() && forall|p: int|
                0 <= p < old(doc).parameters@.len() ==> #[trigger] final(doc).parameters@[p] == if old(doc).parameters@[p].0@
                    == id@ {
                    (old(doc).parameters@[p].0, value)
                } else {
                    old(doc).parameters@[p]
                }
        },
{
    match crate::model::find_key(&doc.parameters, id.as_str()) {
        None => {
            let mut message = String::from_str("unknown parameter ");
            message.append(str_debug(id.as_str()).as_str());
            let mut path = String::from_str("parameters/");
            path.append(id.as_str());
            proof {
                reveal_strlit("unknown parameter ");
                reveal_strlit("parameters/");
            }
            Err(Diagnostic::error(Code::UnknownReference, message).with_path(path))
        },
        Some(p) => {
            let ghost before = doc.parameters@;
            proof {
                assert(has_key(before, id@));
            }
            doc.parameters[p].1 = value;
            proof {
                assert forall|q: int| 0 <= q < before.len() implies #[trigger] doc.parameters@[q] == if before[q].0@ == id@ {
                    (before[q].0, value)
                } else {
                    before[q]
                } by {
                    if before[q].0@ == id@ {
                        crate::model::lemma_key_unique(before, q, p as int);
                    }
                }
                assert forall|i: int, j: int|
                    0 <= i < j < doc.parameters@.len() implies crate::text::seq_less(
                    #[trigger] doc.parameters@[i].0@,
                    #[trigger] doc.parameters@[j].0@,
                ) by {
                    assert(doc.parameters@[i].0 == before[i].0);
                    assert(doc.parameters@[j].0 == before[j].0);
                }
            }
            Ok(())
        },
    }
}

fn add_parameter(doc: &mut AircraftDefinition, id: &String, value: u64) -> (r: Result<(), Diagnostic>)
    requires
        old(doc).wf(),
    ensures
        final(doc).wf(),
        if !valid_parameter_id(id@) {
            r matches Err(d) && d@ == error_view(
                Code::SchemaViolation,
                "parameter id "@ + str_debug_text(id@)
                    + " must start with a lowercase letter and use only letters, digits, '.', '_' and '-'"@,
            ).with_path(parameter_path(id@)) && *final(doc) == *old(doc)
        } else if has_key(old(doc).parameters@, id@) {
            r matches Err(d) && d@ == error_view(
                Code::DuplicateIdentifier,
                "parameter "@ + str_debug_text(id@) + " already exists"@,
            ).with_path(parameter_path(id@)) && *final(doc) == *old(doc)
        } else {
            r is Ok && only_parameters_differ(*old(doc), *final(doc)) && exists|p: int|
                0 <= p <= old(doc).parameters@.len() && param_entries(final(doc).parameters@)
                    == #[trigger] param_entries(old(doc).parameters@).insert(p, (id@, value))
        },
{
    let mut path = String::from_str("parameters/");
    path.append(id.as_str());
    proof {
        reveal_strlit("parameters/");
    }
    if !is_valid_parameter_id(id.as_str()) {
        let mut message = String::from_str("parameter id ");
        message.append(str_debug(id.as_str()).as_str());
        message.append(" must start with a lowercase letter and use only letters, digits, '.', '_' and '-'");
        proof {
            reveal_strlit("parameter id ");
            reveal_strlit(" must start with a lowercase letter and use only letters, digits, '.', '_' and '-'");
        }
        return Err(Diagnostic::error(Code::SchemaViolation, message).with_path(path));
    }
    if crate::model::find_key(&doc.parameters, id.as_str()).is_some() {
        let mut message = String::from_str("parameter ");
        message.append(str_debug(id.as_str()).as_str());
        message.append(" already exists");
        proof {
            reveal_strlit("parameter ");
            reveal_strlit(" already exists");
        }
        return Err(Diagnostic::error(Code::DuplicateIdentifier, message).with_path(path));
    }
    let ghost before = doc.parameters@;
    let key = id.clone();
    let ghost key_value = key;
    let inserted = insert_sorted(&mut doc.parameters, key, value);
    proof {
        let p = choose|p: int| 0 <= p <= before.len() && doc.parameters@ == before.insert(p, (key_value, value));
        assert(param_entries(doc.parameters@) =~= param_entries(before).insert(p, (id@, value)));
    }
    Ok(())
}

fn set_station_tangency(
    doc: &mut AircraftDefinition,
    ci: usize,
    si: usize,
    tangency: Option<StationTangency>,
) -> (r: Result<(), Diagnostic>)
    requires
        old(doc).wf(),
    ensures
        final(doc).wf(),
        match station_target_error(*old(doc), ci as int, si as int) {
            Some(e) => r matches Err(d) && d@ == e && *final(doc) == *old(doc),
            None => {
                &&& r is Ok
                &&& only_station_differs(*old(doc), *final(doc), ci as int, si as int)
                &&& ({
                    let (a, b) = (station_of(*old(doc), ci as int, si as int), station_of(*final(doc), ci as int, si as int));
                    b.id == a.id && b.position == a.position && b.chord == a.chord && b.twist == a.twist
                        && b.airfoil == a.airfoil && b.trailing_edge == a.trailing_edge && b.tangency == tangency
                })
            },
        },
{
    if ci >= doc.components.len() {
        return Err(unknown_component(ci));
    }
    let count = match &doc.components[ci] {
        Component::Wing(wing) => wing.stations.len(),
    };
    if si >= count {
        return Err(station_index_diagnostic(si));
    }
    match &mut doc.components[ci] {
        Component::Wing(wing) => {
            wing.stations[si].tangency = tangency;
        },
    }
    Ok(())
}


fn set_station_field(
    doc: &mut AircraftDefinition,
    ci: usize,
    si: usize,
    field: FieldKind,
    value: &TypedValue,
) -> (r: Result<(), Diagnostic>)
    requires
        old(doc).wf(),
    ensures
        final(doc).wf(),
        match station_target_error(*old(doc), ci as int, si as int) {
            Some(e) => r matches Err(d) && d@ == e && *final(doc) == *old(doc),
            None => match field_mode_error(station_of(*old(doc), ci as int, si as int), field) {
                Some(e) => r matches Err(d) && d@ == e && *final(doc) == *old(doc),
                None => {
                    &&& r is Ok
                    &&& only_station_differs(*old(doc), *final(doc), ci as int, si as int)
                    &&& field_set(
                        station_of(*old(doc), ci as int, si as int),
                        station_of(*final(doc), ci as int, si as int),
                        field,
                        *value,
                    )
                },
            },
        },
{
    if ci >= doc.components.len() {
        return Err(unknown_component(ci));
    }
    let (count, mode_ok) = match &doc.components[ci] {
        Component::Wing(wing) => {
            let count = wing.stations.len();
            let ok = if si < count {
                match field {
                    FieldKind::TrailingEdgeThickness => matches!(
                        wing.stations[si].trailing_edge,
                        Some(TrailingEdge::Absolute { .. })
                    ),
                    FieldKind::TrailingEdgeFraction => matches!(
                        wing.stations[si].trailing_edge,
                        Some(TrailingEdge::ChordFraction { .. })
                    ),
                    _ => true,
                }
            } else {
                true
            };
            (count, ok)
        },
    };
    if si >= count {
        return Err(station_index_diagnostic(si));
    }
    if !mode_ok {
        let message = if field == FieldKind::TrailingEdgeThickness {
            String::from_str("station's trailing edge is not in absolute mode")
        } else {
            String::from_str("station's trailing edge is not in chord-fraction mode")
        };
        return Err(Diagnostic::error(Code::InvalidTrailingEdge, message));
    }
    let v = value.duplicate();
    match &mut doc.components[ci] {
        Component::Wing(wing) => {
            match field {
                FieldKind::PositionX => {
                    wing.stations[si].position.x = v;
                },
                FieldKind::PositionY => {
                    wing.stations[si].position.y = v;
                },
                FieldKind::PositionZ => {
                    wing.stations[si].position.z = v;
                },
                FieldKind::Chord => {
                    wing.stations[si].chord = v;
                },
                FieldKind::Twist => {
                    wing.stations[si].twist = v;
                },
                FieldKind::TrailingEdgeThickness => {
                    wing.stations[si].trailing_edge = Some(TrailingEdge::Absolute { thickness: v });
                },
                FieldKind::TrailingEdgeFraction => {
                    wing.stations[si].trailing_edge = Some(TrailingEdge::ChordFraction { value: v });
                },
            }
        },
    }
    Ok(())
}


/// The nodes an edit starts re-evaluation from, resolved against the graph
/// built from the edited document.
pub open spec fn seeds_spec(graph_doc: AircraftDefinition, patch: Patch) -> Seq<NodeId> {
    match patch {
        Patch::SetStationTangency { .. } => Seq::empty(),
        Patch::AddParameter { id, .. } | Patch::SetParameter { id, .. } => match key_index(
            graph_doc.parameters@,
            id@,
        ) {
            Some(p) => seq![p as NodeId],
            None => Seq::empty(),
        },
        Patch::SetStationField { component_index, station_index, field, .. } => match station_field_of(
            graph_doc,
            component_index as int,
            station_index as int,
            field,
        ) {
            Some(n) => seq![n],
            None => Seq::empty(),
        },
    }
}

pub fn resolve_seeds(graph: &Graph, patch: &Patch) -> (r: Vec<NodeId>)
    requires
        graph.wf(),
    ensures
        r@ == seeds_spec(graph.document(), *patch),
{
    let found = match patch {
        Patch::SetStationTangency { .. } => None,
        Patch::AddParameter { id, .. } => graph.parameter_node(id.as_str()),
        Patch::SetParameter { id, .. } => graph.parameter_node(id.as_str()),
        Patch::SetStationField { component_index, station_index, field, .. } => graph.station_field_node(
            *component_index,
            *station_index,
            *field,
        ),
    };
    let mut out: Vec<NodeId> = Vec::new();
    match found {
        Some(n) => out.push(n),
        None => {},
    }
    assert(out@ =~= seeds_spec(graph.document(), *patch));
    out
}

/// Seeds always name nodes of the graph they were resolved against.
pub proof fn lemma_seeds_in_range(graph: Graph, patch: Patch)
    requires
        graph.wf(),
    ensures
        forall|i: int|
            0 <= i < seeds_spec(graph.document(), patch).len() ==> (#[trigger] seeds_spec(
                graph.document(),
                patch,
            )[i]) < graph.nodes@.len(),
{
    let doc = graph.document();
    crate::builder::lemma_skeleton_len(doc);
    assert(view_nodes(graph.nodes@).len() == graph.nodes@.len());
    match patch {
        Patch::AddParameter { id, .. } | Patch::SetParameter { id, .. } => {
            crate::builder::lemma_key_index_bound_pub(doc.parameters@, id@);
        },
        Patch::SetStationField { component_index, station_index, .. } => {
            let ci = component_index as int;
            let si = station_index as int;
            if 0 <= ci < doc.components@.len() && 0 <= si < wing_of(doc.components@[ci]).stations@.len() {
                let stations = wing_of(doc.components@[ci]).stations@;
                crate::builder::lemma_last_station_found(stations, si);
                crate::builder::lemma_last_station_bound_pub(stations, stations[si].id@);
                let sj = crate::builder::last_station(stations, stations[si].id@)->Some_0;
                crate::builder::lemma_station_nodes_in_range(doc, ci, sj);
            }
        },
        Patch::SetStationTangency { .. } => {},
    }
}

/// A patched candidate document that built: what is left before it can be
/// committed is its evaluation.
pub struct StagedPatch {
    pub graph: Graph,
    /// The semantic diagnostics, then the graph's warnings.
    pub diagnostics: Vec<Diagnostic>,
    /// The nodes the patch reaches, ascending.
    pub affected: Vec<NodeId>,
}

/// Validates an already patched candidate document, builds its graph and
/// finds the nodes the patch reaches. A build that fails gives its first
/// error. Seeds resolve against the new graph, as indices may have moved.
pub fn stage_patch(candidate: &AircraftDefinition, patch: &Patch) -> (r: Result<StagedPatch, Diagnostic>)
    ensures
        match r {
            Ok(staged) => {
                &&& build_succeeds(*candidate)
                &&& staged.graph.wf()
                &&& staged.graph.document() == *candidate
                &&& view_diagnostics(staged.diagnostics@) == validate_spec(*candidate) + inference_warnings(*candidate)
                &&& forall|i: int, j: int|
                    0 <= i < j < staged.affected@.len() ==> staged.affected@[i] < staged.affected@[j]
                &&& forall|v: NodeId|
                    #[trigger] staged.affected@.contains(v) <==> (v < staged.graph.nodes@.len() && reached(
                        consumers_spec(deps_of(staged.graph.nodes@)),
                        seeds_spec(*candidate, *patch),
                        v,
                    ))
            },
            Err(d) => !build_succeeds(*candidate) && exists|errors: Seq<DiagnosticView>|
                build_failure(*candidate, errors) && errors.len() > 0 && d@ == errors[0],
        },
{
    let mut diagnostics = validate(candidate);
    let (graph, mut warnings) = match build(candidate) {
        Ok(built) => built,
        Err(mut errors) => {
            let ghost es = view_diagnostics(errors@);
            assert(es.len() > 0);
            let first = errors.swap_remove(0);
            assert(first@ == es[0]);
            return Err(first);
        },
    };
    let ghost head = view_diagnostics(diagnostics@);
    let ghost tail = view_diagnostics(warnings@);
    diagnostics.append(&mut warnings);
    assert(view_diagnostics(diagnostics@) =~= head + tail);
    let seeds = resolve_seeds(&graph, patch);
    proof {
        lemma_seeds_in_range(graph, *patch);
    }
    let affected = graph.descendants(seeds.as_slice());
    Ok(StagedPatch { graph, diagnostics, affected })
}

/// Whether a geometry job may run: a cancelled job stops, and a job that
/// expects another revision than the current one is stale; either way no
/// result of it can replace a newer one.
pub fn admit_job(cancelled: bool, current: u64, expected: Option<u64>) -> (r: Result<(), MeshJobError>)
    ensures
        cancelled ==> r matches Err(MeshJobError::Cancelled),
        !cancelled ==> match expected {
            Some(e) => if e != current {
                (r matches Err(MeshJobError::Stale { current: c, expected: x }) && c == current && x == e)
            } else {
                r is Ok
            },
            None => r is Ok,
        },
{
    if cancelled {
        return Err(MeshJobError::Cancelled);
    }
    match expected {
        Some(e) => if e != current {
            Err(MeshJobError::Stale { current, expected: e })
        } else {
            Ok(())
        },
        None => Ok(()),
    }
}

/// Opens a document up to its evaluation: semantic validation, whose errors
/// refuse the document, then the graph. The diagnostics of an opened
/// document are the semantic ones followed by the graph's warnings; a
/// document whose graph does not build is refused with the build's errors.
pub fn open_document(doc: &AircraftDefinition) -> (r: Result<(Graph, Vec<Diagnostic>), Vec<Diagnostic>>)
    ensures
        has_error(validate_spec(*doc)) ==> (r matches Err(ds) && view_diagnostics(ds@) == validate_spec(*doc)),
        !has_error(validate_spec(*doc)) ==> match r {
            Ok((g, ds)) => {
                &&& build_succeeds(*doc)
                &&& g.wf()
                &&& g.document() == *doc
                &&& view_diagnostics(ds@) == validate_spec(*doc) + inference_warnings(*doc)
            },
            Err(ds) => !build_succeeds(*doc) && build_failure(*doc, view_diagnostics(ds@)),
        },
{
    let mut diagnostics = validate(doc);
    if crate::diagnostic::contains_error(&diagnostics) {
        return Err(diagnostics);
    }
    let (graph, mut warnings) = build(doc)?;
    let ghost head = view_diagnostics(diagnostics@);
    let ghost tail = view_diagnostics(warnings@);
    diagnostics.append(&mut warnings);
    assert(view_diagnostics(diagnostics@) =~= head + tail);
    Ok((graph, diagnostics))
}

/// A triangle traced back to its source.
#[derive(Debug)]
pub struct SourceTrace {
    pub wing_id: String,
    pub stations: Vec<String>,
    pub mirrored: bool,
    pub description: String,
}

pub struct SourceTraceView {
    pub wing_id: Seq<char>,
    pub stations: Seq<Seq<char>>,
    pub mirrored: bool,
    pub description: Seq<char>,
}

impl View for SourceTrace {
    type V = SourceTraceView;

    open spec fn view(&self) -> SourceTraceView {
        SourceTraceView {
            wing_id: self.wing_id@,
            stations: self.stations@.map_values(|s: String| s@),
            mirrored: self.mirrored,
            description: self.description@,
        }
    }
}

/// The source side of a generated wing mesh: which station or cap each
/// triangle comes from.
#[derive(Debug)]
pub struct MeshArtifact {
    pub revision: u64,
    pub wing_id: String,
    /// Station ids index-aligned with [`FaceSource`] station indices.
    pub station_ids: Vec<String>,
    pub faces: Vec<FaceSource>,
}

impl MeshArtifact {
    /// A station's id, or `station <index>` when there is none.
    pub open spec fn station_name(&self, i: nat) -> Seq<char> {
        if i < self.station_ids@.len() {
            self.station_ids@[i as int]@
        } else {
            "station "@ + seq_of_nat(i)
        }
    }

    pub open spec fn trace_spec(&self, triangle_index: nat) -> Result<SourceTraceView, DiagnosticView> {
        if triangle_index >= self.faces@.len() {
            Err(
                error_view(
                    Code::MeshFailure,
                    "triangle index "@ + seq_of_nat(triangle_index) + " is outside the mesh"@,
                ),
            )
        } else {
            match self.faces@[triangle_index as int] {
                FaceSource::Panel { lower_station, upper_station, mirrored } => Ok(
                    SourceTraceView {
                        wing_id: self.wing_id@,
                        stations: seq![
                            self.station_name(lower_station as nat),
                            self.station_name(upper_station as nat),
                        ],
                        mirrored,
                        description: "loft panel between stations "@ + self.station_name(lower_station as nat)
                            + " and "@ + self.station_name(upper_station as nat),
                    },
                ),
                FaceSource::TipCap { station, mirrored } => Ok(
                    SourceTraceView {
                        wing_id: self.wing_id@,
                        stations: seq![self.station_name(station as nat)],
                        mirrored,
                        description: "tip cap of station "@ + self.station_name(station as nat),
                    },
                ),
                FaceSource::RootCap => Ok(
                    SourceTraceView {
                        wing_id: self.wing_id@,
                        stations: Seq::empty(),
                        mirrored: false,
                        description: "symmetry-plane cap of the half model"@,
                    },
                ),
            }
        }
    }

    fn station_name_of(&self, i: usize) -> (r: String)
        ensures
            r@ == self.station_name(i as nat),
    {
        if i < self.station_ids.len() {
            self.station_ids[i].clone()
        } else {
            let mut name = String::from_str("station ");
            append_nat(&mut name, i as u64);
            proof {
                reveal_strlit("station ");
            }
            name
        }
    }

    /// Human-readable trace of a mesh triangle back to its source.
    pub fn trace(&self, triangle_index: usize) -> (r: Result<SourceTrace, Diagnostic>)
        ensures
            match r {
                Ok(t) => self.trace_spec(triangle_index as nat) == Ok::<SourceTraceView, DiagnosticView>(t@),
                Err(d) => self.trace_spec(triangle_index as nat) == Err::<SourceTraceView, DiagnosticView>(d@),
            },
    {
        if triangle_index >= self.faces.len() {
            let mut message = String::from_str("triangle index ");
            append_nat(&mut message, triangle_index as u64);
            message.append(" is outside the mesh");
            proof {
                reveal_strlit("triangle index ");
                reveal_strlit(" is outside the mesh");
            }
            return Err(Diagnostic::error(Code::MeshFailure, message));
        }
        match self.faces[triangle_index] {
            FaceSource::Panel { lower_station, upper_station, mirrored } => {
                let lower = self.station_name_of(lower_station);
                let upper = self.station_name_of(upper_station);
                let mut description = String::from_str("loft panel between stations ");
                description.append(lower.as_str());
                description.append(" and ");
                description.append(upper.as_str());
                proof {
                    reveal_strlit("loft panel between stations ");
                    reveal_strlit(" and ");
                }
                let mut stations: Vec<String> = Vec::new();
                stations.push(lower);
                stations.push(upper);
                let t = SourceTrace { wing_id: self.wing_id.clone(), stations, mirrored, description };
                assert(t@.stations =~= seq![
                    self.station_name(lower_station as nat),
                    self.station_name(upper_station as nat),
                ]);
                Ok(t)
            },
            FaceSource::TipCap { station, mirrored } => {
                let name = self.station_name_of(station);
                let mut description = String::from_str("tip cap of station ");
                description.append(name.as_str());
                proof {
                    reveal_strlit("tip cap of station ");
                }
                let mut stations: Vec<String> = Vec::new();
                stations.push(name);
                let t = SourceTrace { wing_id: self.wing_id.clone(), stations, mirrored, description };
                assert(t@.stations =~= seq![self.station_name(station as nat)]);
                Ok(t)
            },
            FaceSource::RootCap => {
                let stations: Vec<String> = Vec::new();
                let t = SourceTrace {
                    wing_id: self.wing_id.clone(),
                    stations,
                    mirrored: false,
                    description: String::from_str("symmetry-plane cap of the half model"),
                };
                assert(t@.stations =~= Seq::<Seq<char>>::empty());
                Ok(t)
            },
        }
    }
}

/// The committed state a live session publishes: the document and its
/// revision number.
#[derive(Clone)]
pub struct Snapshot {
    pub doc: AircraftDefinition,
    pub revision: u64,
}

impl Snapshot {
    /// Publishes a fully checked candidate as the next revision, or, when any
    /// of its diagnostics is an error, keeps the previous snapshot and names
    /// the first error. Nothing in between is ever published.
    pub fn publish(&mut self, candidate: AircraftDefinition, diagnostics: &Vec<Diagnostic>) -> (r: Result<
        u64,
        usize,
    >)
        requires
            old(self).revision < u64::MAX,
        ensures
            match r {
                Ok(revision) => {
                    &&& forall|k: int|
                        0 <= k < diagnostics@.len() ==> diagnostics@[k].severity != crate::diagnostic::Severity::Error
                    &&& revision == old(self).revision + 1
                    &&& final(self).revision == revision
                    &&& final(self).doc == candidate
                },
                Err(i) => {
                    &&& i < diagnostics@.len()
                    &&& diagnostics@[i as int].severity == crate::diagnostic::Severity::Error
                    &&& forall|k: int|
                        0 <= k < i ==> diagnostics@[k].severity != crate::diagnostic::Severity::Error
                    &&& *final(self) == *old(self)
                },
            },
    {
        match crate::diagnostic::first_error(diagnostics) {
            Some(i) => Err(i),
            None => {
                self.doc = candidate;
                self.revision = self.revision + 1;
                Ok(self.revision)
            },
        }
    }
}

/// The affected-node subjects a result reports, as text.
pub open spec fn view_subjects(v: Seq<String>) -> Seq<Seq<char>> {
    v.map_values(|s: String| s@)
}

impl Snapshot {
    /// The result of a patch refused before it could be published: not
    /// committed, at the current revision, with the one error that refused
    /// it and no affected nodes.
    pub fn reject(&self, transaction: TransactionId, diagnostic: Diagnostic) -> (r: UpdateResult)
        ensures
            r.transaction == transaction,
            !r.committed,
            r.revision == self.revision,
            r.diagnostics@ == seq![diagnostic],
            r.affected@.len() == 0,
    {
        let mut diagnostics: Vec<Diagnostic> = Vec::new();
        diagnostics.push(diagnostic);
        assert(diagnostics@ =~= seq![diagnostic]);
        UpdateResult { transaction, committed: false, revision: self.revision, diagnostics, affected: Vec::new() }
    }

    /// Commits a fully checked candidate: when none of its diagnostics is an
    /// error it becomes the next revision and the result reports the affected
    /// nodes; otherwise the snapshot stays as it was and the result carries
    /// the first error alone.
    pub fn commit(
        &mut self,
        transaction: TransactionId,
        candidate: AircraftDefinition,
        diagnostics: Vec<Diagnostic>,
        affected: Vec<String>,
    ) -> (r: UpdateResult)
        requires
            old(self).revision < u64::MAX,
        ensures
            r.transaction == transaction,
            has_error(view_diagnostics(diagnostics@)) ==> {
                &&& !r.committed
                &&& r.revision == old(self).revision
                &&& *final(self) == *old(self)
                &&& r.diagnostics@.len() == 1
                &&& exists|i: int|
                    0 <= i < diagnostics@.len() && r.diagnostics@[0] == diagnostics@[i] && diagnostics@[i].severity
                        == crate::diagnostic::Severity::Error && forall|k: int|
                        0 <= k < i ==> diagnostics@[k].severity != crate::diagnostic::Severity::Error
                &&& r.affected@.len() == 0
            },
            !has_error(view_diagnostics(diagnostics@)) ==> {
                &&& r.committed
                &&& r.revision == old(self).revision + 1
                &&& final(self).revision == r.revision
                &&& final(self).doc == candidate
                &&& r.diagnostics@.len() == 0
                &&& view_subjects(r.affected@) == view_subjects(affected@)
            },
    {
        let mut diagnostics = diagnostics;
        match self.publish(candidate, &diagnostics) {
            Ok(revision) => {
                proof {
                    assert forall|k: int| 0 <= k < view_diagnostics(diagnostics@).len() implies #[trigger] view_diagnostics(
                        diagnostics@,
                    )[k].severity != crate::diagnostic::Severity::Error by {
                        assert(view_diagnostics(diagnostics@)[k] == diagnostics@[k]@);
                    }
                }
                UpdateResult { transaction, committed: true, revision, diagnostics: Vec::new(), affected }
            },
            Err(i) => {
                let ghost before = diagnostics@;
                let first = diagnostics.swap_remove(i);
                proof {
                    assert(view_diagnostics(before)[i as int] == before[i as int]@);
                    assert(view_diagnostics(before)[i as int].severity == crate::diagnostic::Severity::Error);
                    assert forall|k: int| 0 <= k < i implies before[k].severity != crate::diagnostic::Severity::Error by {}
                }
                let r = self.reject(transaction, first);
                assert(r.diagnostics@[0] == before[i as int]);
                r
            },
        }
    }
}

} // verus!
