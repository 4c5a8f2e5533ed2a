//! Construction of the typed dependency graph from a document: one node per
//! raw parameter and per typed numeric field, in document order.
use vstd::prelude::*;
use crate::ast::{Coordinate, Ref, SpecRef, StationLeaf};
use crate::diagnostic::{error_view, Code, Diagnostic, DiagnosticView};
use crate::dim::Dimension;
use crate::model::{AircraftDefinition, Component, Station, TrailingEdge, TypedValue, Wing, station_path, station_path_spec};
use crate::node::{FieldKind, Node, NodeId, NodeKind, NodeKindView, NodeView, SourceView, ValueSource, view_nodes};
use crate::parser::{parse_field_expression, parse_field_expression_spec};
use crate::text::{append_nat, seq_of_nat, str_debug, str_debug_text, str_eq};
use crate::model::{find_key, has_key, keys_ascend, lemma_key_unique, Interface};

verus! {

broadcast use vstd::std_specs::vec::axiom_spec_len;

/// The bit pattern of the quiet NaN standing for a value that failed to parse.
pub open spec fn nan_bits() -> u64 {
    0x7ff8000000000000u64
}

pub open spec fn view_diagnostics(v: Seq<Diagnostic>) -> Seq<DiagnosticView> {
    v.map_values(|d: Diagnostic| d@)
}

/// Where a field's value comes from before dependencies are resolved.
#[verifier::opaque]
pub open spec fn typed_source(typed: TypedValue) -> SourceView {
    match typed {
        TypedValue::Number(bits) => SourceView::Literal(bits),
        TypedValue::ParamRef { param } => SourceView::Parameter(param@),
        TypedValue::Expression(text) => match parse_field_expression_spec(text@) {
            Ok(e) => SourceView::Unresolved(e),
            Err(_) => SourceView::Literal(nan_bits()),
        },
    }
}

/// The syntax error of a field's expression, located at the field.
#[verifier::opaque]
pub open spec fn typed_errors(typed: TypedValue, subject: Seq<char>, path: Seq<char>) -> Seq<DiagnosticView> {
    match typed {
        TypedValue::Expression(text) => match parse_field_expression_spec(text@) {
            Ok(_) => Seq::empty(),
            Err(d) => seq![d.with_path(path).with_subject(subject)],
        },
        _ => Seq::empty(),
    }
}

pub open spec fn field_node_view(
    kind: NodeKindView,
    subject: Seq<char>,
    path: Seq<char>,
    short_name: Seq<char>,
    dimension: Dimension,
    typed: TypedValue,
) -> NodeView {
    NodeView {
        kind,
        subject,
        path,
        short_name,
        dimension: Some(dimension),
        source: typed_source(typed),
        ref_nodes: Seq::empty(),
        deps: Seq::empty(),
    }
}

pub open spec fn param_node_view(id: Seq<char>, bits: u64) -> NodeView {
    NodeView {
        kind: NodeKindView::Parameter { id },
        subject: "parameter "@ + id,
        path: "parameters/"@ + id,
        short_name: "param:"@ + id,
        dimension: None,
        source: SourceView::Raw(bits),
        ref_nodes: Seq::empty(),
        deps: Seq::empty(),
    }
}

pub open spec fn axis_name(c: Coordinate) -> Seq<char> {
    match c {
        Coordinate::X => "x"@,
        Coordinate::Y => "y"@,
        Coordinate::Z => "z"@,
    }
}

fn axis_str(c: Coordinate) -> (r: &'static str)
    ensures
        r@ == axis_name(c),
{
    match c {
        Coordinate::X => "x",
        Coordinate::Y => "y",
        Coordinate::Z => "z",
    }
}

pub open spec fn frame_value(wing: Wing, c: Coordinate) -> TypedValue {
    match c {
        Coordinate::X => wing.frame.origin.x,
        Coordinate::Y => wing.frame.origin.y,
        Coordinate::Z => wing.frame.origin.z,
    }
}

pub open spec fn frame_subject(wing: Wing, c: Coordinate) -> Seq<char> {
    wing.id@ + " / frame origin "@ + axis_name(c)
}

pub open spec fn frame_path(ci: nat, c: Coordinate) -> Seq<char> {
    "components/"@ + seq_of_nat(ci) + "/frame/origin/"@ + axis_name(c)
}

#[verifier::opaque]
pub open spec fn frame_node_view(ci: usize, wing: Wing, c: Coordinate) -> NodeView {
    field_node_view(
        NodeKindView::FrameOrigin { component_index: ci, coordinate: c },
        frame_subject(wing, c),
        frame_path(ci as nat, c),
        "frame.origin."@ + axis_name(c),
        Dimension::length(),
        frame_value(wing, c),
    )
}

#[verifier::opaque]
pub open spec fn frame_errors(ci: usize, wing: Wing, c: Coordinate) -> Seq<DiagnosticView> {
    typed_errors(frame_value(wing, c), frame_subject(wing, c), frame_path(ci as nat, c))
}

pub open spec fn field_value(st: Station, f: FieldKind) -> TypedValue {
    match f {
        FieldKind::PositionX => st.position.x,
        FieldKind::PositionY => st.position.y,
        FieldKind::PositionZ => st.position.z,
        FieldKind::Chord => st.chord,
        FieldKind::Twist => st.twist,
        FieldKind::TrailingEdgeThickness => match st.trailing_edge {
            Some(TrailingEdge::Absolute { thickness }) => thickness,
            _ => st.chord,
        },
        FieldKind::TrailingEdgeFraction => match st.trailing_edge {
            Some(TrailingEdge::ChordFraction { value }) => value,
            _ => st.chord,
        },
    }
}

pub open spec fn field_path_spec(f: FieldKind) -> Seq<char> {
    match f {
        FieldKind::PositionX => "position/x"@,
        FieldKind::PositionY => "position/y"@,
        FieldKind::PositionZ => "position/z"@,
        FieldKind::Chord => "chord"@,
        FieldKind::Twist => "twist"@,
        FieldKind::TrailingEdgeThickness => "trailingEdge/thickness"@,
        FieldKind::TrailingEdgeFraction => "trailingEdge/value"@,
    }
}

pub open spec fn field_short_spec(f: FieldKind) -> Seq<char> {
    match f {
        FieldKind::PositionX => "position.x"@,
        FieldKind::PositionY => "position.y"@,
        FieldKind::PositionZ => "position.z"@,
        FieldKind::Chord => "chord"@,
        FieldKind::Twist => "twist"@,
        FieldKind::TrailingEdgeThickness => "trailing-edge-thickness"@,
        FieldKind::TrailingEdgeFraction => "trailing-edge-fraction"@,
    }
}

fn field_path(f: FieldKind) -> (r: &'static str)
    ensures
        r@ == field_path_spec(f),
{
    match f {
        FieldKind::PositionX => "position/x",
        FieldKind::PositionY => "position/y",
        FieldKind::PositionZ => "position/z",
        FieldKind::Chord => "chord",
        FieldKind::Twist => "twist",
        FieldKind::TrailingEdgeThickness => "trailingEdge/thickness",
        FieldKind::TrailingEdgeFraction => "trailingEdge/value",
    }
}

fn field_short(f: FieldKind) -> (r: &'static str)
    ensures
        r@ == field_short_spec(f),
{
    match f {
        FieldKind::PositionX => "position.x",
        FieldKind::PositionY => "position.y",
        FieldKind::PositionZ => "position.z",
        FieldKind::Chord => "chord",
        FieldKind::Twist => "twist",
        FieldKind::TrailingEdgeThickness => "trailing-edge-thickness",
        FieldKind::TrailingEdgeFraction => "trailing-edge-fraction",
    }
}

pub open spec fn field_subject(wing_id: Seq<char>, st: Station, f: FieldKind) -> Seq<char> {
    wing_id + " / station "@ + st.id@ + " / "@ + f.subject_name_spec()
}

pub open spec fn field_path_of(ci: nat, si: nat, f: FieldKind) -> Seq<char> {
    station_path_spec(ci, si) + "/"@ + field_path_spec(f)
}

#[verifier::opaque]
pub open spec fn station_field_node_view(ci: usize, si: usize, wing_id: Seq<char>, st: Station, f: FieldKind) -> NodeView {
    field_node_view(
        NodeKindView::StationField { component_index: ci, station_index: si, field: f },
        field_subject(wing_id, st, f),
        field_path_of(ci as nat, si as nat, f),
        st.id@ + "."@ + field_short_spec(f),
        f.dimension_spec(),
        field_value(st, f),
    )
}

#[verifier::opaque]
pub open spec fn station_field_errors(ci: usize, si: usize, wing_id: Seq<char>, st: Station, f: FieldKind) -> Seq<DiagnosticView> {
    typed_errors(field_value(st, f), field_subject(wing_id, st, f), field_path_of(ci as nat, si as nat, f))
}

/// The trailing-edge field of a station, when its trailing edge has one.
pub open spec fn trailing_field(st: Station) -> Option<FieldKind> {
    match st.trailing_edge {
        Some(TrailingEdge::Absolute { .. }) => Some(FieldKind::TrailingEdgeThickness),
        Some(TrailingEdge::ChordFraction { .. }) => Some(FieldKind::TrailingEdgeFraction),
        _ => None,
    }
}

pub open spec fn station_node_views(ci: usize, si: usize, wing_id: Seq<char>, st: Station) -> Seq<NodeView> {
    let v = |f: FieldKind| station_field_node_view(ci, si, wing_id, st, f);
    seq![
        v(FieldKind::PositionX),
        v(FieldKind::PositionY),
        v(FieldKind::PositionZ),
        v(FieldKind::Chord),
        v(FieldKind::Twist),
    ] + match trailing_field(st) {
        Some(f) => seq![v(f)],
        None => Seq::empty(),
    }
}

pub open spec fn station_errors(ci: usize, si: usize, wing_id: Seq<char>, st: Station) -> Seq<DiagnosticView> {
    let e = |f: FieldKind| station_field_errors(ci, si, wing_id, st, f);
    e(FieldKind::PositionX) + e(FieldKind::PositionY) + e(FieldKind::PositionZ) + e(FieldKind::Chord) + e(
        FieldKind::Twist,
    ) + match trailing_field(st) {
        Some(f) => e(f),
        None => Seq::empty(),
    }
}

pub open spec fn frame_node_views(ci: usize, wing: Wing) -> Seq<NodeView> {
    seq![
        frame_node_view(ci, wing, Coordinate::X),
        frame_node_view(ci, wing, Coordinate::Y),
        frame_node_view(ci, wing, Coordinate::Z),
    ]
}

pub open spec fn frame_errors_all(ci: usize, wing: Wing) -> Seq<DiagnosticView> {
    frame_errors(ci, wing, Coordinate::X) + frame_errors(ci, wing, Coordinate::Y) + frame_errors(ci, wing, Coordinate::Z)
}

pub open spec fn stations_node_views(ci: usize, wing: Wing, k: int) -> Seq<NodeView>
    decreases k,
{
    if k <= 0 {
        Seq::empty()
    } else {
        stations_node_views(ci, wing, k - 1) + station_node_views(ci, (k - 1) as usize, wing.id@, wing.stations@[k - 1])
    }
}

pub open spec fn stations_errors(ci: usize, wing: Wing, k: int) -> Seq<DiagnosticView>
    decreases k,
{
    if k <= 0 {
        Seq::empty()
    } else {
        stations_errors(ci, wing, k - 1) + station_errors(ci, (k - 1) as usize, wing.id@, wing.stations@[k - 1])
    }
}

pub open spec fn wing_of(c: Component) -> Wing {
    match c {
        Component::Wing(w) => w,
    }
}

pub open spec fn wing_node_views(ci: usize, wing: Wing) -> Seq<NodeView> {
    frame_node_views(ci, wing) + stations_node_views(ci, wing, wing.stations@.len() as int)
}

pub open spec fn wing_errors(ci: usize, wing: Wing) -> Seq<DiagnosticView> {
    frame_errors_all(ci, wing) + stations_errors(ci, wing, wing.stations@.len() as int)
}

pub open spec fn components_node_views(comps: Seq<Component>, k: int) -> Seq<NodeView>
    decreases k,
{
    if k <= 0 {
        Seq::empty()
    } else {
        components_node_views(comps, k - 1) + wing_node_views((k - 1) as usize, wing_of(comps[k - 1]))
    }
}

pub open spec fn components_errors(comps: Seq<Component>, k: int) -> Seq<DiagnosticView>
    decreases k,
{
    if k <= 0 {
        Seq::empty()
    } else {
        components_errors(comps, k - 1) + wing_errors((k - 1) as usize, wing_of(comps[k - 1]))
    }
}

pub open spec fn parameter_node_views(params: Seq<(String, u64)>) -> Seq<NodeView> {
    params.map_values(|e: (String, u64)| param_node_view(e.0@, e.1))
}

/// Every node of a document, before dependencies are resolved: parameters
/// first, then per component its frame origin and its stations' fields.
#[verifier::opaque]
pub open spec fn skeleton(doc: AircraftDefinition) -> Seq<NodeView> {
    parameter_node_views(doc.parameters@) + components_node_views(
        doc.components@,
        doc.components@.len() as int,
    )
}

/// The syntax errors found while creating the nodes, in node order.
pub open spec fn skeleton_errors(doc: AircraftDefinition) -> Seq<DiagnosticView> {
    components_errors(doc.components@, doc.components@.len() as int)
}

/// Node indices of one station's fields.
#[derive(Debug, Clone, Copy)]
pub struct StationNodes {
    pub position: [NodeId; 3],
    pub chord: NodeId,
    pub twist: NodeId,
    pub trailing_edge: Option<NodeId>,
}

/// Index of the first node of station `si` of component `ci`.
pub open spec fn station_base(doc: AircraftDefinition, ci: int, si: int) -> int {
    (doc.parameters@.len() + components_node_views(doc.components@, ci).len() + 3 + stations_node_views(
        ci as usize,
        wing_of(doc.components@[ci]),
        si,
    ).len()) as int
}

pub open spec fn station_nodes_spec(doc: AircraftDefinition, ci: int, si: int) -> StationNodes {
    let b = station_base(doc, ci, si);
    let st = wing_of(doc.components@[ci]).stations@[si];
    StationNodes {
        position: [b as NodeId, (b + 1) as NodeId, (b + 2) as NodeId],
        chord: (b + 3) as NodeId,
        twist: (b + 4) as NodeId,
        trailing_edge: if trailing_field(st) is Some { Some((b + 5) as NodeId) } else { None },
    }
}

/// Every expression awaiting resolution is well formed with valid calls.
pub open spec fn sources_wf(nodes: Seq<Node>) -> bool {
    forall|i: int|
        0 <= i < nodes.len() ==> match (#[trigger] nodes[i]).source {
            ValueSource::Unresolved(e) => crate::ast::expr_wf(e@) && crate::ast::calls_ok(e@),
            _ => true,
        }
}

pub struct Builder {
    pub nodes: Vec<Node>,
    /// Parameter ids (ascending) with their node indices.
    pub param_nodes: Vec<(String, NodeId)>,
    /// Per component, per station: its field nodes.
    pub station_nodes: Vec<Vec<StationNodes>>,
    /// Per component: station ids in order.
    pub component_stations: Vec<Vec<String>>,
    pub errors: Vec<Diagnostic>,
}

impl Builder {
    pub fn new() -> (r: Self)
        ensures
            r.nodes@.len() == 0,
            r.param_nodes@.len() == 0,
            r.station_nodes@.len() == 0,
            r.component_stations@.len() == 0,
            r.errors@.len() == 0,
    {
        Builder {
            nodes: Vec::new(),
            param_nodes: Vec::new(),
            station_nodes: Vec::new(),
            component_stations: Vec::new(),
            errors: Vec::new(),
        }
    }

    fn push_field_node(
        &mut self,
        kind: NodeKind,
        subject: String,
        path: String,
        short_name: String,
        dimension: Dimension,
        typed: &TypedValue,
    ) -> (r: NodeId)
        requires
            sources_wf(old(self).nodes@),
        ensures
            sources_wf(final(self).nodes@),
            r == old(self).nodes@.len(),
            view_nodes(final(self).nodes@) == view_nodes(old(self).nodes@).push(
                field_node_view(kind@, subject@, path@, short_name@, dimension, *typed),
            ),
            view_diagnostics(final(self).errors@) == view_diagnostics(old(self).errors@) + typed_errors(
                *typed,
                subject@,
                path@,
            ),
            final(self).param_nodes == old(self).param_nodes,
            final(self).station_nodes == old(self).station_nodes,
            final(self).component_stations == old(self).component_stations,
    {
        proof {
            reveal(typed_source);
            reveal(typed_errors);
        }
        let ghost old_errors = view_diagnostics(self.errors@);
        let source = match typed {
            TypedValue::Number(bits) => ValueSource::Literal(*bits),
            TypedValue::ParamRef { param } => ValueSource::Parameter(param.clone()),
            TypedValue::Expression(text) => match parse_field_expression(text.as_str()) {
                Ok(expr) => ValueSource::Unresolved(expr),
                Err(diagnostic) => {
                    self.errors.push(diagnostic.with_path(path.clone()).with_subject(subject.clone()));
                    ValueSource::Literal(0x7ff8000000000000u64)
                },
            },
        };
        assert(view_diagnostics(self.errors@) =~= old_errors + typed_errors(*typed, subject@, path@));
        assert(source@ == typed_source(*typed));
        let index = self.nodes.len();
        let ghost old_nodes = view_nodes(self.nodes@);
        let ghost expected = field_node_view(kind@, subject@, path@, short_name@, dimension, *typed);
        let node = Node {
            kind,
            subject,
            path,
            short_name,
            dimension: Some(dimension),
            source,
            ref_nodes: Vec::new(),
            deps: Vec::new(),
        };
        assert(node.ref_nodes@ =~= Seq::<(crate::ast::Ref, NodeId)>::empty());
        assert(crate::node::view_ref_nodes(node.ref_nodes@) =~= Seq::empty());
        assert(node@ == expected);
        self.nodes.push(node);
        assert(view_nodes(self.nodes@) =~= old_nodes.push(expected));
        index
    }

    fn push_station_field(
        &mut self,
        ci: usize,
        si: usize,
        wing_id: &str,
        station: &Station,
        f: FieldKind,
    ) -> (r: NodeId)
        requires
            sources_wf(old(self).nodes@),
        ensures
            sources_wf(final(self).nodes@),
            r == old(self).nodes@.len(),
            view_nodes(final(self).nodes@) == view_nodes(old(self).nodes@).push(
                station_field_node_view(ci, si, wing_id@, *station, f),
            ),
            view_diagnostics(final(self).errors@) == view_diagnostics(old(self).errors@)
                + station_field_errors(ci, si, wing_id@, *station, f),
            final(self).param_nodes == old(self).param_nodes,
            final(self).station_nodes == old(self).station_nodes,
            final(self).component_stations == old(self).component_stations,
    {
        let mut subject = String::from_str(wing_id);
        subject.append(" / station ");
        subject.append(station.id.as_str());
        subject.append(" / ");
        subject.append(f.subject_name());
        let mut path = station_path(ci, si);
        path.append("/");
        path.append(field_path(f));
        let mut short_name = station.id.clone();
        short_name.append(".");
        short_name.append(field_short(f));
        proof {
            reveal_strlit(" / station ");
            reveal_strlit(" / ");
            reveal_strlit("/");
            reveal_strlit(".");
            assert(subject@ =~= field_subject(wing_id@, *station, f));
            assert(path@ =~= field_path_of(ci as nat, si as nat, f));
            assert(short_name@ =~= station.id@ + "."@ + field_short_spec(f));
        }
        let typed = field_typed(station, f);
        proof {
            reveal(station_field_node_view);
            reveal(station_field_errors);
        }
        self.push_field_node(
            NodeKind::StationField { component_index: ci, station_index: si, field: f },
            subject,
            path,
            short_name,
            f.dimension(),
            typed,
        )
    }

    /// Creates the field nodes of one station, in field order.
    #[verifier::rlimit(40)]
    fn create_station_nodes(&mut self, ci: usize, si: usize, wing_id: &str, station: &Station) -> (r:
        StationNodes)
        requires
            sources_wf(old(self).nodes@),
        ensures
            sources_wf(final(self).nodes@),
            view_nodes(final(self).nodes@) == view_nodes(old(self).nodes@) + station_node_views(
                ci,
                si,
                wing_id@,
                *station,
            ),
            view_diagnostics(final(self).errors@) == view_diagnostics(old(self).errors@) + station_errors(
                ci,
                si,
                wing_id@,
                *station,
            ),
            final(self).param_nodes == old(self).param_nodes,
            final(self).station_nodes == old(self).station_nodes,
            final(self).component_stations == old(self).component_stations,
            ({
                let b = old(self).nodes@.len();
                r == StationNodes {
                    position: [b as NodeId, (b + 1) as NodeId, (b + 2) as NodeId],
                    chord: (b + 3) as NodeId,
                    twist: (b + 4) as NodeId,
                    trailing_edge: if trailing_field(*station) is Some {
                        Some((b + 5) as NodeId)
                    } else {
                        None
                    },
                }
            }),
    {
        let ghost n0 = view_nodes(self.nodes@);
        let ghost e0 = view_diagnostics(self.errors@);
        let ghost w = wing_id@;
        let ghost st = *station;
        let x = self.push_station_field(ci, si, wing_id, station, FieldKind::PositionX);
        let y = self.push_station_field(ci, si, wing_id, station, FieldKind::PositionY);
        let z = self.push_station_field(ci, si, wing_id, station, FieldKind::PositionZ);
        let chord = self.push_station_field(ci, si, wing_id, station, FieldKind::Chord);
        let twist = self.push_station_field(ci, si, wing_id, station, FieldKind::Twist);
        let trailing_edge = match &station.trailing_edge {
            Some(TrailingEdge::Absolute { .. }) => Some(
                self.push_station_field(ci, si, wing_id, station, FieldKind::TrailingEdgeThickness),
            ),
            Some(TrailingEdge::ChordFraction { .. }) => Some(
                self.push_station_field(ci, si, wing_id, station, FieldKind::TrailingEdgeFraction),
            ),
            _ => None,
        };
        proof {
            assert(view_nodes(self.nodes@) =~= n0 + station_node_views(ci, si, w, st));
            assert(view_diagnostics(self.errors@) =~= e0 + station_errors(ci, si, w, st));
        }
        StationNodes { position: [x, y, z], chord, twist, trailing_edge }
    }
}

fn field_typed(station: &Station, f: FieldKind) -> (r: &TypedValue)
    ensures
        *r == field_value(*station, f),
{
    match f {
        FieldKind::PositionX => &station.position.x,
        FieldKind::PositionY => &station.position.y,
        FieldKind::PositionZ => &station.position.z,
        FieldKind::Chord => &station.chord,
        FieldKind::Twist => &station.twist,
        FieldKind::TrailingEdgeThickness => match &station.trailing_edge {
            Some(TrailingEdge::Absolute { thickness }) => thickness,
            _ => &station.chord,
        },
        FieldKind::TrailingEdgeFraction => match &station.trailing_edge {
            Some(TrailingEdge::ChordFraction { value }) => value,
            _ => &station.chord,
        },
    }
}


impl Builder {
    fn push_frame_node(&mut self, ci: usize, wing: &Wing, c: Coordinate) -> (r: NodeId)
        requires
            sources_wf(old(self).nodes@),
        ensures
            sources_wf(final(self).nodes@),
            r == old(self).nodes@.len(),
            view_nodes(final(self).nodes@) == view_nodes(old(self).nodes@).push(frame_node_view(ci, *wing, c)),
            view_diagnostics(final(self).errors@) == view_diagnostics(old(self).errors@) + frame_errors(
                ci,
                *wing,
                c,
            ),
            final(self).param_nodes == old(self).param_nodes,
            final(self).station_nodes == old(self).station_nodes,
            final(self).component_stations == old(self).component_stations,
    {
        let axis = axis_str(c);
        let mut subject = wing.id.clone();
        subject.append(" / frame origin ");
        subject.append(axis);
        let mut path = String::from_str("components/");
        append_nat(&mut path, ci as u64);
        path.append("/frame/origin/");
        path.append(axis);
        let mut short_name = String::from_str("frame.origin.");
        short_name.append(axis);
        proof {
            reveal_strlit(" / frame origin ");
            reveal_strlit("components/");
            reveal_strlit("/frame/origin/");
            reveal_strlit("frame.origin.");
            assert(subject@ =~= frame_subject(*wing, c));
            assert(path@ =~= frame_path(ci as nat, c));
            assert(short_name@ =~= "frame.origin."@ + axis_name(c));
            reveal(frame_node_view);
            reveal(frame_errors);
        }
        let typed = match c {
            Coordinate::X => &wing.frame.origin.x,
            Coordinate::Y => &wing.frame.origin.y,
            Coordinate::Z => &wing.frame.origin.z,
        };
        self.push_field_node(
            NodeKind::FrameOrigin { component_index: ci, coordinate: c },
            subject,
            path,
            short_name,
            Dimension::length(),
            typed,
        )
    }

    fn create_frame_origin_nodes(&mut self, ci: usize, wing: &Wing)
        requires
            sources_wf(old(self).nodes@),
        ensures
            sources_wf(final(self).nodes@),
            view_nodes(final(self).nodes@) == view_nodes(old(self).nodes@) + frame_node_views(ci, *wing),
            view_diagnostics(final(self).errors@) == view_diagnostics(old(self).errors@)
                + frame_errors_all(ci, *wing),
            final(self).param_nodes == old(self).param_nodes,
            final(self).station_nodes == old(self).station_nodes,
            final(self).component_stations == old(self).component_stations,
    {
        let ghost n0 = view_nodes(self.nodes@);
        let ghost e0 = view_diagnostics(self.errors@);
        self.push_frame_node(ci, wing, Coordinate::X);
        self.push_frame_node(ci, wing, Coordinate::Y);
        self.push_frame_node(ci, wing, Coordinate::Z);
        assert(view_nodes(self.nodes@) =~= n0 + frame_node_views(ci, *wing));
        assert(view_diagnostics(self.errors@) =~= e0 + frame_errors_all(ci, *wing));
    }
}


/// The builder's station bookkeeping matches the document's stations for
/// the first `m` components.
pub open spec fn stations_recorded(
    component_stations: Seq<Vec<String>>,
    station_nodes: Seq<Vec<StationNodes>>,
    doc: AircraftDefinition,
    m: int,
) -> bool {
    &&& component_stations.len() == m
    &&& station_nodes.len() == m
    &&& forall|ci: int|
        #![trigger component_stations[ci]]
        0 <= ci < m ==> {
            let wing = wing_of(doc.components@[ci]);
            &&& component_stations[ci]@.len() == wing.stations@.len()
            &&& station_nodes[ci]@.len() == wing.stations@.len()
            &&& forall|si: int|
                0 <= si < wing.stations@.len() ==> (#[trigger] component_stations[ci]@[si])@
                    == wing.stations@[si].id@ && station_nodes[ci]@[si] == station_nodes_spec(doc, ci, si)
        }
}

pub open spec fn params_recorded(b: Builder, doc: AircraftDefinition) -> bool {
    &&& b.param_nodes@.len() == doc.parameters@.len()
    &&& forall|p: int|
        0 <= p < doc.parameters@.len() ==> (#[trigger] b.param_nodes@[p]).0@ == doc.parameters@[p].0@
            && b.param_nodes@[p].1 == p
}

impl Builder {
    /// Creates every node of the document, in document order.
    #[verifier::rlimit(40)]
    pub fn create_nodes(&mut self, doc: &AircraftDefinition)
        requires
            old(self).nodes@.len() == 0,
            old(self).param_nodes@.len() == 0,
            old(self).station_nodes@.len() == 0,
            old(self).component_stations@.len() == 0,
            old(self).errors@.len() == 0,
        ensures
            sources_wf(final(self).nodes@),
            view_nodes(final(self).nodes@) == skeleton(*doc),
            view_diagnostics(final(self).errors@) == skeleton_errors(*doc),
            params_recorded(*final(self), *doc),
            stations_recorded(final(self).component_stations@, final(self).station_nodes@, *doc, doc.components@.len() as int),
    {
        let ghost params = doc.parameters@;
        let mut p: usize = 0;
        while p < doc.parameters.len()
            invariant
                p <= params.len(),
                params == doc.parameters@,
                view_nodes(self.nodes@) == parameter_node_views(params.take(p as int)),
                sources_wf(self.nodes@),
                self.errors@.len() == 0,
                self.param_nodes@.len() == p,
                forall|q: int| 0 <= q < p ==> (#[trigger] self.param_nodes@[q]).0@ == params[q].0@ && self.param_nodes@[q].1 == q,
                self.station_nodes@.len() == 0,
                self.component_stations@.len() == 0,
            decreases params.len() - p,
        {
            let (id, bits) = (&doc.parameters[p].0, doc.parameters[p].1);
            let mut subject = String::from_str("parameter ");
            subject.append(id.as_str());
            let mut path = String::from_str("parameters/");
            path.append(id.as_str());
            let mut short_name = String::from_str("param:");
            short_name.append(id.as_str());
            let node = Node {
                kind: NodeKind::Parameter { id: id.clone() },
                subject,
                path,
                short_name,
                dimension: None,
                source: ValueSource::Raw(bits),
                ref_nodes: Vec::new(),
                deps: Vec::new(),
            };
            proof {
                reveal_strlit("parameter ");
                reveal_strlit("parameters/");
                reveal_strlit("param:");
                assert(node.ref_nodes@ =~= Seq::<(crate::ast::Ref, NodeId)>::empty());
                assert(crate::node::view_ref_nodes(node.ref_nodes@) =~= Seq::empty());
                assert(node.deps@ =~= Seq::<NodeId>::empty());
                assert(node@ == param_node_view(params[p as int].0@, params[p as int].1));
            }
            let ghost n0 = view_nodes(self.nodes@);
            let ghost nv = node@;
            self.nodes.push(node);
            self.param_nodes.push((id.clone(), p));
            proof {
                assert(params.take(p + 1) =~= params.take(p as int).push(params[p as int]));
                assert(parameter_node_views(params.take(p + 1)) =~= parameter_node_views(
                    params.take(p as int),
                ).push(nv));
                assert(view_nodes(self.nodes@) =~= n0.push(nv));
            }
            p = p + 1;
        }
        assert(params.take(params.len() as int) =~= params);
        let ghost comps = doc.components@;
        let ghost pv = parameter_node_views(params);
        assert(view_diagnostics(self.errors@) =~= components_errors(comps, 0));
        assert(view_nodes(self.nodes@) =~= pv + components_node_views(comps, 0));
        let mut ci: usize = 0;
        while ci < doc.components.len()
            invariant
                ci <= comps.len(),
                comps == doc.components@,
                params == doc.parameters@,
                pv == parameter_node_views(params),
                view_nodes(self.nodes@) == pv + components_node_views(comps, ci as int),
                view_diagnostics(self.errors@) == components_errors(comps, ci as int),
                sources_wf(self.nodes@),
                params_recorded(*self, *doc),
                stations_recorded(self.component_stations@, self.station_nodes@, *doc, ci as int),
            decreases comps.len() - ci,
        {
            match &doc.components[ci] {
                Component::Wing(wing) => {
                    assert(wing_of(comps[ci as int]) == *wing);
                    self.create_frame_origin_nodes(ci, wing);
                    let ghost after_frame = view_nodes(self.nodes@);
                    let ghost errors_frame = view_diagnostics(self.errors@);
                    let mut ids: Vec<String> = Vec::new();
                    let mut entries: Vec<StationNodes> = Vec::new();
                    let mut si: usize = 0;
                    assert(after_frame =~= after_frame + stations_node_views(ci, *wing, 0));
                    assert(errors_frame =~= errors_frame + stations_errors(ci, *wing, 0));
                    while si < wing.stations.len()
                        invariant
                            ci < comps.len(),
                            comps == doc.components@,
                            wing_of(comps[ci as int]) == *wing,
                            si <= wing.stations@.len(),
                            after_frame == pv + components_node_views(comps, ci as int) + frame_node_views(ci, *wing),
                            errors_frame == components_errors(comps, ci as int) + frame_errors_all(ci, *wing),
                            view_nodes(self.nodes@) == after_frame + stations_node_views(ci, *wing, si as int),
                            sources_wf(self.nodes@),
                            view_diagnostics(self.errors@) == errors_frame + stations_errors(ci, *wing, si as int),
                            params_recorded(*self, *doc),
                            stations_recorded(self.component_stations@, self.station_nodes@, *doc, ci as int),
                            ids@.len() == si,
                            entries@.len() == si,
                            forall|q: int|
                                0 <= q < si ==> (#[trigger] ids@[q])@ == wing.stations@[q].id@ && entries@[q]
                                    == station_nodes_spec(*doc, ci as int, q),
                            pv.len() == params.len(),
                            params == doc.parameters@,
                            pv == parameter_node_views(params),
                        decreases wing.stations@.len() - si,
                    {
                        let station = &wing.stations[si];
                        let ghost before_nodes = view_nodes(self.nodes@);
                        proof {
                            assert(view_nodes(self.nodes@).len() == self.nodes@.len());
                            assert(frame_node_views(ci, *wing).len() == 3);
                            let total = pv + components_node_views(comps, ci as int) + frame_node_views(ci, *wing)
                                + stations_node_views(ci, *wing, si as int);
                            assert(view_nodes(self.nodes@) == total);
                            assert(total.len() == pv.len() + components_node_views(comps, ci as int).len() + 3
                                + stations_node_views(ci, *wing, si as int).len());
                            assert(pv.len() == doc.parameters@.len());
                            assert((ci as int) as usize == ci);
                            assert(self.nodes@.len() == station_base(*doc, ci as int, si as int));
                        }
                        let ghost nl = self.nodes@.len();
                        let entry = self.create_station_nodes(ci, si, wing.id.as_str(), station);
                        assert(entry == station_nodes_spec(*doc, ci as int, si as int));
                        let ghost old_entries = entries@;
                        let ghost old_ids = ids@;
                        entries.push(entry);
                        ids.push(station.id.clone());
                        proof {
                            assert forall|q: int|
                                0 <= q < si + 1 implies (#[trigger] ids@[q])@ == wing.stations@[q].id@ && entries@[q]
                                    == station_nodes_spec(*doc, ci as int, q) by {
                                if q < si {
                                    assert(ids@[q] == old_ids[q]);
                                    assert(entries@[q] == old_entries[q]);
                                }
                            }
                            assert(view_nodes(self.nodes@) =~= after_frame + stations_node_views(
                                ci,
                                *wing,
                                si + 1,
                            ));
                            assert(view_diagnostics(self.errors@) =~= errors_frame + stations_errors(
                                ci,
                                *wing,
                                si + 1,
                            ));
                        }
                        si = si + 1;
                    }
                    let ghost cs0 = self.component_stations@;
                    let ghost sn0 = self.station_nodes@;
                    self.component_stations.push(ids);
                    self.station_nodes.push(entries);
                    proof {
                        assert forall|c: int|
                            #![trigger self.component_stations@[c]]
                            0 <= c < ci + 1 implies {
                                let w = wing_of(doc.components@[c]);
                                &&& self.component_stations@[c]@.len() == w.stations@.len()
                                &&& self.station_nodes@[c]@.len() == w.stations@.len()
                                &&& forall|si: int|
                                    0 <= si < w.stations@.len() ==> (#[trigger] self.component_stations@[c]@[si])@
                                        == w.stations@[si].id@ && self.station_nodes@[c]@[si] == station_nodes_spec(
                                        *doc,
                                        c,
                                        si,
                                    )
                            } by {
                            if c < ci {
                                assert(self.component_stations@[c] == cs0[c]);
                                assert(self.station_nodes@[c] == sn0[c]);
                            }
                        }
                        assert(view_nodes(self.nodes@) =~= pv + components_node_views(comps, ci + 1));
                        assert(view_diagnostics(self.errors@) =~= components_errors(comps, ci + 1));
                    }
                },
            }
            ci = ci + 1;
        }
        proof {
            reveal(skeleton);
            assert(view_nodes(self.nodes@) =~= skeleton(*doc));
        }
    }
}


/// Index of the first entry with the given key.
pub open spec fn key_index<V>(entries: Seq<(String, V)>, key: Seq<char>) -> Option<int>
    decreases entries.len(),
{
    if entries.len() == 0 {
        None
    } else {
        match key_index(entries.drop_last(), key) {
            Some(i) => Some(i),
            None => if entries.last().0@ == key {
                Some(entries.len() - 1)
            } else {
                None
            },
        }
    }
}

/// Index of the last station with the given id (a later station with a
/// repeated id shadows the earlier one).
pub open spec fn last_station(stations: Seq<Station>, id: Seq<char>) -> Option<int>
    decreases stations.len(),
{
    if stations.len() == 0 {
        None
    } else if stations.last().id@ == id {
        Some(stations.len() - 1)
    } else {
        last_station(stations.drop_last(), id)
    }
}

/// Index of the first component with the given id.
pub open spec fn first_component(comps: Seq<Component>, id: Seq<char>) -> Option<int>
    decreases comps.len(),
{
    if comps.len() == 0 {
        None
    } else {
        match first_component(comps.drop_last(), id) {
            Some(i) => Some(i),
            None => if comps.last().id_spec() == id {
                Some(comps.len() - 1)
            } else {
                None
            },
        }
    }
}

pub open spec fn leaf_node(sn: StationNodes, leaf: StationLeaf) -> NodeId {
    match leaf {
        StationLeaf::PositionX => sn.position[0],
        StationLeaf::PositionY => sn.position[1],
        StationLeaf::PositionZ => sn.position[2],
        StationLeaf::Chord => sn.chord,
        StationLeaf::Twist => sn.twist,
    }
}

pub open spec fn coordinate_node(sn: StationNodes, c: Coordinate) -> NodeId {
    match c {
        Coordinate::X => sn.position[0],
        Coordinate::Y => sn.position[1],
        Coordinate::Z => sn.position[2],
    }
}

pub open spec fn interface_station(i: Interface) -> Seq<char> {
    match i {
        Interface::StationPlane { station } => station@,
    }
}

/// The node producing a reference's value: parameters by id; station
/// fields within the first component; interface origins through the named
/// component's station-plane interface.
pub open spec fn resolve_node_spec(doc: AircraftDefinition, r: SpecRef) -> Result<NodeId, DiagnosticView> {
    match r {
        SpecRef::Parameter(id) => match key_index(doc.parameters@, id) {
            Some(p) => Ok(p as NodeId),
            None => Err(error_view(Code::UnknownReference, "unknown parameter "@ + str_debug_text(id))),
        },
        SpecRef::Station { station, leaf } => {
            let found = if doc.components@.len() == 0 {
                None
            } else {
                last_station(wing_of(doc.components@[0]).stations@, station)
            };
            match found {
                Some(si) => Ok(leaf_node(station_nodes_spec(doc, 0, si), leaf)),
                None => Err(error_view(Code::UnknownReference, "unknown station "@ + str_debug_text(station))),
            }
        },
        SpecRef::InterfaceOrigin { component, interface, coordinate } => match first_component(
            doc.components@,
            component,
        ) {
            None => Err(error_view(Code::UnknownReference, "unknown component "@ + str_debug_text(component))),
            Some(ci) => {
                let wing = wing_of(doc.components@[ci]);
                match key_index(wing.interfaces@, interface) {
                    None => Err(
                        error_view(
                            Code::UnknownReference,
                            "component "@ + str_debug_text(component)
                                + " has no station-plane interface named "@ + str_debug_text(interface),
                        ),
                    ),
                    Some(k) => {
                        let station = interface_station(wing.interfaces@[k].1);
                        match last_station(wing.stations@, station) {
                            None => Err(
                                error_view(
                                    Code::UnknownReference,
                                    "interface references unknown station "@ + str_debug_text(station),
                                ),
                            ),
                            Some(si) => Ok(coordinate_node(station_nodes_spec(doc, ci, si), coordinate)),
                        }
                    },
                }
            },
        },
    }
}

/// The builder holds the nodes and bookkeeping of `doc`.
pub open spec fn built_from(b: Builder, doc: AircraftDefinition) -> bool {
    &&& params_recorded(b, doc)
    &&& stations_recorded(b.component_stations@, b.station_nodes@, doc, doc.components@.len() as int)
}

fn find_key_index<V>(entries: &Vec<(String, V)>, key: &str) -> (r: Option<usize>)
    ensures
        match r {
            Some(i) => key_index(entries@, key@) == Some(i as int) && i < entries@.len(),
            None => key_index(entries@, key@) is None,
        },
{
    let mut i: usize = 0;
    while i < entries.len()
        invariant
            i <= entries@.len(),
            key_index(entries@.take(i as int), key@) is None,
        decreases entries@.len() - i,
    {
        proof {
            assert(entries@.take(i + 1).drop_last() =~= entries@.take(i as int));
        }
        if str_eq(entries[i].0.as_str(), key) {
            proof {
                lemma_key_index_prefix(entries@, key@, i + 1);
            }
            return Some(i);
        }
        i = i + 1;
    }
    assert(entries@.take(entries@.len() as int) =~= entries@);
    None
}

proof fn lemma_key_index_prefix<V>(entries: Seq<(String, V)>, key: Seq<char>, j: int)
    requires
        0 <= j <= entries.len(),
        key_index(entries.take(j), key) is Some,
    ensures
        key_index(entries, key) == key_index(entries.take(j), key),
    decreases entries.len() - j,
{
    if j < entries.len() {
        assert(entries.take(j + 1).drop_last() =~= entries.take(j));
        lemma_key_index_prefix(entries, key, j + 1);
    } else {
        assert(entries.take(j) =~= entries);
    }
}

fn find_last_station(ids: &Vec<String>, id: &str, Ghost(stations): Ghost<Seq<Station>>) -> (r: Option<usize>)
    requires
        ids@.len() == stations.len(),
        forall|si: int| 0 <= si < ids@.len() ==> (#[trigger] ids@[si])@ == stations[si].id@,
    ensures
        match r {
            Some(i) => last_station(stations, id@) == Some(i as int) && i < ids@.len(),
            None => last_station(stations, id@) is None,
        },
{
    let mut i: usize = ids.len();
    assert(stations.take(i as int) =~= stations);
    while i > 0
        invariant
            i <= ids@.len() == stations.len(),
            forall|si: int| 0 <= si < ids@.len() ==> (#[trigger] ids@[si])@ == stations[si].id@,
            last_station(stations, id@) == last_station(stations.take(i as int), id@),
        decreases i,
    {
        proof {
            assert(stations.take(i as int).drop_last() =~= stations.take(i - 1));
            assert(stations.take(i as int).last() == stations[i - 1]);
        }
        if str_eq(ids[i - 1].as_str(), id) {
            return Some(i - 1);
        }
        i = i - 1;
    }
    None
}

fn find_component(comps: &Vec<Component>, id: &str) -> (r: Option<usize>)
    ensures
        match r {
            Some(i) => first_component(comps@, id@) == Some(i as int) && i < comps@.len(),
            None => first_component(comps@, id@) is None,
        },
{
    let mut i: usize = 0;
    while i < comps.len()
        invariant
            i <= comps@.len(),
            first_component(comps@.take(i as int), id@) is None,
        decreases comps@.len() - i,
    {
        proof {
            assert(comps@.take(i + 1).drop_last() =~= comps@.take(i as int));
        }
        if str_eq(comps[i].id(), id) {
            proof {
                lemma_first_component_prefix(comps@, id@, i + 1);
            }
            return Some(i);
        }
        i = i + 1;
    }
    assert(comps@.take(comps@.len() as int) =~= comps@);
    None
}

proof fn lemma_first_component_prefix(comps: Seq<Component>, id: Seq<char>, j: int)
    requires
        0 <= j <= comps.len(),
        first_component(comps.take(j), id) is Some,
    ensures
        first_component(comps, id) == first_component(comps.take(j), id),
    decreases comps.len() - j,
{
    if j < comps.len() {
        assert(comps.take(j + 1).drop_last() =~= comps.take(j));
        lemma_first_component_prefix(comps, id, j + 1);
    } else {
        assert(comps.take(j) =~= comps);
    }
}

fn unknown_reference(prefix: &str, name: &str) -> (r: Diagnostic)
    ensures
        r@ == error_view(Code::UnknownReference, prefix@ + str_debug_text(name@)),
{
    let mut message = String::from_str(prefix);
    let quoted = str_debug(name);
    message.append(quoted.as_str());
    Diagnostic::error(Code::UnknownReference, message)
}

impl Builder {
    /// The node that produces a reference's value.
    pub fn resolve_node(&self, doc: &AircraftDefinition, reference: &Ref) -> (r: Result<NodeId, Diagnostic>)
        requires
            built_from(*self, *doc),
        ensures
            match r {
                Ok(n) => resolve_node_spec(*doc, reference@) == Ok::<NodeId, DiagnosticView>(n),
                Err(d) => resolve_node_spec(*doc, reference@) == Err::<NodeId, DiagnosticView>(d@),
            },
    {
        match reference {
            Ref::Parameter(id) => {
                match find_key_index(&self.param_nodes, id.as_str()) {
                    Some(p) => {
                        proof {
                            lemma_key_index_same(self.param_nodes@, doc.parameters@, id@);
                        }
                        Ok(self.param_nodes[p].1)
                    },
                    None => {
                        proof {
                            lemma_key_index_same(self.param_nodes@, doc.parameters@, id@);
                        }
                        Err(unknown_reference("unknown parameter ", id.as_str()))
                    },
                }
            },
            Ref::Station { station, leaf } => {
                let found = if doc.components.len() == 0 {
                    None
                } else {
                    let ghost stations = wing_of(doc.components@[0]).stations@;
                    assert(self.component_stations@[0]@.len() == stations.len());
                    find_last_station(&self.component_stations[0], station.as_str(), Ghost(stations))
                };
                match found {
                    Some(si) => {
                        assert(self.component_stations@[0]@[si as int]@ == wing_of(doc.components@[0]).stations@[si as int].id@);
                        let sn = self.station_nodes[0][si];
                        Ok(
                            match leaf {
                                StationLeaf::PositionX => sn.position[0],
                                StationLeaf::PositionY => sn.position[1],
                                StationLeaf::PositionZ => sn.position[2],
                                StationLeaf::Chord => sn.chord,
                                StationLeaf::Twist => sn.twist,
                            },
                        )
                    },
                    None => Err(unknown_reference("unknown station ", station.as_str())),
                }
            },
            Ref::InterfaceOrigin { component, interface, coordinate } => {
                let ci = match find_component(&doc.components, component.as_str()) {
                    Some(ci) => ci,
                    None => {
                        return Err(unknown_reference("unknown component ", component.as_str()));
                    },
                };
                let Component::Wing(wing) = &doc.components[ci];
                assert(wing_of(doc.components@[ci as int]) == *wing);
                let k = match find_key_index(&wing.interfaces, interface.as_str()) {
                    Some(k) => k,
                    None => {
                        let mut message = String::from_str("component ");
                        message.append(str_debug(component.as_str()).as_str());
                        message.append(" has no station-plane interface named ");
                        message.append(str_debug(interface.as_str()).as_str());
                        proof {
                            reveal_strlit("component ");
                            reveal_strlit(" has no station-plane interface named ");
                        }
                        return Err(Diagnostic::error(Code::UnknownReference, message));
                    },
                };
                let Interface::StationPlane { station } = &wing.interfaces[k].1;
                assert(interface_station(wing.interfaces@[k as int].1) == station@);
                let ghost stations = wing.stations@;
                assert(self.component_stations@[ci as int]@.len() == stations.len());
                match find_last_station(&self.component_stations[ci], station.as_str(), Ghost(stations)) {
                    None => Err(unknown_reference("interface references unknown station ", station.as_str())),
                    Some(si) => {
                        assert(self.component_stations@[ci as int]@[si as int]@ == stations[si as int].id@);
                        let sn = self.station_nodes[ci][si];
                        Ok(
                            match coordinate {
                                Coordinate::X => sn.position[0],
                                Coordinate::Y => sn.position[1],
                                Coordinate::Z => sn.position[2],
                            },
                        )
                    },
                }
            },
        }
    }
}

proof fn lemma_key_index_same<V, W>(a: Seq<(String, V)>, b: Seq<(String, W)>, key: Seq<char>)
    requires
        a.len() == b.len(),
        forall|p: int| 0 <= p < a.len() ==> (#[trigger] a[p]).0@ == b[p].0@,
    ensures
        key_index(a, key) == key_index(b, key),
    decreases a.len(),
{
    if a.len() > 0 {
        lemma_key_index_same(a.drop_last(), b.drop_last(), key);
        assert(a.last().0@ == b.last().0@);
    }
}


proof fn lemma_stations_prefix_len(ci: usize, w: Wing, si: int, m: int)
    requires
        0 <= si < m <= w.stations@.len(),
    ensures
        stations_node_views(ci, w, si).len() + station_node_views(ci, si as usize, w.id@, w.stations@[si]).len()
            <= stations_node_views(ci, w, m).len(),
    decreases m,
{
    if si < m - 1 {
        lemma_stations_prefix_len(ci, w, si, m - 1);
    }
}

proof fn lemma_components_prefix_len(comps: Seq<Component>, ci: int, k: int)
    requires
        0 <= ci < k <= comps.len(),
    ensures
        components_node_views(comps, ci).len() + wing_node_views(ci as usize, wing_of(comps[ci])).len()
            <= components_node_views(comps, k).len(),
    decreases k,
{
    if ci < k - 1 {
        lemma_components_prefix_len(comps, ci, k - 1);
    }
}

/// Every node index recorded for a station lies inside the skeleton.
pub proof fn lemma_station_nodes_in_range(doc: AircraftDefinition, ci: int, si: int)
    requires
        0 <= ci < doc.components@.len(),
        0 <= si < wing_of(doc.components@[ci]).stations@.len(),
    ensures
        ({
            let sn = station_nodes_spec(doc, ci, si);
            let n = skeleton(doc).len();
            &&& sn.position[0] < n
            &&& sn.position[1] < n
            &&& sn.position[2] < n
            &&& sn.chord < n
            &&& sn.twist < n
            &&& (sn.trailing_edge matches Some(t) ==> t < n)
            &&& station_base(doc, ci, si) + 5 <= n
        }),
{
    let w = wing_of(doc.components@[ci]);
    let st = w.stations@[si];
    lemma_stations_prefix_len(ci as usize, w, si, w.stations@.len() as int);
    lemma_components_prefix_len(doc.components@, ci, doc.components@.len() as int);
    let b = station_base(doc, ci, si);
    let svl = station_node_views(ci as usize, si as usize, w.id@, st).len();
    assert(svl == 5 + if trailing_field(st) is Some { 1int } else { 0int });
    assert(b + svl <= doc.parameters@.len() + components_node_views(doc.components@, ci).len()
        + wing_node_views(ci as usize, w).len());
    reveal(skeleton);
    assert(skeleton(doc).len() == doc.parameters@.len() + components_node_views(
        doc.components@,
        doc.components@.len() as int,
    ).len());
}

/// A resolved reference names a node of the skeleton.
pub proof fn lemma_resolved_in_range(doc: AircraftDefinition, r: SpecRef)
    requires
        resolve_node_spec(doc, r) is Ok,
    ensures
        resolve_node_spec(doc, r)->Ok_0 < skeleton(doc).len(),
{
    match r {
        SpecRef::Parameter(id) => {
            lemma_key_index_bound(doc.parameters@, id);
            lemma_skeleton_len(doc);
        },
        SpecRef::Station { station, leaf } => {
            let si = last_station(wing_of(doc.components@[0]).stations@, station)->Some_0;
            lemma_last_station_bound(wing_of(doc.components@[0]).stations@, station);
            lemma_station_nodes_in_range(doc, 0, si);
        },
        SpecRef::InterfaceOrigin { component, interface, coordinate } => {
            let ci = first_component(doc.components@, component)->Some_0;
            lemma_first_component_bound(doc.components@, component);
            let wing = wing_of(doc.components@[ci]);
            let k = key_index(wing.interfaces@, interface)->Some_0;
            lemma_key_index_bound(wing.interfaces@, interface);
            let station = interface_station(wing.interfaces@[k].1);
            let si = last_station(wing.stations@, station)->Some_0;
            lemma_last_station_bound(wing.stations@, station);
            lemma_station_nodes_in_range(doc, ci, si);
        },
    }
}

proof fn lemma_key_index_bound<V>(entries: Seq<(String, V)>, key: Seq<char>)
    ensures
        key_index(entries, key) matches Some(i) ==> 0 <= i < entries.len() && entries[i].0@ == key,
    decreases entries.len(),
{
    if entries.len() > 0 {
        lemma_key_index_bound(entries.drop_last(), key);
    }
}

proof fn lemma_last_station_bound(stations: Seq<Station>, id: Seq<char>)
    ensures
        last_station(stations, id) matches Some(i) ==> 0 <= i < stations.len() && stations[i].id@ == id,
    decreases stations.len(),
{
    if stations.len() > 0 {
        lemma_last_station_bound(stations.drop_last(), id);
    }
}

proof fn lemma_first_component_bound(comps: Seq<Component>, id: Seq<char>)
    ensures
        first_component(comps, id) matches Some(i) ==> 0 <= i < comps.len() && comps[i].id_spec() == id,
    decreases comps.len(),
{
    if comps.len() > 0 {
        lemma_first_component_bound(comps.drop_last(), id);
    }
}


pub proof fn lemma_key_index_same_pub<V, W>(a: Seq<(String, V)>, b: Seq<(String, W)>, key: Seq<char>)
    requires
        a.len() == b.len(),
        forall|p: int| 0 <= p < a.len() ==> (#[trigger] a[p]).0@ == b[p].0@,
    ensures
        key_index(a, key) == key_index(b, key),
{
    lemma_key_index_same(a, b, key);
}

pub fn find_key_index_pub<V>(entries: &Vec<(String, V)>, key: &str) -> (r: Option<usize>)
    ensures
        match r {
            Some(i) => key_index(entries@, key@) == Some(i as int) && i < entries@.len(),
            None => key_index(entries@, key@) is None,
        },
{
    find_key_index(entries, key)
}


/// Nodes with no dependency wired yet.
pub open spec fn fresh(vs: Seq<NodeView>) -> bool {
    forall|i: int| 0 <= i < vs.len() ==> (#[trigger] vs[i]).deps == Seq::<NodeId>::empty()
        && vs[i].ref_nodes == Seq::<(SpecRef, NodeId)>::empty()
}

proof fn lemma_fresh_concat(a: Seq<NodeView>, b: Seq<NodeView>)
    requires
        fresh(a),
        fresh(b),
    ensures
        fresh(a + b),
{
    assert forall|i: int| 0 <= i < (a + b).len() implies (#[trigger] (a + b)[i]).deps == Seq::<NodeId>::empty()
        && (a + b)[i].ref_nodes == Seq::<(SpecRef, NodeId)>::empty() by {
        if i < a.len() {
            assert((a + b)[i] == a[i]);
        } else {
            assert((a + b)[i] == b[i - a.len()]);
        }
    }
}

proof fn lemma_station_fresh(ci: usize, si: usize, wid: Seq<char>, st: Station)
    ensures
        fresh(station_node_views(ci, si, wid, st)),
{
    reveal(station_field_node_view);
    let vs = station_node_views(ci, si, wid, st);
    assert forall|i: int| 0 <= i < vs.len() implies (#[trigger] vs[i]).deps == Seq::<NodeId>::empty()
        && vs[i].ref_nodes == Seq::<(SpecRef, NodeId)>::empty() by {}
}

proof fn lemma_stations_fresh(ci: usize, w: Wing, k: int)
    ensures
        fresh(stations_node_views(ci, w, k)),
    decreases k,
{
    if k > 0 {
        lemma_station_fresh(ci, (k - 1) as usize, w.id@, w.stations@[k - 1]);
        lemma_stations_fresh(ci, w, k - 1);
        lemma_fresh_concat(
            stations_node_views(ci, w, k - 1),
            station_node_views(ci, (k - 1) as usize, w.id@, w.stations@[k - 1]),
        );
    }
}

proof fn lemma_components_fresh(comps: Seq<Component>, k: int)
    ensures
        fresh(components_node_views(comps, k)),
    decreases k,
{
    reveal(frame_node_view);
    if k > 0 {
        lemma_components_fresh(comps, k - 1);
        let w = wing_of(comps[k - 1]);
        lemma_stations_fresh((k - 1) as usize, w, w.stations@.len() as int);
        lemma_fresh_concat(frame_node_views((k - 1) as usize, w), stations_node_views((k - 1) as usize, w, w.stations@.len() as int));
        lemma_fresh_concat(components_node_views(comps, k - 1), wing_node_views((k - 1) as usize, w));
    }
}

/// No node of the skeleton has dependencies yet.
pub proof fn lemma_skeleton_fresh(doc: AircraftDefinition)
    ensures
        fresh(skeleton(doc)),
{
    reveal(skeleton);
    lemma_components_fresh(doc.components@, doc.components@.len() as int);
    lemma_fresh_concat(
        parameter_node_views(doc.parameters@),
        components_node_views(doc.components@, doc.components@.len() as int),
    );
}


pub proof fn lemma_key_index_bound_pub<V>(entries: Seq<(String, V)>, key: Seq<char>)
    ensures
        key_index(entries, key) matches Some(i) ==> 0 <= i < entries.len() && entries[i].0@ == key,
{
    lemma_key_index_bound(entries, key);
}

/// The parameters come first among the nodes.
pub proof fn lemma_skeleton_len(doc: AircraftDefinition)
    ensures
        doc.parameters@.len() <= skeleton(doc).len(),
        forall|p: int| 0 <= p < doc.parameters@.len() ==> #[trigger] skeleton(doc)[p] == param_node_view(
            doc.parameters@[p].0@,
            doc.parameters@[p].1,
        ),
{
    reveal(skeleton);
}


pub proof fn lemma_last_station_bound_pub(stations: Seq<Station>, id: Seq<char>)
    ensures
        last_station(stations, id) matches Some(i) ==> 0 <= i < stations.len() && stations[i].id@ == id,
{
    lemma_last_station_bound(stations, id);
}

/// A station's own id always finds a station.
pub proof fn lemma_last_station_found(stations: Seq<Station>, si: int)
    requires
        0 <= si < stations.len(),
    ensures
        last_station(stations, stations[si].id@) is Some,
    decreases stations.len(),
{
    if stations.last().id@ != stations[si].id@ {
        lemma_last_station_found(stations.drop_last(), si);
    }
}

pub fn find_last_station_pub(ids: &Vec<String>, id: &str, Ghost(stations): Ghost<Seq<Station>>) -> (r: Option<usize>)
    requires
        ids@.len() == stations.len(),
        forall|si: int| 0 <= si < ids@.len() ==> (#[trigger] ids@[si])@ == stations[si].id@,
    ensures
        match r {
            Some(i) => last_station(stations, id@) == Some(i as int) && i < ids@.len(),
            None => last_station(stations, id@) is None,
        },
{
    find_last_station(ids, id, Ghost(stations))
}

} // verus!
