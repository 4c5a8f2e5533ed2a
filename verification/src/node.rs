//! Typed graph nodes: one per raw parameter and per typed numeric field.
use vstd::prelude::*;
use crate::ast::{Coordinate, Expr, Ref, SpecExpr, SpecRef};
use crate::check::{Checked, SpecChecked};
use crate::diagnostic::Code;
use crate::dim::Dimension;

verus! {

pub type NodeId = usize;

/// Which typed field of a station a node represents.
#[derive(Debug, Clone, Copy, PartialEq, Eq, Structural)]
pub enum FieldKind {
    PositionX,
    PositionY,
    PositionZ,
    Chord,
    Twist,
    TrailingEdgeThickness,
    TrailingEdgeFraction,
}

impl FieldKind {
    pub open spec fn dimension_spec(self) -> Dimension {
        match self {
            FieldKind::Twist => Dimension::angle(),
            FieldKind::TrailingEdgeFraction => Dimension::ratio(),
            _ => Dimension::length(),
        }
    }

    /// The dimension a value of this field carries.
    pub fn dimension(self) -> (r: Dimension)
        ensures
            r == self.dimension_spec(),
    {
        match self {
            FieldKind::PositionX
            | FieldKind::PositionY
            | FieldKind::PositionZ
            | FieldKind::Chord
            | FieldKind::TrailingEdgeThickness => Dimension::length(),
            FieldKind::Twist => Dimension::angle(),
            FieldKind::TrailingEdgeFraction => Dimension::ratio(),
        }
    }

    pub open spec fn subject_name_spec(self) -> Seq<char> {
        match self {
            FieldKind::PositionX => "position x"@,
            FieldKind::PositionY => "position y"@,
            FieldKind::PositionZ => "position z"@,
            FieldKind::Chord => "chord"@,
            FieldKind::Twist => "twist"@,
            FieldKind::TrailingEdgeThickness => "trailing edge thickness"@,
            FieldKind::TrailingEdgeFraction => "trailing edge fraction"@,
        }
    }

    /// Human-readable fragment naming the field in diagnostics.
    pub fn subject_name(self) -> (r: &'static str)
        ensures
            r@ == self.subject_name_spec(),
    {
        match self {
            FieldKind::PositionX => "position x",
            FieldKind::PositionY => "position y",
            FieldKind::PositionZ => "position z",
            FieldKind::Chord => "chord",
            FieldKind::Twist => "twist",
            FieldKind::TrailingEdgeThickness => "trailing edge thickness",
            FieldKind::TrailingEdgeFraction => "trailing edge fraction",
        }
    }
}

#[derive(Debug)]
pub enum NodeKind {
    Parameter { id: String },
    StationField { component_index: usize, station_index: usize, field: FieldKind },
    FrameOrigin { component_index: usize, coordinate: Coordinate },
}

/// Where a node's numeric value comes from. Numbers are binary64 bit
/// patterns, read by the evaluator.
#[derive(Debug)]
pub enum ValueSource {
    /// The raw value of a parameter node (interpreted in document units).
    Raw(u64),
    Literal(u64),
    Parameter(String),
    Expression(Checked),
    /// A parsed expression awaiting dependency resolution; never present in a
    /// successfully built graph.
    Unresolved(Expr),
}

#[derive(Debug)]
pub struct Node {
    pub kind: NodeKind,
    /// Human-readable identity, e.g. `main-wing / station kink / position x`.
    pub subject: String,
    /// JSON path into the source document.
    pub path: String,
    /// Short identity for dependency chains, e.g. `kink.position.x`.
    pub short_name: String,
    /// The dimension this node's value is evaluated in (canonical units).
    pub dimension: Option<Dimension>,
    pub source: ValueSource,
    /// References used by this node's expression, mapped to producer nodes.
    pub ref_nodes: Vec<(Ref, NodeId)>,
    /// Producer nodes this node depends on.
    pub deps: Vec<NodeId>,
}

impl Node {
    pub open spec fn expected_dimension_spec(&self) -> Dimension {
        match self.dimension {
            Some(d) => d,
            None => Dimension::ratio(),
        }
    }

    /// The dimension demanded of any parameter feeding this node.
    pub fn expected_dimension(&self) -> (r: Dimension)
        ensures
            r == self.expected_dimension_spec(),
    {
        match self.dimension {
            Some(d) => d,
            None => Dimension::ratio(),
        }
    }

    /// Code used when this node's value is not finite.
    pub fn non_finite_code(&self) -> (r: Code)
        ensures
            r == Code::NonFiniteResult,
    {
        Code::NonFiniteResult
    }
}


pub enum NodeKindView {
    Parameter { id: Seq<char> },
    StationField { component_index: usize, station_index: usize, field: FieldKind },
    FrameOrigin { component_index: usize, coordinate: Coordinate },
}

pub enum SourceView {
    Raw(u64),
    Literal(u64),
    Parameter(Seq<char>),
    Expression(SpecChecked),
    Unresolved(SpecExpr),
}

pub struct NodeView {
    pub kind: NodeKindView,
    pub subject: Seq<char>,
    pub path: Seq<char>,
    pub short_name: Seq<char>,
    pub dimension: Option<Dimension>,
    pub source: SourceView,
    pub ref_nodes: Seq<(SpecRef, NodeId)>,
    pub deps: Seq<NodeId>,
}

impl View for NodeKind {
    type V = NodeKindView;

    open spec fn view(&self) -> NodeKindView {
        match self {
            NodeKind::Parameter { id } => NodeKindView::Parameter { id: id@ },
            NodeKind::StationField { component_index, station_index, field } => NodeKindView::StationField {
                component_index: *component_index,
                station_index: *station_index,
                field: *field,
            },
            NodeKind::FrameOrigin { component_index, coordinate } => NodeKindView::FrameOrigin {
                component_index: *component_index,
                coordinate: *coordinate,
            },
        }
    }
}

impl View for ValueSource {
    type V = SourceView;

    open spec fn view(&self) -> SourceView {
        match self {
            ValueSource::Raw(b) => SourceView::Raw(*b),
            ValueSource::Literal(b) => SourceView::Literal(*b),
            ValueSource::Parameter(id) => SourceView::Parameter(id@),
            ValueSource::Expression(c) => SourceView::Expression(c@),
            ValueSource::Unresolved(e) => SourceView::Unresolved(e@),
        }
    }
}

pub open spec fn view_ref_nodes(v: Seq<(Ref, NodeId)>) -> Seq<(SpecRef, NodeId)> {
    v.map_values(|p: (Ref, NodeId)| (p.0@, p.1))
}

impl View for Node {
    type V = NodeView;

    open spec fn view(&self) -> NodeView {
        NodeView {
            kind: self.kind@,
            subject: self.subject@,
            path: self.path@,
            short_name: self.short_name@,
            dimension: self.dimension,
            source: self.source@,
            ref_nodes: view_ref_nodes(self.ref_nodes@),
            deps: self.deps@,
        }
    }
}

pub open spec fn view_nodes(nodes: Seq<Node>) -> Seq<NodeView> {
    nodes.map_values(|n: Node| n@)
}

} // verus!
