//! How each loft panel's leading edge leaves and meets its stations: the
//! choice, per panel end, of which direction governs it. Panel `i` runs from
//! station `i` to station `i + 1`; it departs with station `i`'s `left` side
//! and arrives with station `i + 1`'s `right` side. An `auto` side adopts the
//! other side's explicit direction; when both sides of a kink are `auto` it
//! takes the mean of the two panel sweeps; alone, it keeps its own straight
//! sweep. The vectors themselves are computed from the evaluated stations.
use vstd::prelude::*;
use crate::builder::wing_of;
use crate::diagnostic::{has_error, DiagnosticView};
use crate::model::{AircraftDefinition, StationTangency, StationTangencySide, Wing};
use crate::semantic::{
    component_checks, components_checks, side_errors, station_checks, stations_checks, tangency_errors,
    validate_spec, wing_checks,
};

verus! {

broadcast use vstd::std_specs::vec::axiom_spec_len;

/// Which direction governs one end of a panel.
#[derive(Debug, Clone, Copy, PartialEq)]
pub enum TangentSource {
    /// An explicit direction (binary64 bit patterns), used normalized.
    Direction([u64; 3]),
    /// The unit sweep of a panel: from its inner station toward its outer one.
    Sweep(usize),
    /// The normalized sum of the sweeps of two neighbouring panels.
    MeanSweep(usize, usize),
}

/// A governing direction with its strength (a binary64 bit pattern).
#[derive(Debug, Clone, Copy, PartialEq)]
pub struct PlannedTangent {
    pub source: TangentSource,
    pub strength: u64,
}

/// The tangent constraints at both ends of one panel.
#[derive(Debug, Clone, Copy, PartialEq)]
pub struct PanelPlan {
    pub start: Option<PlannedTangent>,
    pub end: Option<PlannedTangent>,
}

/// A side is usable when it is `auto` or carries a direction.
pub open spec fn side_directed(side: Option<StationTangencySide>) -> bool {
    side matches Some(s) ==> s.auto || s.direction is Some
}

/// The tangencies the planner accepts: every side is `auto` or directed,
/// and the tip station has no departure (`left`) side.
pub open spec fn tangencies_valid(wing: Wing) -> bool {
    forall|i: int|
        0 <= i < wing.stations@.len() ==> match #[trigger] wing.stations@[i].tangency {
            Some(t) => side_directed(t.left) && side_directed(t.right) && (i == wing.stations@.len() - 1
                ==> t.left is None),
            None => true,
        }
}

/// What a side resolves to: its own direction when explicit; otherwise the
/// other side's direction (with the other side's strength) when that one is
/// explicit, `both` when the other side is `auto` too, and `own` when there
/// is no other side.
pub open spec fn resolve_side(
    side: StationTangencySide,
    other: Option<StationTangencySide>,
    both: TangentSource,
    own: TangentSource,
) -> PlannedTangent {
    if !side.auto {
        PlannedTangent { source: TangentSource::Direction(side.direction->Some_0), strength: side.strength }
    } else {
        match other {
            Some(o) => if !o.auto {
                PlannedTangent { source: TangentSource::Direction(o.direction->Some_0), strength: o.strength }
            } else {
                PlannedTangent { source: both, strength: side.strength }
            },
            None => PlannedTangent { source: own, strength: side.strength },
        }
    }
}

/// The departure of panel `p`, set by station `p`'s `left` side.
pub open spec fn start_spec(wing: Wing, p: int) -> Option<PlannedTangent> {
    match wing.stations@[p].tangency {
        Some(t) => match t.left {
            Some(left) => Some(
                resolve_side(
                    left,
                    t.right,
                    if p == 0 {
                        TangentSource::Sweep(0)
                    } else {
                        TangentSource::MeanSweep((p - 1) as usize, p as usize)
                    },
                    TangentSource::Sweep(p as usize),
                ),
            ),
            None => None,
        },
        None => None,
    }
}

/// The arrival of panel `p`, set by station `p + 1`'s `right` side.
pub open spec fn end_spec(wing: Wing, p: int) -> Option<PlannedTangent> {
    match wing.stations@[p + 1].tangency {
        Some(t) => match t.right {
            Some(right) => Some(
                resolve_side(
                    right,
                    t.left,
                    TangentSource::MeanSweep(p as usize, (p + 1) as usize),
                    TangentSource::Sweep(p as usize),
                ),
            ),
            None => None,
        },
        None => None,
    }
}

/// One plan per panel, in panel order.
pub open spec fn panel_plan_spec(wing: Wing) -> Seq<PanelPlan> {
    let n = wing.stations@.len();
    Seq::new(
        if n == 0 { 0 } else { (n - 1) as nat },
        |p: int| PanelPlan { start: start_spec(wing, p), end: end_spec(wing, p) },
    )
}

fn side_is_directed(side: &Option<StationTangencySide>) -> (r: bool)
    ensures
        r == side_directed(*side),
{
    match side {
        Some(s) => s.auto || s.direction.is_some(),
        None => true,
    }
}

/// Whether the planner accepts a wing's tangencies.
pub fn tangencies_usable(wing: &Wing) -> (r: bool)
    ensures
        r == tangencies_valid(*wing),
{
    let n = wing.stations.len();
    let mut i: usize = 0;
    while i < n
        invariant
            i <= n,
            n == wing.stations@.len(),
            forall|k: int|
                0 <= k < i ==> match #[trigger] wing.stations@[k].tangency {
                    Some(t) => side_directed(t.left) && side_directed(t.right) && (k == n - 1 ==> t.left is None),
                    None => true,
                },
        decreases n - i,
    {
        match &wing.stations[i].tangency {
            Some(t) => {
                if !side_is_directed(&t.left) || !side_is_directed(&t.right) || (i == n - 1 && t.left.is_some()) {
                    assert(!match wing.stations@[i as int].tangency {
                        Some(t) => side_directed(t.left) && side_directed(t.right) && (i == n - 1 ==> t.left is None),
                        None => true,
                    });
                    return false;
                }
            },
            None => {},
        }
        i = i + 1;
    }
    true
}

fn resolve(
    side: &StationTangencySide,
    other: &Option<StationTangencySide>,
    both: TangentSource,
    own: TangentSource,
) -> (r: PlannedTangent)
    requires
        side_directed(Some(*side)),
        side_directed(*other),
    ensures
        r == resolve_side(*side, *other, both, own),
{
    if !side.auto {
        PlannedTangent { source: TangentSource::Direction(side.direction.unwrap()), strength: side.strength }
    } else {
        match other {
            Some(o) => if !o.auto {
                PlannedTangent { source: TangentSource::Direction(o.direction.unwrap()), strength: o.strength }
            } else {
                PlannedTangent { source: both, strength: side.strength }
            },
            None => PlannedTangent { source: own, strength: side.strength },
        }
    }
}

/// Plans the tangent constraints of every panel of a wing.
pub fn plan_panel_tangencies(wing: &Wing) -> (r: Vec<PanelPlan>)
    requires
        tangencies_valid(*wing),
    ensures
        r@ == panel_plan_spec(*wing),
{
    let n = wing.stations.len();
    let mut plans: Vec<PanelPlan> = Vec::new();
    if n == 0 {
        assert(plans@ =~= panel_plan_spec(*wing));
        return plans;
    }
    let mut p: usize = 0;
    while p + 1 < n
        invariant
            n == wing.stations@.len(),
            n > 0,
            p < n,
            tangencies_valid(*wing),
            plans@.len() == p,
            forall|k: int| 0 <= k < p ==> plans@[k] == panel_plan_spec(*wing)[k],
        decreases n - p,
    {
        let start = match &wing.stations[p].tangency {
            Some(t) => match &t.left {
                Some(left) => {
                    let both = if p == 0 {
                        TangentSource::Sweep(0)
                    } else {
                        TangentSource::MeanSweep(p - 1, p)
                    };
                    assert(side_directed(t.left) && side_directed(t.right));
                    Some(resolve(left, &t.right, both, TangentSource::Sweep(p)))
                },
                None => None,
            },
            None => None,
        };
        let end = match &wing.stations[p + 1].tangency {
            Some(t) => match &t.right {
                Some(right) => {
                    assert(side_directed(t.left) && side_directed(t.right));
                    Some(resolve(right, &t.left, TangentSource::MeanSweep(p, p + 1), TangentSource::Sweep(p)))
                },
                None => None,
            },
            None => None,
        };
        plans.push(PanelPlan { start, end });
        assert(plans@[p as int] == panel_plan_spec(*wing)[p as int]);
        p = p + 1;
    }
    assert(plans@ =~= panel_plan_spec(*wing));
    plans
}

proof fn lemma_error_in_concat(a: Seq<DiagnosticView>, b: Seq<DiagnosticView>)
    requires
        has_error(a) || has_error(b),
    ensures
        has_error(a + b),
{
    if has_error(a) {
        let i = choose|i: int| 0 <= i < a.len() && #[trigger] a[i].severity == crate::diagnostic::Severity::Error;
        assert((a + b)[i] == a[i]);
    } else {
        let i = choose|i: int| 0 <= i < b.len() && #[trigger] b[i].severity == crate::diagnostic::Severity::Error;
        assert((a + b)[a.len() + i] == b[i]);
    }
}

proof fn lemma_station_error_reaches(doc: AircraftDefinition, ci: int, wing: Wing, k: int, si: int)
    requires
        0 <= si < k,
        has_error(station_checks(doc, ci, wing, si)),
    ensures
        has_error(stations_checks(doc, ci, wing, k)),
    decreases k,
{
    if si == k - 1 {
        lemma_error_in_concat(stations_checks(doc, ci, wing, k - 1), station_checks(doc, ci, wing, k - 1));
    } else {
        lemma_station_error_reaches(doc, ci, wing, k - 1, si);
        lemma_error_in_concat(stations_checks(doc, ci, wing, k - 1), station_checks(doc, ci, wing, k - 1));
    }
}

proof fn lemma_component_error_reaches(doc: AircraftDefinition, k: int, ci: int)
    requires
        0 <= ci < k,
        has_error(component_checks(doc, ci)),
    ensures
        has_error(components_checks(doc, k)),
    decreases k,
{
    if ci < k - 1 {
        lemma_component_error_reaches(doc, k - 1, ci);
    }
    lemma_error_in_concat(components_checks(doc, k - 1), component_checks(doc, k - 1));
}

/// A side the planner refuses is reported as an error by validation.
proof fn lemma_undirected_side_error(name: Seq<char>, side: StationTangencySide, path: Seq<char>, subject: Seq<char>)
    requires
        !side_directed(Some(side)),
    ensures
        has_error(side_errors(name, side, path, subject)),
{
    reveal(side_errors);
    let e = side_errors(name, side, path, subject);
    assert(e[0].severity == crate::diagnostic::Severity::Error);
}

/// A document whose semantic validation reports no error has, in every
/// wing, tangencies the panel planner accepts.
pub proof fn law_validated_tangencies_plan(doc: AircraftDefinition, ci: int)
    requires
        !has_error(validate_spec(doc)),
        0 <= ci < doc.components@.len(),
    ensures
        tangencies_valid(wing_of(doc.components@[ci])),
{
    let wing = wing_of(doc.components@[ci]);
    let n = wing.stations@.len();
    assert forall|si: int| 0 <= si < n implies match #[trigger] wing.stations@[si].tangency {
        Some(t) => side_directed(t.left) && side_directed(t.right) && (si == n - 1 ==> t.left is None),
        None => true,
    } by {
        if let Some(t) = wing.stations@[si].tangency {
            if !(side_directed(t.left) && side_directed(t.right) && (si == n - 1 ==> t.left is None)) {
                let st = wing.stations@[si];
                let path = crate::model::station_path_spec(ci as nat, si as nat) + "/tangency"@;
                let subject = "component "@ + wing.id@ + " / station "@ + st.id@ + " / tangency"@;
                let last = if n == 0 { 0 } else { n - 1 };
                reveal(tangency_errors);
                let at = |message: Seq<char>, side: Seq<char>|
                    crate::diagnostic::error_view(crate::diagnostic::Code::InvalidTangency, message).with_path(
                        path + "/"@ + side,
                    ).with_subject(subject);
                let p1 = if t.left is Some && si == last {
                    seq![at("'left' (departure) is not valid on the tip station; use 'right' (arrival)"@, "left"@)]
                } else {
                    Seq::<DiagnosticView>::empty()
                };
                let p2 = if t.right is Some && si == 0 {
                    seq![at("'right' (arrival) is not valid on the root station; use 'left' (departure)"@, "right"@)]
                } else {
                    Seq::<DiagnosticView>::empty()
                };
                let p3 = match t.left {
                    Some(side) => side_errors("left"@, side, path, subject),
                    None => Seq::<DiagnosticView>::empty(),
                };
                let p4 = match t.right {
                    Some(side) => side_errors("right"@, side, path, subject),
                    None => Seq::<DiagnosticView>::empty(),
                };
                let te = tangency_errors(si, last, t, path, subject);
                assert(te == p1 + p2 + p3 + p4);
                if t.left is Some && si == n - 1 {
                    assert(p1[0].severity == crate::diagnostic::Severity::Error);
                    lemma_error_in_concat(p1, p2);
                    lemma_error_in_concat(p1 + p2, p3);
                    lemma_error_in_concat(p1 + p2 + p3, p4);
                } else if !side_directed(t.left) {
                    lemma_undirected_side_error("left"@, t.left->Some_0, path, subject);
                    lemma_error_in_concat(p1 + p2, p3);
                    lemma_error_in_concat(p1 + p2 + p3, p4);
                } else {
                    lemma_undirected_side_error("right"@, t.right->Some_0, path, subject);
                    lemma_error_in_concat(p1 + p2 + p3, p4);
                }
                let sc = station_checks(doc, ci, wing, si);
                let d = if crate::semantic::station_ids_before(wing.stations@, si).contains(st.id@) {
                    seq![
                        crate::diagnostic::error_view(
                            crate::diagnostic::Code::DuplicateIdentifier,
                            "duplicate station id "@ + crate::text::str_debug_text(st.id@) + " in wing "@
                                + crate::text::str_debug_text(wing.id@),
                        ).with_path(crate::model::station_path_spec(ci as nat, si as nat) + "/id"@).with_subject(
                            crate::semantic::station_subject(wing, st),
                        ),
                    ]
                } else {
                    Seq::<DiagnosticView>::empty()
                };
                let a = if !crate::model::has_key(doc.airfoils@, st.airfoil@) {
                    seq![
                        crate::diagnostic::error_view(
                            crate::diagnostic::Code::UnknownReference,
                            "station "@ + crate::text::str_debug_text(st.id@) + " references airfoil "@
                                + crate::text::str_debug_text(st.airfoil@) + " which is not defined"@,
                        ).with_path(crate::model::station_path_spec(ci as nat, si as nat) + "/airfoil"@).with_subject(
                            crate::semantic::station_subject(wing, st),
                        ),
                    ]
                } else {
                    Seq::<DiagnosticView>::empty()
                };
                assert(sc == d + te + a);
                lemma_error_in_concat(d, te);
                lemma_error_in_concat(d + te, a);
                lemma_station_error_reaches(doc, ci, wing, n as int, si);
                let ws = wing_checks(doc, ci, wing);
                lemma_error_in_concat(
                    stations_checks(doc, ci, wing, n as int),
                    crate::semantic::interface_checks(ci, wing, wing.interfaces@.len() as int),
                );
                let c = doc.components@[ci];
                let head = if crate::semantic::component_ids_before(doc.components@, ci).contains(c.id_spec()) {
                    seq![
                        crate::diagnostic::error_view(
                            crate::diagnostic::Code::DuplicateIdentifier,
                            "duplicate component id "@ + crate::text::str_debug_text(c.id_spec()),
                        ).with_path("components/"@ + crate::text::seq_of_nat(ci as nat)).with_subject(
                            "component "@ + c.id_spec(),
                        ),
                    ]
                } else {
                    Seq::<DiagnosticView>::empty()
                };
                assert(component_checks(doc, ci) == head + ws);
                lemma_error_in_concat(head, ws);
                lemma_component_error_reaches(doc, doc.components@.len() as int, ci);
                let v = validate_spec(doc);
                let cc = components_checks(doc, doc.components@.len() as int);
                assert(v =~= v.subrange(0, v.len() - cc.len()) + cc);
                lemma_error_in_concat(v.subrange(0, v.len() - cc.len()), cc);
                assert(false);
            }
        }
    }
}

} // verus!
