//! Semantic validation: the meaning-level constraints a schema cannot
//! express: the schema id and unit lock, identifier uniqueness, reference
//! existence, and station tangency rules. Physical predicates that need
//! evaluated values run after graph evaluation.
use vstd::prelude::*;
use crate::builder::{view_diagnostics, wing_of};
use crate::diagnostic::{contains_error, error_view, has_error, Code, Diagnostic, DiagnosticView};
use crate::model::{
    find_key, has_key, station_path, station_path_spec, AircraftDefinition, Component, Interface, Station,
    StationTangency, StationTangencySide, Wing, SCHEMA_ID,
};
use crate::text::{append_nat, seq_of_nat, str_debug, str_debug_text, str_eq};

verus! {

broadcast use vstd::std_specs::vec::axiom_spec_len;

/// Whether a binary64 value, given by its bit pattern, lies in `[0, 10]`.
/// Nonnegative values are ordered as their encodings; negative zero also
/// counts as zero; NaN and negative values are outside.
pub open spec fn strength_in_range(bits: u64) -> bool {
    bits <= 0x4024000000000000u64 || bits == 0x8000000000000000u64
}

#[verifier::opaque]
pub open spec fn side_errors(name: Seq<char>, side: StationTangencySide, path: Seq<char>, subject: Seq<char>) -> Seq<
    DiagnosticView,
> {
    let at = |message: Seq<char>|
        error_view(Code::InvalidTangency, message).with_path(path + "/"@ + name).with_subject(subject);
    (if side.auto && side.direction is Some {
        seq![at(name + " cannot combine 'auto' with an explicit direction"@)]
    } else {
        Seq::empty()
    }) + (if !side.auto && side.direction is None {
        seq![at(name + " needs a direction or \"auto\": true"@)]
    } else {
        Seq::empty()
    }) + (if !strength_in_range(side.strength) {
        seq![at(name + " strength must lie in [0, 10]"@)]
    } else {
        Seq::empty()
    })
}

#[verifier::opaque]
/// Station tangency rules: `left` (departure tipward) is invalid on the tip,
/// `right` (arrival from inboard) on the root; `auto` and a direction exclude
/// each other; one of them is needed; strength lies in `[0, 10]`.
pub open spec fn tangency_errors(
    si: int,
    last: int,
    t: StationTangency,
    path: Seq<char>,
    subject: Seq<char>,
) -> Seq<DiagnosticView> {
    let at = |message: Seq<char>, side: Seq<char>|
        error_view(Code::InvalidTangency, message).with_path(path + "/"@ + side).with_subject(subject);
    (if t.left is Some && si == last {
        seq![at("'left' (departure) is not valid on the tip station; use 'right' (arrival)"@, "left"@)]
    } else {
        Seq::empty()
    }) + (if t.right is Some && si == 0 {
        seq![at("'right' (arrival) is not valid on the root station; use 'left' (departure)"@, "right"@)]
    } else {
        Seq::empty()
    }) + (match t.left {
        Some(side) => side_errors("left"@, side, path, subject),
        None => Seq::empty(),
    }) + (match t.right {
        Some(side) => side_errors("right"@, side, path, subject),
        None => Seq::empty(),
    })
}

pub open spec fn station_ids_before(stations: Seq<Station>, si: int) -> Seq<Seq<char>> {
    stations.take(si).map_values(|s: Station| s.id@)
}

pub open spec fn station_subject(wing: Wing, st: Station) -> Seq<char> {
    "component "@ + wing.id@ + " / station "@ + st.id@
}

/// The diagnostics of one station, in check order.
pub open spec fn station_checks(doc: AircraftDefinition, ci: int, wing: Wing, si: int) -> Seq<DiagnosticView> {
    let st = wing.stations@[si];
    let path = station_path_spec(ci as nat, si as nat);
    let subject = station_subject(wing, st);
    let last = if wing.stations@.len() == 0 {
        0
    } else {
        wing.stations@.len() - 1
    };
    (if station_ids_before(wing.stations@, si).contains(st.id@) {
        seq![
            error_view(
                Code::DuplicateIdentifier,
                "duplicate station id "@ + str_debug_text(st.id@) + " in wing "@ + str_debug_text(wing.id@),
            ).with_path(path + "/id"@).with_subject(subject),
        ]
    } else {
        Seq::empty()
    }) + (match st.tangency {
        Some(t) => tangency_errors(
            si,
            last,
            t,
            path + "/tangency"@,
            "component "@ + wing.id@ + " / station "@ + st.id@ + " / tangency"@,
        ),
        None => Seq::empty(),
    }) + (if !has_key(doc.airfoils@, st.airfoil@) {
        seq![
            error_view(
                Code::UnknownReference,
                "station "@ + str_debug_text(st.id@) + " references airfoil "@ + str_debug_text(st.airfoil@)
                    + " which is not defined"@,
            ).with_path(path + "/airfoil"@).with_subject(subject),
        ]
    } else {
        Seq::empty()
    })
}

pub open spec fn stations_checks(doc: AircraftDefinition, ci: int, wing: Wing, k: int) -> Seq<DiagnosticView>
    decreases k,
{
    if k <= 0 {
        Seq::empty()
    } else {
        stations_checks(doc, ci, wing, k - 1) + station_checks(doc, ci, wing, k - 1)
    }
}

pub open spec fn interface_checks(ci: int, wing: Wing, k: int) -> Seq<DiagnosticView>
    decreases k,
{
    if k <= 0 {
        Seq::empty()
    } else {
        let (name, interface) = wing.interfaces@[k - 1];
        let station = match interface {
            Interface::StationPlane { station } => station@,
        };
        interface_checks(ci, wing, k - 1) + if wing.stations@.map_values(|s: Station| s.id@).contains(station) {
            Seq::empty()
        } else {
            seq![
                error_view(
                    Code::UnknownReference,
                    "interface "@ + str_debug_text(name@) + " references station "@ + str_debug_text(station)
                        + " which is not defined in wing "@ + str_debug_text(wing.id@),
                ).with_path("components/"@ + seq_of_nat(ci as nat) + "/interfaces/"@ + name@).with_subject(
                    "component "@ + wing.id@ + " / interface "@ + name@,
                ),
            ]
        }
    }
}

pub open spec fn wing_checks(doc: AircraftDefinition, ci: int, wing: Wing) -> Seq<DiagnosticView> {
    stations_checks(doc, ci, wing, wing.stations@.len() as int) + interface_checks(
        ci,
        wing,
        wing.interfaces@.len() as int,
    )
}

pub open spec fn component_ids_before(comps: Seq<Component>, ci: int) -> Seq<Seq<char>> {
    comps.take(ci).map_values(|c: Component| c.id_spec())
}

pub open spec fn component_checks(doc: AircraftDefinition, ci: int) -> Seq<DiagnosticView> {
    let c = doc.components@[ci];
    (if component_ids_before(doc.components@, ci).contains(c.id_spec()) {
        seq![
            error_view(Code::DuplicateIdentifier, "duplicate component id "@ + str_debug_text(c.id_spec())).with_path(
                "components/"@ + seq_of_nat(ci as nat),
            ).with_subject("component "@ + c.id_spec()),
        ]
    } else {
        Seq::empty()
    }) + wing_checks(doc, ci, wing_of(c))
}

pub open spec fn components_checks(doc: AircraftDefinition, k: int) -> Seq<DiagnosticView>
    decreases k,
{
    if k <= 0 {
        Seq::empty()
    } else {
        components_checks(doc, k - 1) + component_checks(doc, k - 1)
    }
}

/// Every semantic diagnostic of a document, in check order.
pub open spec fn validate_spec(doc: AircraftDefinition) -> Seq<DiagnosticView> {
    (if doc.schema@ != SCHEMA_ID@ {
        seq![
            error_view(
                Code::SchemaViolation,
                "unknown document schema "@ + str_debug_text(doc.schema@) + "; expected "@ + str_debug_text(
                    SCHEMA_ID@,
                ),
            ).with_path("schema"@),
        ]
    } else {
        Seq::empty()
    }) + (if !doc.unit_system_locked {
        seq![
            error_view(
                Code::InvalidUnits,
                "unitSystemLocked must be true; the application does not convert a document's unit system in place"@,
            ).with_path("unitSystemLocked"@),
        ]
    } else {
        Seq::empty()
    }) + components_checks(doc, doc.components@.len() as int)
}


fn concat(parts: &[&str]) -> (r: String)
    ensures
        r@ == concat_spec(parts@.map_values(|p: &str| p@)),
{
    let mut out = String::new();
    let mut i: usize = 0;
    while i < parts.len()
        invariant
            i <= parts@.len(),
            out@ == concat_spec(parts@.map_values(|p: &str| p@).take(i as int)),
        decreases parts@.len() - i,
    {
        out.append(parts[i]);
        proof {
            let ps = parts@.map_values(|p: &str| p@);
            assert(ps.take(i + 1).drop_last() =~= ps.take(i as int));
        }
        i = i + 1;
    }
    proof {
        let ps = parts@.map_values(|p: &str| p@);
        assert(ps.take(parts@.len() as int) =~= ps);
    }
    out
}

pub open spec fn concat_spec(parts: Seq<Seq<char>>) -> Seq<char>
    decreases parts.len(),
{
    if parts.len() == 0 {
        Seq::empty()
    } else {
        concat_spec(parts.drop_last()) + parts.last()
    }
}

fn located_error(code: Code, message: String, path: String, subject: String) -> (r: Diagnostic)
    ensures
        r@ == error_view(code, message@).with_path(path@).with_subject(subject@),
{
    Diagnostic::error(code, message).with_path(path).with_subject(subject)
}

fn check_side(
    name: &str,
    side: &StationTangencySide,
    path: &str,
    subject: &str,
    out: &mut Vec<Diagnostic>,
)
    ensures
        view_diagnostics(final(out)@) == view_diagnostics(old(out)@) + side_errors(name@, *side, path@, subject@),
{
    proof {
        reveal(side_errors);
    }
    let ghost before = view_diagnostics(out@);
    let side_path = concat(&[path, "/", name]);
    proof {
        reveal_strlit("/");
        reveal_strlit(" cannot combine 'auto' with an explicit direction");
        reveal_strlit(" needs a direction or \"auto\": true");
        reveal_strlit(" strength must lie in [0, 10]");
        assert(side_path@ =~= path@ + "/"@ + name@) by {
            reveal_with_fuel(concat_spec, 4);
        }
    }
    let ghost e1 = if side.auto && side.direction is Some {
        seq![error_view(Code::InvalidTangency, name@ + " cannot combine 'auto' with an explicit direction"@).with_path(path@ + "/"@ + name@).with_subject(subject@)]
    } else {
        Seq::<DiagnosticView>::empty()
    };
    let ghost e2 = if !side.auto && side.direction is None {
        seq![error_view(Code::InvalidTangency, name@ + " needs a direction or \"auto\": true"@).with_path(path@ + "/"@ + name@).with_subject(subject@)]
    } else {
        Seq::<DiagnosticView>::empty()
    };
    if side.auto && side.direction.is_some() {
        let mut message = String::from_str(name);
        message.append(" cannot combine 'auto' with an explicit direction");
        out.push(located_error(Code::InvalidTangency, message, side_path.clone(), String::from_str(subject)));
    }
    assert(view_diagnostics(out@) =~= before + e1);
    if !side.auto && side.direction.is_none() {
        let mut message = String::from_str(name);
        message.append(" needs a direction or \"auto\": true");
        out.push(located_error(Code::InvalidTangency, message, side_path.clone(), String::from_str(subject)));
    }
    assert(view_diagnostics(out@) =~= before + e1 + e2);
    if !(side.strength <= 0x4024000000000000u64 || side.strength == 0x8000000000000000u64) {
        let mut message = String::from_str(name);
        message.append(" strength must lie in [0, 10]");
        out.push(located_error(Code::InvalidTangency, message, side_path, String::from_str(subject)));
    }
    assert(view_diagnostics(out@) =~= before + side_errors(name@, *side, path@, subject@));
}

fn validate_station_tangency(
    si: usize,
    last: usize,
    t: &StationTangency,
    path: &str,
    subject: &str,
    out: &mut Vec<Diagnostic>,
)
    ensures
        view_diagnostics(final(out)@) == view_diagnostics(old(out)@) + tangency_errors(
            si as int,
            last as int,
            *t,
            path@,
            subject@,
        ),
{
    proof {
        reveal(tangency_errors);
    }
    let ghost before = view_diagnostics(out@);
    proof {
        reveal_strlit("/");
        reveal_strlit("left");
        reveal_strlit("right");
        reveal_strlit("/left");
        reveal_strlit("/right");
    }
    let ghost e1 = if t.left is Some && si == last {
        seq![error_view(Code::InvalidTangency, "'left' (departure) is not valid on the tip station; use 'right' (arrival)"@).with_path(path@ + "/"@ + "left"@).with_subject(subject@)]
    } else {
        Seq::<DiagnosticView>::empty()
    };
    let ghost e2 = if t.right is Some && si == 0 {
        seq![error_view(Code::InvalidTangency, "'right' (arrival) is not valid on the root station; use 'left' (departure)"@).with_path(path@ + "/"@ + "right"@).with_subject(subject@)]
    } else {
        Seq::<DiagnosticView>::empty()
    };
    if t.left.is_some() && si == last {
        let mut p = String::from_str(path);
        p.append("/left");
        assert(p@ =~= path@ + "/"@ + "left"@);
        out.push(
            located_error(
                Code::InvalidTangency,
                String::from_str("'left' (departure) is not valid on the tip station; use 'right' (arrival)"),
                p,
                String::from_str(subject),
            ),
        );
    }
    assert(view_diagnostics(out@) =~= before + e1);
    if t.right.is_some() && si == 0 {
        let mut p = String::from_str(path);
        p.append("/right");
        assert(p@ =~= path@ + "/"@ + "right"@);
        out.push(
            located_error(
                Code::InvalidTangency,
                String::from_str("'right' (arrival) is not valid on the root station; use 'left' (departure)"),
                p,
                String::from_str(subject),
            ),
        );
    }
    assert(view_diagnostics(out@) =~= before + e1 + e2);
    let ghost mid = view_diagnostics(out@);
    match &t.left {
        Some(side) => check_side("left", side, path, subject, out),
        None => {},
    }
    let ghost mid2 = view_diagnostics(out@);
    match &t.right {
        Some(side) => check_side("right", side, path, subject, out),
        None => {},
    }
    assert(view_diagnostics(out@) =~= before + tangency_errors(si as int, last as int, *t, path@, subject@));
}

fn id_seen(stations: &Vec<Station>, si: usize, id: &str) -> (r: bool)
    requires
        si <= stations@.len(),
    ensures
        r == station_ids_before(stations@, si as int).contains(id@),
{
    let ghost ids = station_ids_before(stations@, si as int);
    let mut k: usize = 0;
    while k < si
        invariant
            k <= si <= stations@.len(),
            ids == station_ids_before(stations@, si as int),
            forall|q: int| 0 <= q < k ==> ids[q] != id@,
        decreases si - k,
    {
        assert(ids[k as int] == stations@[k as int].id@);
        if str_eq(stations[k].id.as_str(), id) {
            return true;
        }
        k = k + 1;
    }
    false
}

fn station_defined(stations: &Vec<Station>, id: &str) -> (r: bool)
    ensures
        r == stations@.map_values(|s: Station| s.id@).contains(id@),
{
    let ghost ids = stations@.map_values(|s: Station| s.id@);
    let mut k: usize = 0;
    while k < stations.len()
        invariant
            k <= stations@.len(),
            ids == stations@.map_values(|s: Station| s.id@),
            forall|q: int| 0 <= q < k ==> ids[q] != id@,
        decreases stations@.len() - k,
    {
        assert(ids[k as int] == stations@[k as int].id@);
        if str_eq(stations[k].id.as_str(), id) {
            return true;
        }
        k = k + 1;
    }
    false
}


pub open spec fn station_duplicate_part(wing: Wing, si: int, path: Seq<char>, subject: Seq<char>) -> Seq<DiagnosticView> {
    let st = wing.stations@[si];
    if station_ids_before(wing.stations@, si).contains(st.id@) {
        seq![
            error_view(
                Code::DuplicateIdentifier,
                "duplicate station id "@ + str_debug_text(st.id@) + " in wing "@ + str_debug_text(wing.id@),
            ).with_path(path + "/id"@).with_subject(subject),
        ]
    } else {
        Seq::empty()
    }
}

pub open spec fn station_tangency_part(wing: Wing, si: int, path: Seq<char>) -> Seq<DiagnosticView> {
    let st = wing.stations@[si];
    let last = if wing.stations@.len() == 0 {
        0
    } else {
        wing.stations@.len() - 1
    };
    match st.tangency {
        Some(t) => tangency_errors(
            si,
            last,
            t,
            path + "/tangency"@,
            "component "@ + wing.id@ + " / station "@ + st.id@ + " / tangency"@,
        ),
        None => Seq::empty(),
    }
}

pub open spec fn station_airfoil_part(doc: AircraftDefinition, st: Station, path: Seq<char>, subject: Seq<char>) -> Seq<DiagnosticView> {
    if !has_key(doc.airfoils@, st.airfoil@) {
        seq![
            error_view(
                Code::UnknownReference,
                "station "@ + str_debug_text(st.id@) + " references airfoil "@ + str_debug_text(st.airfoil@)
                    + " which is not defined"@,
            ).with_path(path + "/airfoil"@).with_subject(subject),
        ]
    } else {
        Seq::empty()
    }
}

proof fn lemma_station_checks_parts(doc: AircraftDefinition, ci: int, wing: Wing, si: int)
    requires
        0 <= si < wing.stations@.len(),
    ensures
        station_checks(doc, ci, wing, si) == station_duplicate_part(
            wing,
            si,
            station_path_spec(ci as nat, si as nat),
            station_subject(wing, wing.stations@[si]),
        ) + station_tangency_part(wing, si, station_path_spec(ci as nat, si as nat)) + station_airfoil_part(
            doc,
            wing.stations@[si],
            station_path_spec(ci as nat, si as nat),
            station_subject(wing, wing.stations@[si]),
        ),
{
}

fn check_duplicate_station(wing: &Wing, si: usize, path: &String, subject: &String, out: &mut Vec<Diagnostic>)
    requires
        si < wing.stations@.len(),
    ensures
        view_diagnostics(final(out)@) == view_diagnostics(old(out)@) + station_duplicate_part(
            *wing,
            si as int,
            path@,
            subject@,
        ),
{
    let ghost before = view_diagnostics(out@);
    let station = &wing.stations[si];
    if id_seen(&wing.stations, si, station.id.as_str()) {
        let message = concat(
            &[
                "duplicate station id ",
                str_debug(station.id.as_str()).as_str(),
                " in wing ",
                str_debug(wing.id.as_str()).as_str(),
            ],
        );
        let mut p = path.clone();
        p.append("/id");
        proof {
            reveal_with_fuel(concat_spec, 5);
            reveal_strlit("/id");
            assert(p@ =~= path@ + "/id"@);
        }
        out.push(located_error(Code::DuplicateIdentifier, message, p, subject.clone()));
    }
    assert(view_diagnostics(out@) =~= before + station_duplicate_part(*wing, si as int, path@, subject@));
}

fn check_station_tangency(wing: &Wing, si: usize, path: &String, out: &mut Vec<Diagnostic>)
    requires
        si < wing.stations@.len(),
    ensures
        view_diagnostics(final(out)@) == view_diagnostics(old(out)@) + station_tangency_part(
            *wing,
            si as int,
            path@,
        ),
{
    let ghost before = view_diagnostics(out@);
    let station = &wing.stations[si];
    let last: usize = if wing.stations.len() == 0 {
        0
    } else {
        wing.stations.len() - 1
    };
    match &station.tangency {
        Some(t) => {
            let mut p = path.clone();
            p.append("/tangency");
            let tangency_subject = concat(
                &["component ", wing.id.as_str(), " / station ", station.id.as_str(), " / tangency"],
            );
            proof {
                reveal_with_fuel(concat_spec, 6);
                reveal_strlit("/tangency");
                assert(p@ =~= path@ + "/tangency"@);
            }
            validate_station_tangency(si, last, t, p.as_str(), tangency_subject.as_str(), out);
        },
        None => {},
    }
    assert(view_diagnostics(out@) =~= before + station_tangency_part(*wing, si as int, path@));
}

fn check_airfoil(doc: &AircraftDefinition, station: &Station, path: &String, subject: &String, out: &mut Vec<Diagnostic>)
    ensures
        view_diagnostics(final(out)@) == view_diagnostics(old(out)@) + station_airfoil_part(
            *doc,
            *station,
            path@,
            subject@,
        ),
{
    let ghost before = view_diagnostics(out@);
    let found = find_key(&doc.airfoils, station.airfoil.as_str());
    proof {
        if found is Some {
            assert(has_key(doc.airfoils@, station.airfoil@));
        }
    }
    if found.is_none() {
        let message = concat(
            &[
                "station ",
                str_debug(station.id.as_str()).as_str(),
                " references airfoil ",
                str_debug(station.airfoil.as_str()).as_str(),
                " which is not defined",
            ],
        );
        let mut p = path.clone();
        p.append("/airfoil");
        proof {
            reveal_with_fuel(concat_spec, 6);
            reveal_strlit("/airfoil");
            assert(p@ =~= path@ + "/airfoil"@);
        }
        out.push(located_error(Code::UnknownReference, message, p, subject.clone()));
    }
    assert(view_diagnostics(out@) =~= before + station_airfoil_part(*doc, *station, path@, subject@));
}

fn check_station(doc: &AircraftDefinition, ci: usize, wing: &Wing, si: usize, out: &mut Vec<Diagnostic>)
    requires
        si < wing.stations@.len(),
    ensures
        view_diagnostics(final(out)@) == view_diagnostics(old(out)@) + station_checks(
            *doc,
            ci as int,
            *wing,
            si as int,
        ),
{
    let ghost before = view_diagnostics(out@);
    let station = &wing.stations[si];
    let path = station_path(ci, si);
    let subject = concat(&["component ", wing.id.as_str(), " / station ", station.id.as_str()]);
    proof {
        reveal_with_fuel(concat_spec, 5);
        assert(subject@ =~= station_subject(*wing, *station));
    }
    check_duplicate_station(wing, si, &path, &subject, out);
    let ghost a = view_diagnostics(out@);
    check_station_tangency(wing, si, &path, out);
    let ghost b = view_diagnostics(out@);
    check_airfoil(doc, station, &path, &subject, out);
    proof {
        lemma_station_checks_parts(*doc, ci as int, *wing, si as int);
    }
    assert(view_diagnostics(out@) =~= before + station_checks(*doc, ci as int, *wing, si as int));
}

fn validate_wing(doc: &AircraftDefinition, ci: usize, wing: &Wing, out: &mut Vec<Diagnostic>)
    ensures
        view_diagnostics(final(out)@) == view_diagnostics(old(out)@) + wing_checks(*doc, ci as int, *wing),
{
    let ghost before = view_diagnostics(out@);
    let mut si: usize = 0;
    assert(before =~= before + stations_checks(*doc, ci as int, *wing, 0));
    while si < wing.stations.len()
        invariant
            si <= wing.stations@.len(),
            view_diagnostics(out@) == before + stations_checks(*doc, ci as int, *wing, si as int),
        decreases wing.stations@.len() - si,
    {
        check_station(doc, ci, wing, si, out);
        assert(view_diagnostics(out@) =~= before + stations_checks(*doc, ci as int, *wing, si + 1));
        si = si + 1;
    }
    let ghost mid = view_diagnostics(out@);
    let mut k: usize = 0;
    assert(mid =~= mid + interface_checks(ci as int, *wing, 0));
    while k < wing.interfaces.len()
        invariant
            k <= wing.interfaces@.len(),
            mid == before + stations_checks(*doc, ci as int, *wing, wing.stations@.len() as int),
            view_diagnostics(out@) == mid + interface_checks(ci as int, *wing, k as int),
        decreases wing.interfaces@.len() - k,
    {
        let (name, interface) = (&wing.interfaces[k].0, &wing.interfaces[k].1);
        let Interface::StationPlane { station } = interface;
        let ghost cur = view_diagnostics(out@);
        assert(cur == mid + interface_checks(ci as int, *wing, k as int));
        assert(wing.interfaces@[k as int].0 == *name);
        assert(wing.interfaces@[k as int].1 == *interface);
        if !station_defined(&wing.stations, station.as_str()) {
            let message = concat(
                &[
                    "interface ",
                    str_debug(name.as_str()).as_str(),
                    " references station ",
                    str_debug(station.as_str()).as_str(),
                    " which is not defined in wing ",
                    str_debug(wing.id.as_str()).as_str(),
                ],
            );
            let mut p = String::from_str("components/");
            append_nat(&mut p, ci as u64);
            p.append("/interfaces/");
            p.append(name.as_str());
            let subject = concat(&["component ", wing.id.as_str(), " / interface ", name.as_str()]);
            proof {
                reveal_with_fuel(concat_spec, 7);
                reveal_strlit("components/");
                reveal_strlit("/interfaces/");
                assert(p@ =~= "components/"@ + seq_of_nat(ci as nat) + "/interfaces/"@ + name@);
            }
            let d = located_error(Code::UnknownReference, message, p, subject);
            assert(d@ == error_view(
                Code::UnknownReference,
                "interface "@ + str_debug_text(name@) + " references station "@ + str_debug_text(station@)
                    + " which is not defined in wing "@ + str_debug_text(wing.id@),
            ).with_path("components/"@ + seq_of_nat(ci as nat) + "/interfaces/"@ + name@).with_subject(
                "component "@ + wing.id@ + " / interface "@ + name@,
            ));
            out.push(d);
            assert(view_diagnostics(out@) =~= cur.push(d@));
        } else {
            assert(view_diagnostics(out@) =~= cur);
        }
        assert(view_diagnostics(out@) =~= mid + interface_checks(ci as int, *wing, k + 1));
        k = k + 1;
    }
}

fn component_seen(comps: &Vec<Component>, ci: usize, id: &str) -> (r: bool)
    requires
        ci <= comps@.len(),
    ensures
        r == component_ids_before(comps@, ci as int).contains(id@),
{
    let ghost ids = component_ids_before(comps@, ci as int);
    let mut k: usize = 0;
    while k < ci
        invariant
            k <= ci <= comps@.len(),
            ids == component_ids_before(comps@, ci as int),
            forall|q: int| 0 <= q < k ==> ids[q] != id@,
        decreases ci - k,
    {
        assert(ids[k as int] == comps@[k as int].id_spec());
        if str_eq(comps[k].id(), id) {
            return true;
        }
        k = k + 1;
    }
    false
}

/// Validates identifier uniqueness, reference existence, the schema id,
/// the unit lock and station tangencies.
pub fn validate(doc: &AircraftDefinition) -> (r: Vec<Diagnostic>)
    ensures
        view_diagnostics(r@) == validate_spec(*doc),
{
    let mut out: Vec<Diagnostic> = Vec::new();
    proof {
        reveal_strlit("aircraft-definition/v0.1");
    }
    if !str_eq(doc.schema.as_str(), SCHEMA_ID) {
        let message = concat(
            &["unknown document schema ", str_debug(doc.schema.as_str()).as_str(), "; expected ", str_debug(SCHEMA_ID).as_str()],
        );
        proof {
            reveal_with_fuel(concat_spec, 5);
        }
        out.push(Diagnostic::error(Code::SchemaViolation, message).with_path(String::from_str("schema")));
    }
    if !doc.unit_system_locked {
        out.push(
            Diagnostic::error(
                Code::InvalidUnits,
                String::from_str(
                    "unitSystemLocked must be true; the application does not convert a document's unit system in place",
                ),
            ).with_path(String::from_str("unitSystemLocked")),
        );
    }
    let ghost head = view_diagnostics(out@);
    assert(head =~= head + components_checks(*doc, 0));
    let mut ci: usize = 0;
    while ci < doc.components.len()
        invariant
            ci <= doc.components@.len(),
            view_diagnostics(out@) == head + components_checks(*doc, ci as int),
        decreases doc.components@.len() - ci,
    {
        let ghost before = view_diagnostics(out@);
        let component = &doc.components[ci];
        let id = component.id();
        let ghost e1 = if component_ids_before(doc.components@, ci as int).contains(component.id_spec()) {
            seq![
                error_view(
                    Code::DuplicateIdentifier,
                    "duplicate component id "@ + str_debug_text(component.id_spec()),
                ).with_path("components/"@ + seq_of_nat(ci as nat)).with_subject("component "@ + component.id_spec()),
            ]
        } else {
            Seq::<DiagnosticView>::empty()
        };
        if component_seen(&doc.components, ci, id) {
            let message = concat(&["duplicate component id ", str_debug(id).as_str()]);
            let mut p = String::from_str("components/");
            append_nat(&mut p, ci as u64);
            let subject = concat(&["component ", id]);
            proof {
                reveal_with_fuel(concat_spec, 3);
                reveal_strlit("components/");
            }
            assert(p@ =~= "components/"@ + seq_of_nat(ci as nat));
            out.push(Diagnostic::error(Code::DuplicateIdentifier, message).with_path(p).with_subject(subject));
        }
        assert(view_diagnostics(out@) =~= before + e1);
        match component {
            Component::Wing(wing) => {
                assert(wing_of(doc.components@[ci as int]) == *wing);
                validate_wing(doc, ci, wing, &mut out);
            },
        }
        assert(view_diagnostics(out@) =~= head + components_checks(*doc, ci + 1));
        ci = ci + 1;
    }
    assert(view_diagnostics(out@) =~= validate_spec(*doc));
    out
}

/// Finishes reading a document whose shape was already checked: the
/// diagnostics found so far come first; when none of them is an error the
/// semantic checks run and their diagnostics follow. Any error refuses the
/// document, so a partially valid document is never taken for a usable one;
/// an accepted document may still carry warnings.
pub fn admit_document(doc: AircraftDefinition, found: Vec<Diagnostic>) -> (r: Result<
    (AircraftDefinition, Vec<Diagnostic>),
    Vec<Diagnostic>,
>)
    ensures
        ({
            let prior = view_diagnostics(found@);
            let all = prior + validate_spec(doc);
            if has_error(prior) {
                r matches Err(ds) && view_diagnostics(ds@) == prior
            } else if has_error(all) {
                r matches Err(ds) && view_diagnostics(ds@) == all
            } else {
                r matches Ok((d, ds)) && d == doc && view_diagnostics(ds@) == all
            }
        }),
{
    if contains_error(&found) {
        return Err(found);
    }
    let mut diagnostics = found;
    let mut semantic = validate(&doc);
    let ghost prior = view_diagnostics(diagnostics@);
    let ghost extra = view_diagnostics(semantic@);
    diagnostics.append(&mut semantic);
    assert(view_diagnostics(diagnostics@) =~= prior + extra);
    if contains_error(&diagnostics) {
        return Err(diagnostics);
    }
    Ok((doc, diagnostics))
}

/// A binary64 bit pattern with the sign bit set that is not negative zero:
/// a negative number, negative infinity or a NaN with the sign bit.
pub open spec fn binary64_below_zero_or_nan(bits: u64) -> bool {
    bits >= 0x8000000000000000u64 && bits % 0x8000000000000000u64 != 0
}

/// A binary64 bit pattern with the sign bit clear above that of `10.0`:
/// a number above ten, positive infinity or a NaN.
pub open spec fn binary64_above_ten_or_nan(bits: u64) -> bool {
    bits < 0x8000000000000000u64 && bits > 0x4024000000000000u64
}

/// The strength error a side reports.
pub open spec fn strength_error(name: Seq<char>, path: Seq<char>, subject: Seq<char>) -> DiagnosticView {
    error_view(Code::InvalidTangency, name + " strength must lie in [0, 10]"@).with_path(path + "/"@ + name)
        .with_subject(subject)
}

/// A side's strength adds one error exactly when its binary64 value is not
/// in `[0, 10]`: negative (other than `-0.0`), above ten, infinite or NaN.
/// The other checks of the side do not look at the strength.
pub proof fn law_strength_range(
    name: Seq<char>,
    side: StationTangencySide,
    path: Seq<char>,
    subject: Seq<char>,
)
    ensures
        ({
            let plain = StationTangencySide { strength: 0u64, ..side };
            if binary64_below_zero_or_nan(side.strength) || binary64_above_ten_or_nan(side.strength) {
                side_errors(name, side, path, subject) == side_errors(name, plain, path, subject).push(
                    strength_error(name, path, subject),
                )
            } else {
                side_errors(name, side, path, subject) == side_errors(name, plain, path, subject)
            }
        }),
{
    reveal(side_errors);
    let plain = StationTangencySide { strength: 0u64, ..side };
    let at = |message: Seq<char>|
        error_view(Code::InvalidTangency, message).with_path(path + "/"@ + name).with_subject(subject);
    let base = (if side.auto && side.direction is Some {
        seq![at(name + " cannot combine 'auto' with an explicit direction"@)]
    } else {
        Seq::empty()
    }) + (if !side.auto && side.direction is None {
        seq![at(name + " needs a direction or \"auto\": true"@)]
    } else {
        Seq::empty()
    });
    assert(side_errors(name, plain, path, subject) =~= base + Seq::<DiagnosticView>::empty());
    if binary64_below_zero_or_nan(side.strength) || binary64_above_ten_or_nan(side.strength) {
        assert(!strength_in_range(side.strength));
        assert(side_errors(name, side, path, subject) =~= base + seq![strength_error(name, path, subject)]);
    } else {
        assert(strength_in_range(side.strength));
    }
}

} // verus!
