//! The typed model of an `aircraft-definition/v0.1` document.
//!
//! Maps of the document (parameters, airfoils, interfaces) are held as
//! vectors of entries whose keys ascend strictly, the order a `BTreeMap`
//! walks them in. Decimal document numbers are held as the bit patterns of
//! their IEEE-754 binary64 values: the structural logic here carries them
//! through unread, and arithmetic on them happens outside the library.
use vstd::prelude::*;
use crate::text::{seq_less, seq_of_nat, append_nat, str_less, str_eq, lemma_seq_less_total, lemma_seq_less_transitive, lemma_seq_less_irreflexive};
use crate::units::UnitSystem;

verus! {

pub const SCHEMA_ID: &'static str = "aircraft-definition/v0.1";

#[derive(Debug, Clone, Copy, PartialEq, Eq, Structural)]
pub enum Axis {
    Aft,
    Starboard,
    Up,
}

#[derive(Debug, Clone, Copy, PartialEq, Eq, Structural)]
pub struct Axes {
    pub x: Axis,
    pub y: Axis,
    pub z: Axis,
}

#[derive(Debug, Clone, Copy, PartialEq, Eq, Structural)]
pub enum OriginKind {
    NamedDatum,
    UserSelected,
}

#[derive(Debug, Clone)]
pub struct CoordinateOrigin {
    pub kind: OriginKind,
    pub name: String,
}

#[derive(Debug, Clone)]
pub struct CoordinateSystem {
    pub axes: Axes,
    pub origin: CoordinateOrigin,
}

/// A typed numeric input: a literal (its binary64 bit pattern), a parameter
/// reference, or an expression (formula text with its leading `=`).
#[derive(Debug, Clone)]
pub enum TypedValue {
    Number(u64),
    ParamRef { param: String },
    Expression(String),
}

impl TypedValue {
    /// A literal holding the given binary64 bit pattern.
    pub fn number(bits: u64) -> (r: Self)
        ensures
            r == TypedValue::Number(bits),
    {
        TypedValue::Number(bits)
    }

    pub fn param(id: String) -> (r: Self)
        ensures
            r matches TypedValue::ParamRef { param } && param@ == id@,
    {
        TypedValue::ParamRef { param: id }
    }

    /// An expression value from formula source written without the leading `=`.
    pub fn expression(formula: &str) -> (r: Self)
        ensures
            r matches TypedValue::Expression(text) && text@ == "= "@ + formula@,
    {
        let mut text = String::from_str("= ");
        text.append(formula);
        proof {
            reveal_strlit("= ");
        }
        TypedValue::Expression(text)
    }

    pub open spec fn same(self, other: TypedValue) -> bool {
        match (self, other) {
            (TypedValue::Number(a), TypedValue::Number(b)) => a == b,
            (TypedValue::ParamRef { param: a }, TypedValue::ParamRef { param: b }) => a@ == b@,
            (TypedValue::Expression(a), TypedValue::Expression(b)) => a@ == b@,
            _ => false,
        }
    }

    /// A copy of the value.
    pub fn duplicate(&self) -> (r: Self)
        ensures
            r.same(*self),
    {
        match self {
            TypedValue::Number(bits) => TypedValue::Number(*bits),
            TypedValue::ParamRef { param } => TypedValue::ParamRef { param: param.clone() },
            TypedValue::Expression(text) => TypedValue::Expression(text.clone()),
        }
    }
}

#[derive(Debug, Clone)]
pub struct Position {
    pub x: TypedValue,
    pub y: TypedValue,
    pub z: TypedValue,
}

#[derive(Debug, Clone)]
pub enum TrailingEdge {
    Sharp,
    Absolute { thickness: TypedValue },
    ChordFraction { value: TypedValue },
}

/// One side of a station's leading-edge tangency: adapt automatically or
/// follow an explicit direction, with a strength.
#[derive(Debug, Clone, Copy)]
pub struct StationTangencySide {
    pub auto: bool,
    pub direction: Option<[u64; 3]>,
    pub strength: u64,
}

/// `left` is the departure toward the tip, `right` the arrival from inboard.
#[derive(Debug, Clone, Copy)]
pub struct StationTangency {
    pub left: Option<StationTangencySide>,
    pub right: Option<StationTangencySide>,
}

#[derive(Debug, Clone)]
pub struct Station {
    pub id: String,
    pub position: Position,
    pub chord: TypedValue,
    pub twist: TypedValue,
    pub airfoil: String,
    pub trailing_edge: Option<TrailingEdge>,
    pub tangency: Option<StationTangency>,
}

/// Two trailing-edge treatments say the same thing.
pub open spec fn same_trailing_edge(a: TrailingEdge, b: TrailingEdge) -> bool {
    match (a, b) {
        (TrailingEdge::Sharp, TrailingEdge::Sharp) => true,
        (TrailingEdge::Absolute { thickness: x }, TrailingEdge::Absolute { thickness: y }) => x.same(y),
        (TrailingEdge::ChordFraction { value: x }, TrailingEdge::ChordFraction { value: y }) => x.same(y),
        _ => false,
    }
}

impl Station {
    /// The effective trailing-edge treatment: the one given, else sharp.
    pub open spec fn effective_trailing_edge(&self) -> TrailingEdge {
        match self.trailing_edge {
            Some(t) => t,
            None => TrailingEdge::Sharp,
        }
    }

    /// The effective trailing-edge treatment; an omitted field defaults to
    /// sharp.
    pub fn trailing_edge(&self) -> (r: TrailingEdge)
        ensures
            same_trailing_edge(r, self.effective_trailing_edge()),
    {
        match &self.trailing_edge {
            Some(TrailingEdge::Sharp) | None => TrailingEdge::Sharp,
            Some(TrailingEdge::Absolute { thickness }) => TrailingEdge::Absolute { thickness: thickness.duplicate() },
            Some(TrailingEdge::ChordFraction { value }) => TrailingEdge::ChordFraction { value: value.duplicate() },
        }
    }
}

#[derive(Debug, Clone, Copy, PartialEq, Eq, Structural)]
pub enum SymmetryPlane {
    LocalXz,
}

#[derive(Debug, Clone, Copy, PartialEq, Eq, Structural)]
pub enum SourceSide {
    NegativeLocalY,
}

#[derive(Debug, Clone, Copy, PartialEq, Eq, Structural)]
pub enum CenterlineTreatment {
    Weld,
    Open,
}

#[derive(Debug, Clone, Copy, PartialEq, Eq, Structural)]
pub struct Symmetry {
    pub enabled: bool,
    pub plane: SymmetryPlane,
    pub source_side: SourceSide,
    pub centerline_treatment: CenterlineTreatment,
}

#[derive(Debug, Clone, Copy, PartialEq, Eq, Structural)]
pub enum FrameAxes {
    InheritAircraft,
}

#[derive(Debug, Clone)]
pub struct Frame {
    pub origin: Position,
    pub axes: FrameAxes,
}

#[derive(Debug, Clone)]
pub enum Interface {
    StationPlane { station: String },
}

#[derive(Debug, Clone, Copy, PartialEq, Eq, Structural)]
pub enum WingRole {
    Main,
    Canard,
    Tail,
    Fin,
    Other,
}

#[derive(Debug, Clone)]
pub struct Wing {
    pub id: String,
    pub role: WingRole,
    pub frame: Frame,
    pub symmetry: Symmetry,
    pub stations: Vec<Station>,
    /// Named interfaces, keys ascending.
    pub interfaces: Vec<(String, Interface)>,
}

#[derive(Debug, Clone)]
pub enum Component {
    Wing(Wing),
}

impl Component {
    pub open spec fn id_spec(&self) -> Seq<char> {
        match self {
            Component::Wing(wing) => wing.id@,
        }
    }

    pub fn id(&self) -> (r: &str)
        ensures
            r@ == self.id_spec(),
    {
        match self {
            Component::Wing(wing) => wing.id.as_str(),
        }
    }
}

/// An airfoil: a NACA 4-digit code or a coordinate list (bit patterns).
#[derive(Debug, Clone)]
pub enum Airfoil {
    Naca4 { code: String },
    Coordinates { points: Vec<[u64; 2]> },
}

#[derive(Debug, Clone)]
pub struct AnalysisCase {
    pub id: String,
    pub mach: u64,
    pub altitude: Option<TypedValue>,
}

#[derive(Debug, Clone)]
pub struct AircraftDefinition {
    pub schema: String,
    pub id: String,
    pub name: String,
    pub units: UnitSystem,
    pub unit_system_locked: bool,
    pub coordinate_system: CoordinateSystem,
    /// Raw scalar parameters (binary64 bit patterns), ids ascending.
    pub parameters: Vec<(String, u64)>,
    /// Airfoil definitions, ids ascending.
    pub airfoils: Vec<(String, Airfoil)>,
    pub components: Vec<Component>,
    pub analysis_cases: Vec<AnalysisCase>,
}

/// Keys of a map held as entries ascend strictly (so none repeats).
pub open spec fn keys_ascend<V>(entries: Seq<(String, V)>) -> bool {
    forall|i: int, j: int|
        0 <= i < j < entries.len() ==> seq_less(#[trigger] entries[i].0@, #[trigger] entries[j].0@)
}

/// Whether a map held as entries has a key.
pub open spec fn has_key<V>(entries: Seq<(String, V)>, key: Seq<char>) -> bool {
    exists|i: int| 0 <= i < entries.len() && #[trigger] entries[i].0@ == key
}

impl Wing {
    pub open spec fn wf(&self) -> bool {
        keys_ascend(self.interfaces@)
    }
}

impl AircraftDefinition {
    /// The maps of the document hold each key once, in ascending order.
    pub open spec fn wf(&self) -> bool {
        &&& keys_ascend(self.parameters@)
        &&& keys_ascend(self.airfoils@)
        &&& forall|c: int| 0 <= c < self.components@.len() ==> match #[trigger] self.components@[c] {
            Component::Wing(wing) => wing.wf(),
        }
    }
}

/// Index of the entry with the given key, if any.
pub fn find_key<V>(entries: &Vec<(String, V)>, key: &str) -> (r: Option<usize>)
    ensures
        match r {
            Some(i) => i < entries@.len() && entries@[i as int].0@ == key@ && forall|j: int|
                0 <= j < i ==> entries@[j].0@ != key@,
            None => !has_key(entries@, key@),
        },
{
    let mut i: usize = 0;
    while i < entries.len()
        invariant
            i <= entries@.len(),
            forall|j: int| 0 <= j < i ==> entries@[j].0@ != key@,
        decreases entries@.len() - i,
    {
        if str_eq(entries[i].0.as_str(), key) {
            return Some(i);
        }
        i = i + 1;
    }
    None
}

/// In a map whose keys ascend, the entry found for a key is the only one.
pub proof fn lemma_key_unique<V>(entries: Seq<(String, V)>, i: int, j: int)
    requires
        keys_ascend(entries),
        0 <= i < entries.len(),
        0 <= j < entries.len(),
        entries[i].0@ == entries[j].0@,
    ensures
        i == j,
{
    if i < j {
        lemma_seq_less_irreflexive(entries[i].0@);
    } else if j < i {
        lemma_seq_less_irreflexive(entries[i].0@);
    }
}

/// Position at which `key` belongs in ascending entries: the count of keys
/// below it. `None` when the key is present already.
pub fn insertion_point<V>(entries: &Vec<(String, V)>, key: &str) -> (r: Option<usize>)
    requires
        keys_ascend(entries@),
    ensures
        match r {
            None => has_key(entries@, key@),
            Some(p) => p <= entries@.len() && !has_key(entries@, key@) && (forall|j: int|
                0 <= j < p ==> seq_less(#[trigger] entries@[j].0@, key@)) && (forall|j: int|
                p <= j < entries@.len() ==> seq_less(key@, #[trigger] entries@[j].0@)),
        },
{
    let mut i: usize = 0;
    while i < entries.len()
        invariant
            i <= entries@.len(),
            keys_ascend(entries@),
            forall|j: int| 0 <= j < i ==> seq_less(#[trigger] entries@[j].0@, key@),
        decreases entries@.len() - i,
    {
        if str_eq(entries[i].0.as_str(), key) {
            return None;
        }
        if str_less(key, entries[i].0.as_str()) {
            proof {
                assert forall|j: int| i <= j < entries@.len() implies seq_less(
                    key@,
                    #[trigger] entries@[j].0@,
                ) by {
                    if j > i {
                        lemma_seq_less_transitive(key@, entries@[i as int].0@, entries@[j].0@);
                    }
                }
                assert forall|j: int| 0 <= j < entries@.len() implies #[trigger] entries@[j].0@
                    != key@ by {
                    if j < i {
                        lemma_seq_less_irreflexive(key@);
                    } else {
                        lemma_seq_less_irreflexive(key@);
                    }
                }
            }
            return Some(i);
        }
        proof {
            lemma_seq_less_total(entries@[i as int].0@, key@);
        }
        i = i + 1;
    }
    proof {
        assert forall|j: int| 0 <= j < entries@.len() implies #[trigger] entries@[j].0@ != key@ by {
            lemma_seq_less_irreflexive(key@);
        }
    }
    Some(i)
}

/// Inserts a new entry at its place among ascending keys.
pub fn insert_sorted<V>(entries: &mut Vec<(String, V)>, key: String, value: V) -> (r: bool)
    requires
        keys_ascend(old(entries)@),
    ensures
        r == !has_key(old(entries)@, key@),
        keys_ascend(final(entries)@),
        r ==> exists|p: int|
            0 <= p <= old(entries)@.len() && final(entries)@ == old(entries)@.insert(p, (key, value)),
        !r ==> final(entries)@ == old(entries)@,
{
    match insertion_point(entries, key.as_str()) {
        None => false,
        Some(p) => {
            let ghost before = entries@;
            entries.insert(p, (key, value));
            proof {
                let after = entries@;
                assert forall|i: int, j: int|
                    0 <= i < j < after.len() implies seq_less(
                    #[trigger] after[i].0@,
                    #[trigger] after[j].0@,
                ) by {
                    if j < p {
                        assert(after[i] == before[i] && after[j] == before[j]);
                    } else if j == p {
                        assert(after[i] == before[i]);
                    } else if i == p {
                        assert(after[j] == before[j - 1]);
                    } else if i < p {
                        assert(after[i] == before[i] && after[j] == before[j - 1]);
                        lemma_seq_less_transitive(before[i].0@, key@, before[j - 1].0@);
                    } else {
                        assert(after[i] == before[i - 1] && after[j] == before[j - 1]);
                    }
                }
            }
            true
        },
    }
}

/// Whether consecutive keys ascend, which makes all keys ascend.
pub fn entries_ascend<V>(entries: &Vec<(String, V)>) -> (r: bool)
    ensures
        r == keys_ascend(entries@),
{
    let n = entries.len();
    if n == 0 {
        return true;
    }
    let mut i: usize = 1;
    while i < n
        invariant
            1 <= i <= n,
            n == entries@.len(),
            keys_ascend(entries@.take(i as int)),
        decreases n - i,
    {
        if !str_less(entries[i - 1].0.as_str(), entries[i].0.as_str()) {
            assert(!keys_ascend(entries@)) by {
                assert(!seq_less(entries@[i - 1].0@, entries@[i as int].0@));
            }
            return false;
        }
        assert forall|a: int, b: int| 0 <= a < b < i + 1 implies seq_less(
            #[trigger] entries@.take(i + 1)[a].0@,
            #[trigger] entries@.take(i + 1)[b].0@,
        ) by {
            if b < i {
                assert(entries@.take(i as int)[a] == entries@[a]);
                assert(entries@.take(i as int)[b] == entries@[b]);
            } else if a < i - 1 {
                assert(entries@.take(i as int)[a] == entries@[a]);
                assert(entries@.take(i as int)[i - 1] == entries@[i - 1]);
                lemma_seq_less_transitive(entries@[a].0@, entries@[i - 1].0@, entries@[b].0@);
            }
        }
        i = i + 1;
    }
    assert(entries@.take(n as int) =~= entries@);
    true
}

impl AircraftDefinition {
    /// Whether every map of the document keeps its keys in ascending order.
    pub fn keys_in_order(&self) -> (r: bool)
        ensures
            r == self.wf(),
    {
        if !entries_ascend(&self.parameters) || !entries_ascend(&self.airfoils) {
            return false;
        }
        let mut c: usize = 0;
        while c < self.components.len()
            invariant
                c <= self.components@.len(),
                forall|k: int| 0 <= k < c ==> match #[trigger] self.components@[k] {
                    Component::Wing(wing) => wing.wf(),
                },
            decreases self.components@.len() - c,
        {
            match &self.components[c] {
                Component::Wing(wing) => {
                    if !entries_ascend(&wing.interfaces) {
                        return false;
                    }
                },
            }
            c = c + 1;
        }
        true
    }
}

/// JSON path of a station inside the document, for diagnostics.
pub open spec fn station_path_spec(component_index: nat, station_index: nat) -> Seq<char> {
    "components/"@ + seq_of_nat(component_index) + "/stations/"@ + seq_of_nat(station_index)
}

pub fn station_path(component_index: usize, station_index: usize) -> (r: String)
    ensures
        r@ == station_path_spec(component_index as nat, station_index as nat),
{
    let mut out = String::from_str("components/");
    append_nat(&mut out, component_index as u64);
    out.append("/stations/");
    append_nat(&mut out, station_index as u64);
    proof {
        reveal_strlit("components/");
        reveal_strlit("/stations/");
    }
    assert(out@ =~= station_path_spec(component_index as nat, station_index as nat));
    out
}

} // verus!
