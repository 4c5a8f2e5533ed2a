//! Mesh bookkeeping that needs no geometry: where each triangle comes
//! from, the verdict of a topological validation, export formats and the
//! resolved tessellation counts.
use vstd::prelude::*;
use crate::builder::view_diagnostics;
use crate::diagnostic::{error_view, Code, Diagnostic, DiagnosticView};
use crate::text::{append_nat, seq_of_nat};
use std::collections::HashMap;

verus! {

/// Where a mesh triangle comes from, for selection tracing.
#[derive(Debug, Clone, Copy, PartialEq, Eq, Structural)]
pub enum FaceSource {
    /// Part of the lofted surface between two adjacent stations.
    Panel { lower_station: usize, upper_station: usize, mirrored: bool },
    /// The flat tip closure of the outboard-most station.
    TipCap { station: usize, mirrored: bool },
    /// The symmetry-plane cap of a standalone half model.
    RootCap,
}

/// The verdict of a topological mesh validation.
#[derive(Debug, Clone, Copy, PartialEq, Eq, Structural)]
pub struct MeshValidation {
    pub closed: bool,
    pub manifold: bool,
    pub oriented: bool,
    pub degenerate_triangles: usize,
}

impl MeshValidation {
    pub open spec fn is_sound_spec(&self) -> bool {
        self.manifold && self.oriented && self.degenerate_triangles == 0
    }

    /// Manifold, consistently oriented, and free of degenerate triangles.
    pub fn is_sound(&self) -> (r: bool)
        ensures
            r == self.is_sound_spec(),
    {
        self.manifold && self.oriented && self.degenerate_triangles == 0
    }

    /// The mesh-failure diagnostics of an unsound validation, in order:
    /// non-manifold edges, inconsistent orientation, degenerate triangles.
    pub open spec fn diagnostics_spec(&self, subject: Seq<char>) -> Seq<DiagnosticView> {
        let at = |message: Seq<char>| error_view(Code::MeshFailure, message).with_subject(subject);
        (if !self.manifold {
            seq![at("mesh has non-manifold edges"@)]
        } else {
            Seq::empty()
        }) + (if !self.oriented {
            seq![at("mesh face orientation is inconsistent"@)]
        } else {
            Seq::empty()
        }) + (if self.degenerate_triangles > 0 {
            seq![
                at(
                    "mesh has "@ + seq_of_nat(self.degenerate_triangles as nat) + " degenerate triangles"@,
                ),
            ]
        } else {
            Seq::empty()
        })
    }

    pub fn diagnostics(&self, subject: &str) -> (r: Vec<Diagnostic>)
        ensures
            view_diagnostics(r@) == self.diagnostics_spec(subject@),
    {
        let mut out: Vec<Diagnostic> = Vec::new();
        if !self.manifold {
            out.push(
                Diagnostic::error(Code::MeshFailure, String::from_str("mesh has non-manifold edges")).with_subject(
                    String::from_str(subject),
                ),
            );
        }
        if !self.oriented {
            out.push(
                Diagnostic::error(
                    Code::MeshFailure,
                    String::from_str("mesh face orientation is inconsistent"),
                ).with_subject(String::from_str(subject)),
            );
        }
        if self.degenerate_triangles > 0 {
            let mut message = String::from_str("mesh has ");
            append_nat(&mut message, self.degenerate_triangles as u64);
            message.append(" degenerate triangles");
            proof {
                reveal_strlit("mesh has ");
                reveal_strlit(" degenerate triangles");
            }
            out.push(Diagnostic::error(Code::MeshFailure, message).with_subject(String::from_str(subject)));
        }
        assert(view_diagnostics(out@) =~= self.diagnostics_spec(subject@));
        out
    }
}

/// Mesh size figures of a report.
#[derive(Debug, Clone, Copy, PartialEq, Eq, Structural)]
pub struct MeshStatistics {
    pub vertices: usize,
    pub triangles: usize,
}

/// Tessellation counts resolved from a quality request.
#[derive(Debug)]
pub struct ResolvedQuality {
    /// Chord samples per surface per ring.
    pub chord_samples: usize,
    /// Span subdivisions per panel (index-aligned with station panels).
    pub span_subdivisions: Vec<usize>,
}

#[derive(Debug, Clone, Copy, PartialEq, Eq, Structural)]
pub enum MeshFormat {
    StlBinary,
    StlAscii,
    Obj,
    Glb,
}

impl MeshFormat {
    pub open spec fn extension_spec(self) -> Seq<char> {
        match self {
            MeshFormat::StlBinary | MeshFormat::StlAscii => "stl"@,
            MeshFormat::Obj => "obj"@,
            MeshFormat::Glb => "glb"@,
        }
    }

    /// Canonical file extension without the dot.
    pub fn extension(self) -> (r: &'static str)
        ensures
            r@ == self.extension_spec(),
    {
        match self {
            MeshFormat::StlBinary | MeshFormat::StlAscii => "stl",
            MeshFormat::Obj => "obj",
            MeshFormat::Glb => "glb",
        }
    }
}


pub open spec fn is_degenerate(t: [u32; 3]) -> bool {
    t[0] == t[1] || t[1] == t[2] || t[0] == t[2]
}

/// The undirected key of an edge: its smaller vertex, then its larger.
pub open spec fn edge_key(p: u32, q: u32) -> u64 {
    if p < q {
        (p as nat * 4294967296 + q as nat) as u64
    } else {
        (q as nat * 4294967296 + p as nat) as u64
    }
}

/// `+1` when an edge runs from its smaller vertex to its larger, else `-1`.
pub open spec fn edge_direction(p: u32, q: u32) -> int {
    if p < q {
        1
    } else {
        -1
    }
}

/// The directed edges of the non-degenerate triangles, in order.
pub open spec fn directed_edges(tris: Seq<[u32; 3]>) -> Seq<(u64, int)>
    decreases tris.len(),
{
    if tris.len() == 0 {
        Seq::empty()
    } else {
        let t = tris.last();
        directed_edges(tris.drop_last()) + if is_degenerate(t) {
            Seq::empty()
        } else {
            seq![
                (edge_key(t[0], t[1]), edge_direction(t[0], t[1])),
                (edge_key(t[1], t[2]), edge_direction(t[1], t[2])),
                (edge_key(t[2], t[0]), edge_direction(t[2], t[0])),
            ]
        }
    }
}

pub open spec fn degenerate_count(tris: Seq<[u32; 3]>) -> nat
    decreases tris.len(),
{
    if tris.len() == 0 {
        0
    } else {
        degenerate_count(tris.drop_last()) + if is_degenerate(tris.last()) { 1nat } else { 0nat }
    }
}

/// How many directed edges share a key.
pub open spec fn key_count(es: Seq<(u64, int)>, k: u64) -> nat
    decreases es.len(),
{
    if es.len() == 0 {
        0
    } else {
        key_count(es.drop_last(), k) + if es.last().0 == k { 1nat } else { 0nat }
    }
}

/// The sum of the directions of the directed edges with a key.
pub open spec fn direction_sum(es: Seq<(u64, int)>, k: u64) -> int
    decreases es.len(),
{
    if es.len() == 0 {
        0
    } else {
        direction_sum(es.drop_last(), k) + if es.last().0 == k { es.last().1 } else { 0 }
    }
}

/// Closed: no edge borders a single triangle. Manifold: none borders more
/// than two. Oriented: every edge between two triangles is traversed once
/// each way.
pub open spec fn topology_spec(tris: Seq<[u32; 3]>) -> MeshValidation {
    let es = directed_edges(tris);
    MeshValidation {
        closed: forall|i: int| 0 <= i < es.len() ==> key_count(es, #[trigger] es[i].0) != 1,
        manifold: forall|i: int| 0 <= i < es.len() ==> key_count(es, #[trigger] es[i].0) <= 2,
        oriented: forall|i: int|
            0 <= i < es.len() ==> (key_count(es, #[trigger] es[i].0) == 2 ==> direction_sum(es, es[i].0) == 0),
        degenerate_triangles: degenerate_count(tris) as usize,
    }
}

proof fn lemma_counts_bound(es: Seq<(u64, int)>, k: u64)
    requires
        forall|j: int| 0 <= j < es.len() ==> (#[trigger] es[j]).1 == 1 || es[j].1 == -1,
    ensures
        key_count(es, k) <= es.len(),
        -(key_count(es, k) as int) <= direction_sum(es, k) <= key_count(es, k),
    decreases es.len(),
{
    if es.len() > 0 {
        assert forall|j: int| 0 <= j < es.drop_last().len() implies (#[trigger] es.drop_last()[j]).1 == 1
            || es.drop_last()[j].1 == -1 by {
            assert(es.drop_last()[j] == es[j]);
        }
        lemma_counts_bound(es.drop_last(), k);
    }
}

proof fn lemma_edges_bound(tris: Seq<[u32; 3]>)
    ensures
        directed_edges(tris).len() <= 3 * tris.len(),
        degenerate_count(tris) <= tris.len(),
        forall|i: int| 0 <= i < directed_edges(tris).len() ==> (#[trigger] directed_edges(tris)[i]).1 == 1
            || directed_edges(tris)[i].1 == -1,
    decreases tris.len(),
{
    if tris.len() > 0 {
        lemma_edges_bound(tris.drop_last());
        let a = directed_edges(tris.drop_last());
        let t = tris.last();
        let b = if is_degenerate(t) {
            Seq::empty()
        } else {
            seq![
                (edge_key(t[0], t[1]), edge_direction(t[0], t[1])),
                (edge_key(t[1], t[2]), edge_direction(t[1], t[2])),
                (edge_key(t[2], t[0]), edge_direction(t[2], t[0])),
            ]
        };
        assert forall|i: int| 0 <= i < (a + b).len() implies (#[trigger] (a + b)[i]).1 == 1 || (a + b)[i].1
            == -1 by {
            if i < a.len() {
                assert((a + b)[i] == a[i]);
            } else {
                assert((a + b)[i] == b[i - a.len()]);
            }
        }
    }
}

/// How many directed edges with a key run from the smaller vertex to the
/// larger.
pub open spec fn forward_count(es: Seq<(u64, int)>, k: u64) -> nat
    decreases es.len(),
{
    if es.len() == 0 {
        0
    } else {
        forward_count(es.drop_last(), k) + if es.last().0 == k && es.last().1 == 1 { 1nat } else { 0nat }
    }
}

/// An edge key names the edge's two vertices and nothing else: two edges
/// share a key exactly when they join the same two vertices, in either
/// direction, and the two directions of an edge are opposite.
pub proof fn law_edge_key_undirected(p: u32, q: u32, a: u32, b: u32)
    requires
        p != q,
        a != b,
    ensures
        edge_key(p, q) == edge_key(a, b) <==> ((p == a && q == b) || (p == b && q == a)),
        edge_direction(p, q) == -edge_direction(q, p),
{
    let (lo1, hi1) = if p < q { (p, q) } else { (q, p) };
    let (lo2, hi2) = if a < b { (a, b) } else { (b, a) };
    assert(edge_key(p, q) == ((lo1 as nat) * 4294967296 + (hi1 as nat)) as u64);
    assert(edge_key(a, b) == ((lo2 as nat) * 4294967296 + (hi2 as nat)) as u64);
    assert((lo1 as nat) * 4294967296 + (hi1 as nat) < 0x1_0000_0000_0000_0000) by (nonlinear_arith)
        requires lo1 < 0x1_0000_0000, hi1 < 0x1_0000_0000;
    assert((lo2 as nat) * 4294967296 + (hi2 as nat) < 0x1_0000_0000_0000_0000) by (nonlinear_arith)
        requires lo2 < 0x1_0000_0000, hi2 < 0x1_0000_0000;
    if edge_key(p, q) == edge_key(a, b) {
        assert(lo1 == lo2 && hi1 == hi2) by (nonlinear_arith)
            requires
                (lo1 as nat) * 4294967296 + (hi1 as nat) == (lo2 as nat) * 4294967296 + (hi2 as nat),
                hi1 < 4294967296,
                hi2 < 4294967296,
        ;
    }
}

proof fn lemma_direction_sum_counts(es: Seq<(u64, int)>, k: u64)
    requires
        forall|j: int| 0 <= j < es.len() ==> (#[trigger] es[j]).1 == 1 || es[j].1 == -1,
    ensures
        direction_sum(es, k) == 2 * forward_count(es, k) - key_count(es, k),
        forward_count(es, k) <= key_count(es, k),
    decreases es.len(),
{
    if es.len() > 0 {
        assert forall|j: int| 0 <= j < es.drop_last().len() implies (#[trigger] es.drop_last()[j]).1 == 1
            || es.drop_last()[j].1 == -1 by {
            assert(es.drop_last()[j] == es[j]);
        }
        lemma_direction_sum_counts(es.drop_last(), k);
        assert(es.last() == es[es.len() - 1]);
    }
}

/// What the validation reports, over the undirected edges of the
/// non-degenerate triangles: closed exactly when no edge borders a single
/// triangle, manifold exactly when none borders more than two, oriented
/// exactly when every edge bordering two triangles is traversed once in each
/// direction; and the number of triangles that repeat a vertex.
pub proof fn law_topology(tris: Seq<[u32; 3]>)
    requires
        tris.len() <= usize::MAX,
    ensures
        ({
            let es = directed_edges(tris);
            let v = topology_spec(tris);
            &&& v.closed <==> forall|i: int| 0 <= i < es.len() ==> key_count(es, #[trigger] es[i].0) != 1
            &&& v.manifold <==> forall|i: int| 0 <= i < es.len() ==> key_count(es, #[trigger] es[i].0) <= 2
            &&& v.oriented <==> forall|i: int|
                0 <= i < es.len() && key_count(es, #[trigger] es[i].0) == 2 ==> forward_count(es, es[i].0) == 1
                    && key_count(es, es[i].0) - forward_count(es, es[i].0) == 1
            &&& v.degenerate_triangles == degenerate_count(tris)
        }),
{
    let es = directed_edges(tris);
    lemma_edges_bound(tris);
    assert forall|k: u64| true implies direction_sum(es, k) == 2 * forward_count(es, k) - key_count(es, k) by {
        lemma_direction_sum_counts(es, k);
    }
    assert(degenerate_count(tris) <= tris.len());
}

fn edge(p: u32, q: u32) -> (r: (u64, i64))
    ensures
        r.0 == edge_key(p, q),
        r.1 == edge_direction(p, q),
{
    if p < q {
        assert((p as nat) * 4294967296 + (q as nat) < 0x1_0000_0000_0000_0000) by (nonlinear_arith)
            requires p < 0x1_0000_0000, q < 0x1_0000_0000;
        ((p as u64) * 4294967296 + (q as u64), 1)
    } else {
        assert((q as nat) * 4294967296 + (p as nat) < 0x1_0000_0000_0000_0000) by (nonlinear_arith)
            requires p < 0x1_0000_0000, q < 0x1_0000_0000;
        ((q as u64) * 4294967296 + (p as u64), -1)
    }
}

/// Topological validation of a triangle list: closedness,
/// edge-manifoldness, consistent orientation of interior edges, and the
/// count of degenerate triangles.
pub fn validate_topology(triangles: &Vec<[u32; 3]>) -> (r: MeshValidation)
    requires
        triangles@.len() * 3 <= usize::MAX,
        triangles@.len() * 3 <= i64::MAX,
    ensures
        r == topology_spec(triangles@),
        ({
            let es = directed_edges(triangles@);
            &&& r.closed <==> forall|i: int| 0 <= i < es.len() ==> key_count(es, #[trigger] es[i].0) != 1
            &&& r.manifold <==> forall|i: int| 0 <= i < es.len() ==> key_count(es, #[trigger] es[i].0) <= 2
            &&& r.oriented <==> forall|i: int|
                0 <= i < es.len() && key_count(es, #[trigger] es[i].0) == 2 ==> forward_count(es, es[i].0) == 1
                    && key_count(es, es[i].0) - forward_count(es, es[i].0) == 1
            &&& r.degenerate_triangles == degenerate_count(triangles@)
        }),
{
    proof {
        law_topology(triangles@);
    }
    broadcast use vstd::std_specs::hash::group_hash_axioms;
    let ghost tris = triangles@;
    let mut edges: Vec<(u64, i64)> = Vec::new();
    let mut degenerate: usize = 0;
    let mut t: usize = 0;
    while t < triangles.len()
        invariant
            t <= tris.len(),
            tris == triangles@,
            edges@.len() == directed_edges(tris.take(t as int)).len(),
            forall|i: int| 0 <= i < edges@.len() ==> (#[trigger] edges@[i]).0 == directed_edges(tris.take(t as int))[i].0
                && edges@[i].1 as int == directed_edges(tris.take(t as int))[i].1,
            degenerate == degenerate_count(tris.take(t as int)),
            degenerate <= t,
            edges@.len() <= 3 * t,
        decreases tris.len() - t,
    {
        let tri = triangles[t];
        let ghost before = edges@;
        proof {
            assert(tris.take(t + 1).drop_last() =~= tris.take(t as int));
            assert(tris.take(t + 1).last() == tri);
        }
        if tri[0] == tri[1] || tri[1] == tri[2] || tri[0] == tri[2] {
            degenerate = degenerate + 1;
        } else {
            edges.push(edge(tri[0], tri[1]));
            edges.push(edge(tri[1], tri[2]));
            edges.push(edge(tri[2], tri[0]));
        }
        proof {
            let full = directed_edges(tris.take(t + 1));
            assert forall|i: int| 0 <= i < edges@.len() implies (#[trigger] edges@[i]).0 == full[i].0
                && edges@[i].1 as int == full[i].1 by {
                if i < before.len() {
                    assert(edges@[i] == before[i]);
                }
            }
        }
        t = t + 1;
    }
    assert(tris.take(tris.len() as int) =~= tris);
    let ghost es = directed_edges(tris);
    proof {
        lemma_edges_bound(tris);
    }
    let mut table: HashMap<u64, (usize, i64)> = HashMap::new();
    let mut i: usize = 0;
    while i < edges.len()
        invariant
            i <= edges@.len() == es.len(),
            es == directed_edges(tris),
            es.len() * 1 <= usize::MAX,
            es.len() <= i64::MAX,
            forall|j: int| 0 <= j < edges@.len() ==> (#[trigger] edges@[j]).0 == es[j].0 && edges@[j].1 as int
                == es[j].1,
            forall|j: int| 0 <= j < es.len() ==> (#[trigger] es[j]).1 == 1 || es[j].1 == -1,
            forall|k: u64|
                #![trigger table@.contains_key(k)]
                table@.contains_key(k) <==> key_count(es.take(i as int), k) > 0,
            forall|k: u64|
                #![trigger table@[k]]
                table@.contains_key(k) ==> table@[k].0 as int == key_count(es.take(i as int), k) as int
                    && table@[k].1 as int == direction_sum(es.take(i as int), k),
        decreases edges@.len() - i,
    {
        let (key, direction) = edges[i];
        let ghost prefix = es.take(i as int);
        proof {
            assert(es.take(i + 1).drop_last() =~= prefix);
            assert(es.take(i + 1).last() == es[i as int]);
            assert forall|q: int| 0 <= q < prefix.len() implies (#[trigger] prefix[q]).1 == 1 || prefix[q].1
                == -1 by {
                assert(prefix[q] == es[q]);
            }
            lemma_counts_bound(prefix, key);
        }
        let (count, sum) = match table.get(&key) {
            Some(entry) => *entry,
            None => (0usize, 0i64),
        };
        assert(count as int == key_count(prefix, key) as int);
        assert(sum as int == direction_sum(prefix, key));
        table.insert(key, (count + 1, sum + direction));
        proof {
            assert forall|k: u64| #![trigger table@.contains_key(k)] table@.contains_key(k) <==> key_count(
                es.take(i + 1),
                k,
            ) > 0 by {}
            assert forall|k: u64| #![trigger table@[k]] table@.contains_key(k) implies table@[k].0 as int
                == key_count(es.take(i + 1), k) as int && table@[k].1 as int == direction_sum(es.take(i + 1), k) by {}
        }
        i = i + 1;
    }
    assert(es.take(es.len() as int) =~= es);
    let mut closed = true;
    let mut manifold = true;
    let mut oriented = true;
    let mut j: usize = 0;
    while j < edges.len()
        invariant
            j <= edges@.len() == es.len(),
            es == directed_edges(tris),
            forall|q: int| 0 <= q < edges@.len() ==> (#[trigger] edges@[q]).0 == es[q].0,
            forall|k: u64|
                #![trigger table@.contains_key(k)]
                table@.contains_key(k) <==> key_count(es, k) > 0,
            forall|k: u64|
                #![trigger table@[k]]
                table@.contains_key(k) ==> table@[k].0 as int == key_count(es, k) as int && table@[k].1 as int
                    == direction_sum(es, k),
            closed == forall|q: int| 0 <= q < j ==> key_count(es, #[trigger] es[q].0) != 1,
            manifold == forall|q: int| 0 <= q < j ==> key_count(es, #[trigger] es[q].0) <= 2,
            oriented == forall|q: int|
                0 <= q < j ==> (key_count(es, #[trigger] es[q].0) == 2 ==> direction_sum(es, es[q].0) == 0),
        decreases edges@.len() - j,
    {
        let key = edges[j].0;
        proof {
            lemma_key_present(es, j as int);
        }
        let (count, sum) = match table.get(&key) {
            Some(entry) => *entry,
            None => (0usize, 0i64),
        };
        if count > 2 {
            manifold = false;
        }
        if count == 1 {
            closed = false;
        }
        if count == 2 && sum != 0 {
            oriented = false;
        }
        j = j + 1;
    }
    MeshValidation { closed, manifold, oriented, degenerate_triangles: degenerate }
}

proof fn lemma_key_present(es: Seq<(u64, int)>, j: int)
    requires
        0 <= j < es.len(),
    ensures
        key_count(es, es[j].0) > 0,
    decreases es.len(),
{
    if j < es.len() - 1 {
        lemma_key_present(es.drop_last(), j);
        assert(es.drop_last()[j] == es[j]);
    }
}

/// A validation is sound exactly when the mesh is manifold, consistently
/// oriented and free of degenerate triangles.
pub proof fn law_soundness(v: MeshValidation)
    ensures
        v.is_sound_spec() ==> v.manifold && v.oriented && v.degenerate_triangles == 0,
        v.manifold && v.oriented && v.degenerate_triangles == 0 ==> v.is_sound_spec(),
{
}

proof fn lemma_degenerate_counted(tris: Seq<[u32; 3]>, i: int)
    requires
        0 <= i < tris.len(),
        is_degenerate(tris[i]),
    ensures
        degenerate_count(tris) > 0,
    decreases tris.len(),
{
    if i < tris.len() - 1 {
        assert(tris.drop_last()[i] == tris[i]);
        lemma_degenerate_counted(tris.drop_last(), i);
    }
}

/// A triangle list in which some triangle repeats a vertex index never
/// validates as sound.
pub proof fn law_degenerate_is_unsound(tris: Seq<[u32; 3]>, i: int)
    requires
        tris.len() <= usize::MAX,
        0 <= i < tris.len(),
        tris[i][0] == tris[i][1] || tris[i][1] == tris[i][2] || tris[i][0] == tris[i][2],
    ensures
        topology_spec(tris).degenerate_triangles > 0,
        !topology_spec(tris).is_sound_spec(),
{
    lemma_degenerate_counted(tris, i);
    lemma_edges_bound(tris);
}

} // verus!
