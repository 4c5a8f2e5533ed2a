//! Graph algorithms over node dependencies: consumer lists, the
//! deterministic evaluation order, cycle detection and descendant closure.
use vstd::prelude::*;
use crate::node::{Node, NodeId};
use crate::text::{seq_less, str_less, str_eq, lemma_seq_less_total, lemma_seq_less_irreflexive, lemma_seq_less_transitive};

verus! {

broadcast use vstd::std_specs::vec::axiom_spec_len;

/// The dependency lists of the nodes, by node index.
pub open spec fn deps_of(nodes: Seq<Node>) -> Seq<Seq<NodeId>> {
    nodes.map_values(|n: Node| n.deps@)
}

/// Every dependency names an existing node.
pub open spec fn edges_in_range(deps: Seq<Seq<NodeId>>) -> bool {
    forall|v: int, k: int|
        0 <= v < deps.len() && 0 <= k < deps[v].len() ==> #[trigger] deps[v][k] < deps.len()
}

/// How often `x` occurs in `s`.
pub open spec fn occurrences(s: Seq<NodeId>, x: int) -> nat
    decreases s.len(),
{
    if s.len() == 0 {
        0
    } else {
        occurrences(s.drop_last(), x) + if s.last() == x { 1nat } else { 0nat }
    }
}

/// The consumers of `d` among the first `n` nodes: each node index, in
/// ascending order, once per occurrence of `d` among its dependencies.
pub open spec fn consumer_list(deps: Seq<Seq<NodeId>>, n: int, d: int) -> Seq<NodeId>
    decreases n,
{
    if n <= 0 {
        Seq::empty()
    } else {
        consumer_list(deps, n - 1, d) + Seq::new(
            occurrences(deps[n - 1], d),
            |k: int| (n - 1) as NodeId,
        )
    }
}

/// For each node, the nodes that consume it.
pub open spec fn consumers_spec(deps: Seq<Seq<NodeId>>) -> Seq<Seq<NodeId>> {
    Seq::new(deps.len(), |d: int| consumer_list(deps, deps.len() as int, d))
}

proof fn lemma_occurrences_push(s: Seq<NodeId>, j: int, x: int)
    requires
        0 <= j < s.len(),
    ensures
        occurrences(s.take(j + 1), x) == occurrences(s.take(j), x) + if s[j] == x { 1nat } else { 0nat },
{
    assert(s.take(j + 1).drop_last() =~= s.take(j));
}

/// For each node, the indices of the nodes that consume it, ascending, one
/// entry per occurrence among their dependencies.
pub fn build_consumers(nodes: &Vec<Node>) -> (r: Vec<Vec<NodeId>>)
    requires
        edges_in_range(deps_of(nodes@)),
    ensures
        r@.len() == nodes@.len(),
        forall|d: int| 0 <= d < r@.len() ==> (#[trigger] r@[d])@ == consumers_spec(deps_of(nodes@))[d],
{
    let ghost deps = deps_of(nodes@);
    let n = nodes.len();
    let mut consumers: Vec<Vec<NodeId>> = Vec::new();
    let mut k: usize = 0;
    while k < n
        invariant
            k <= n == nodes@.len(),
            consumers@.len() == k,
            forall|d: int| 0 <= d < k ==> (#[trigger] consumers@[d])@ == Seq::<NodeId>::empty(),
        decreases n - k,
    {
        consumers.push(Vec::new());
        k = k + 1;
    }
    let mut index: usize = 0;
    while index < n
        invariant
            index <= n == nodes@.len(),
            deps == deps_of(nodes@),
            edges_in_range(deps),
            consumers@.len() == n,
            forall|d: int|
                0 <= d < n ==> (#[trigger] consumers@[d])@ == consumer_list(deps, index as int, d),
        decreases n - index,
    {
        let node_deps = &nodes[index].deps;
        assert(node_deps@ == deps[index as int]);
        let mut j: usize = 0;
        while j < node_deps.len()
            invariant
                index < n == nodes@.len(),
                deps == deps_of(nodes@),
                edges_in_range(deps),
                node_deps@ == deps[index as int],
                j <= node_deps@.len(),
                consumers@.len() == n,
                forall|d: int|
                    0 <= d < n ==> (#[trigger] consumers@[d])@ == consumer_list(deps, index as int, d)
                        + Seq::new(
                        occurrences(node_deps@.take(j as int), d),
                        |q: int| index as NodeId,
                    ),
            decreases node_deps@.len() - j,
        {
            let dep = node_deps[j];
            assert(deps[index as int][j as int] == dep);
            assert(dep < n);
            let ghost before = consumers@;
            consumers[dep].push(index);
            proof {
                assert forall|d: int| 0 <= d < n implies (#[trigger] consumers@[d])@ == consumer_list(
                    deps,
                    index as int,
                    d,
                ) + Seq::new(
                    occurrences(node_deps@.take(j + 1), d),
                    |q: int| index as NodeId,
                ) by {
                    lemma_occurrences_push(node_deps@, j as int, d);
                    if d == dep {
                        assert(consumers@[d]@ =~= consumer_list(deps, index as int, d) + Seq::new(
                            occurrences(node_deps@.take(j + 1), d),
                            |q: int| index as NodeId,
                        ));
                    } else {
                        assert(consumers@[d] == before[d]);
                        assert(Seq::new(occurrences(node_deps@.take(j + 1), d), |q: int| index as NodeId)
                            =~= Seq::new(occurrences(node_deps@.take(j as int), d), |q: int| index as NodeId));
                    }
                }
            }
            j = j + 1;
        }
        proof {
            assert(node_deps@.take(node_deps@.len() as int) =~= node_deps@);
            assert forall|d: int| 0 <= d < n implies (#[trigger] consumers@[d])@ == consumer_list(
                deps,
                index + 1,
                d,
            ) by {
                assert(consumer_list(deps, index + 1, d) == consumer_list(deps, index as int, d) + Seq::new(
                    occurrences(deps[index as int], d),
                    |q: int| index as NodeId,
                ));
            }
        }
        index = index + 1;
    }
    consumers
}


/// Occurrences of `s`'s entries that are not yet in `placed`.
pub open spec fn unplaced_count(s: Seq<NodeId>, placed: Seq<NodeId>) -> nat
    decreases s.len(),
{
    if s.len() == 0 {
        0
    } else {
        unplaced_count(s.drop_last(), placed) + if placed.contains(s.last()) { 0nat } else { 1nat }
    }
}

/// A node is ready once it is unplaced and all its dependencies are placed.
pub open spec fn is_ready(deps: Seq<Seq<NodeId>>, placed: Seq<NodeId>, v: int) -> bool {
    &&& 0 <= v < deps.len()
    &&& !placed.contains(v as NodeId)
    &&& forall|k: int| 0 <= k < deps[v].len() ==> placed.contains(#[trigger] deps[v][k])
}

/// Ready nodes are taken by subject, then by index.
pub open spec fn key_before(nodes: Seq<Node>, a: int, b: int) -> bool {
    ||| seq_less(nodes[a].subject@, nodes[b].subject@)
    ||| (nodes[a].subject@ == nodes[b].subject@ && a < b)
}

/// `v` is the node taken next after `placed`: the first ready node by key.
pub open spec fn is_next(nodes: Seq<Node>, placed: Seq<NodeId>, v: int) -> bool {
    &&& is_ready(deps_of(nodes), placed, v)
    &&& forall|u: int|
        #![trigger is_ready(deps_of(nodes), placed, u)]
        is_ready(deps_of(nodes), placed, u) && u != v ==> key_before(nodes, v, u)
}

/// The deterministic evaluation order: repeatedly the first ready node by
/// key, until no node is ready.
pub open spec fn is_evaluation_order(nodes: Seq<Node>, order: Seq<NodeId>) -> bool {
    &&& forall|k: int| 0 <= k < order.len() ==> is_next(nodes, order.take(k), #[trigger] order[k] as int)
    &&& forall|v: int| !is_ready(deps_of(nodes), order, v)
}

/// Ranks that strictly decrease along every dependency edge.
pub open spec fn ranked(deps: Seq<Seq<NodeId>>, rank: Seq<nat>) -> bool {
    &&& rank.len() == deps.len()
    &&& forall|v: int, k: int|
        0 <= v < deps.len() && 0 <= k < deps[v].len() ==> rank[#[trigger] deps[v][k] as int] < rank[v]
}

/// The dependency relation has no cycle: some ranking decreases along it.
pub open spec fn acyclic(deps: Seq<Seq<NodeId>>) -> bool {
    exists|rank: Seq<nat>| ranked(deps, rank)
}

pub open spec fn count_true(s: Seq<bool>) -> nat
    decreases s.len(),
{
    if s.len() == 0 {
        0
    } else {
        count_true(s.drop_last()) + if s.last() { 1nat } else { 0nat }
    }
}

proof fn lemma_count_true_bound(s: Seq<bool>)
    ensures
        count_true(s) <= s.len(),
    decreases s.len(),
{
    if s.len() > 0 {
        lemma_count_true_bound(s.drop_last());
    }
}

proof fn lemma_count_true_set(s: Seq<bool>, u: int)
    requires
        0 <= u < s.len(),
        !s[u],
    ensures
        count_true(s.update(u, true)) == count_true(s) + 1,
    decreases s.len(),
{
    let t = s.update(u, true);
    if u < s.len() - 1 {
        assert(t.drop_last() =~= s.drop_last().update(u, true));
        lemma_count_true_set(s.drop_last(), u);
    } else {
        assert(t.drop_last() =~= s.drop_last());
    }
}

proof fn lemma_unplaced_zero(s: Seq<NodeId>, placed: Seq<NodeId>)
    ensures
        (unplaced_count(s, placed) == 0) <==> (forall|k: int|
            0 <= k < s.len() ==> placed.contains(#[trigger] s[k])),
    decreases s.len(),
{
    if s.len() > 0 {
        lemma_unplaced_zero(s.drop_last(), placed);
        if unplaced_count(s, placed) == 0 {
            assert forall|k: int| 0 <= k < s.len() implies placed.contains(#[trigger] s[k]) by {
                if k < s.len() - 1 {
                    assert(s.drop_last()[k] == s[k]);
                }
            }
        }
        if forall|k: int| 0 <= k < s.len() ==> placed.contains(#[trigger] s[k]) {
            assert forall|k: int| 0 <= k < s.drop_last().len() implies placed.contains(
                #[trigger] s.drop_last()[k],
            ) by {
                assert(s.drop_last()[k] == s[k]);
            }
            assert(placed.contains(s[s.len() - 1]));
        }
    }
}

proof fn lemma_unplaced_place(s: Seq<NodeId>, placed: Seq<NodeId>, u: NodeId)
    requires
        !placed.contains(u),
    ensures
        occurrences(s, u as int) <= unplaced_count(s, placed),
        unplaced_count(s, placed.push(u)) == unplaced_count(s, placed) - occurrences(s, u as int),
    decreases s.len(),
{
    if s.len() > 0 {
        lemma_unplaced_place(s.drop_last(), placed, u);
        let x = s.last();
        if x == u {
            assert(placed.push(u).contains(x)) by {
                assert(placed.push(u)[placed.len() as int] == u);
            }
        } else {
            assert(placed.push(u).contains(x) == placed.contains(x)) by {
                if placed.push(u).contains(x) {
                    let i = choose|i: int| 0 <= i < placed.push(u).len() && placed.push(u)[i] == x;
                    assert(placed[i] == x);
                }
                if placed.contains(x) {
                    let i = choose|i: int| 0 <= i < placed.len() && placed[i] == x;
                    assert(placed.push(u)[i] == x);
                }
            }
        }
    }
}

proof fn lemma_occurrences_concat(a: Seq<NodeId>, b: Seq<NodeId>, x: int)
    ensures
        occurrences(a + b, x) == occurrences(a, x) + occurrences(b, x),
    decreases b.len(),
{
    if b.len() > 0 {
        assert((a + b).drop_last() =~= a + b.drop_last());
        lemma_occurrences_concat(a, b.drop_last(), x);
    } else {
        assert(a + b =~= a);
    }
}

proof fn lemma_occurrences_repeat(count: nat, i: NodeId, x: int)
    ensures
        occurrences(Seq::new(count, |q: int| i), x) == if i == x { count } else { 0 },
    decreases count,
{
    if count > 0 {
        assert(Seq::new(count, |q: int| i).drop_last() =~= Seq::new((count - 1) as nat, |q: int| i));
        lemma_occurrences_repeat((count - 1) as nat, i, x);
    }
}

proof fn lemma_occurrences_prefix(s: Seq<NodeId>, q: int, x: int)
    requires
        0 <= q <= s.len(),
    ensures
        occurrences(s.take(q), x) <= occurrences(s, x),
    decreases s.len() - q,
{
    if q < s.len() {
        lemma_occurrences_push(s, q, x);
        lemma_occurrences_prefix(s, q + 1, x);
    } else {
        assert(s.take(q) =~= s);
    }
}

/// Node `c` occurs among the consumers of `u` exactly as often as `u`
/// occurs among the dependencies of `c`.
pub proof fn lemma_consumer_occurrences(deps: Seq<Seq<NodeId>>, m: int, u: int, c: int)
    requires
        0 <= m <= deps.len() <= usize::MAX,
        0 <= c,
    ensures
        occurrences(consumer_list(deps, m, u), c) == if c < m { occurrences(deps[c], u) } else { 0 },
    decreases m,
{
    if m > 0 {
        lemma_consumer_occurrences(deps, m - 1, u, c);
        lemma_occurrences_concat(
            consumer_list(deps, m - 1, u),
            Seq::new(occurrences(deps[m - 1], u), |k: int| (m - 1) as NodeId),
            c,
        );
        lemma_occurrences_repeat(occurrences(deps[m - 1], u), (m - 1) as NodeId, c);
    }
}

/// A value that occurs in a list is contained in it.
pub proof fn lemma_occurrences_positive(s: Seq<NodeId>, x: int)
    requires
        occurrences(s, x) > 0,
    ensures
        s.contains(x as NodeId),
    decreases s.len(),
{
    if s.len() > 0 {
        if s.last() == x {
            assert(s[s.len() - 1] == x as NodeId);
        } else {
            lemma_occurrences_positive(s.drop_last(), x);
            let i = choose|i: int| 0 <= i < s.drop_last().len() && s.drop_last()[i] == x as NodeId;
            assert(s[i] == x as NodeId);
        }
    }
}

/// Every entry of a list occurs in it.
pub proof fn lemma_occurrences_of_entry(s: Seq<NodeId>, i: int)
    requires
        0 <= i < s.len(),
    ensures
        occurrences(s, s[i] as int) > 0,
    decreases s.len(),
{
    if i < s.len() - 1 {
        assert(s.drop_last()[i] == s[i]);
        lemma_occurrences_of_entry(s.drop_last(), i);
    }
}

proof fn lemma_key_before_total(nodes: Seq<Node>, a: int, b: int)
    requires
        a != b,
    ensures
        key_before(nodes, a, b) || key_before(nodes, b, a),
        !(key_before(nodes, a, b) && key_before(nodes, b, a)),
{
    lemma_seq_less_total(nodes[a].subject@, nodes[b].subject@);
    lemma_seq_less_irreflexive(nodes[a].subject@);
}

proof fn lemma_key_before_transitive(nodes: Seq<Node>, a: int, b: int, c: int)
    requires
        key_before(nodes, a, b),
        key_before(nodes, b, c),
    ensures
        key_before(nodes, a, c),
{
    let (x, y, z) = (nodes[a].subject@, nodes[b].subject@, nodes[c].subject@);
    if seq_less(x, y) && seq_less(y, z) {
        lemma_seq_less_transitive(x, y, z);
    }
}

/// The deterministic evaluation order (dependencies first): repeatedly the
/// ready node whose subject sorts first, ties broken by index.
pub fn topological_order(nodes: &Vec<Node>) -> (r: Vec<NodeId>)
    requires
        edges_in_range(deps_of(nodes@)),
    ensures
        is_evaluation_order(nodes@, r@),
{
    let ghost deps = deps_of(nodes@);
    let consumers = build_consumers(nodes);
    let n = nodes.len();
    let mut pending: Vec<usize> = Vec::new();
    let mut placed: Vec<bool> = Vec::new();
    let mut k: usize = 0;
    while k < n
        invariant
            k <= n == nodes@.len(),
            deps == deps_of(nodes@),
            pending@.len() == k,
            placed@.len() == k,
            forall|v: int| 0 <= v < k ==> !(#[trigger] placed@[v]),
            forall|v: int| 0 <= v < k ==> (#[trigger] pending@[v]) == deps[v].len(),
        decreases n - k,
    {
        pending.push(nodes[k].deps.len());
        placed.push(false);
        k = k + 1;
    }
    let mut order: Vec<NodeId> = Vec::new();
    proof {
        assert forall|v: int| 0 <= v < n implies (#[trigger] pending@[v]) == unplaced_count(
            deps[v],
            order@,
        ) by {
            lemma_unplaced_all(deps[v], order@);
        }
        assert(count_true(placed@) == 0) by {
            lemma_count_false(placed@);
        }
    }
    loop
        invariant
            n == nodes@.len(),
            deps == deps_of(nodes@),
            edges_in_range(deps),
            consumers@.len() == n,
            forall|d: int| 0 <= d < n ==> (#[trigger] consumers@[d])@ == consumers_spec(deps)[d],
            pending@.len() == n,
            placed@.len() == n,
            forall|v: int| 0 <= v < n ==> (#[trigger] placed@[v]) == order@.contains(v as NodeId),
            forall|v: int| 0 <= v < n ==> (#[trigger] pending@[v]) == unplaced_count(deps[v], order@),
            forall|j: int| 0 <= j < order@.len() ==> is_next(nodes@, order@.take(j), #[trigger] order@[j] as int),
            count_true(placed@) == order@.len(),
        ensures
            is_evaluation_order(nodes@, order@),
        decreases n - order@.len(),
    {
        proof {
            lemma_count_true_bound(placed@);
        }
        let mut best: Option<NodeId> = None;
        let mut v: usize = 0;
        while v < n
            invariant
                v <= n == nodes@.len(),
                deps == deps_of(nodes@),
                pending@.len() == n,
                placed@.len() == n,
                forall|w: int| 0 <= w < n ==> (#[trigger] placed@[w]) == order@.contains(w as NodeId),
                forall|w: int| 0 <= w < n ==> (#[trigger] pending@[w]) == unplaced_count(deps[w], order@),
                match best {
                    None => forall|w: int| 0 <= w < v ==> !is_ready(deps, order@, w),
                    Some(b) => b < v && is_ready(deps, order@, b as int) && forall|w: int|
                        0 <= w < v && w != b && is_ready(deps, order@, w) ==> key_before(nodes@, b as int, w),
                },
            decreases n - v,
        {
            proof {
                lemma_unplaced_zero(deps[v as int], order@);
            }
            if !placed[v] && pending[v] == 0 {
                assert(is_ready(deps, order@, v as int));
                match best {
                    None => {
                        best = Some(v);
                    },
                    Some(b) => {
                        if str_less(nodes[v].subject.as_str(), nodes[b].subject.as_str()) {
                            proof {
                                assert(key_before(nodes@, v as int, b as int));
                                assert forall|w: int|
                                    0 <= w < v + 1 && w != v && is_ready(deps, order@, w) implies key_before(
                                    nodes@,
                                    v as int,
                                    w,
                                ) by {
                                    if w != b {
                                        lemma_key_before_transitive(nodes@, v as int, b as int, w);
                                    }
                                }
                            }
                            best = Some(v);
                        } else {
                            proof {
                                lemma_seq_less_total(nodes@[v as int].subject@, nodes@[b as int].subject@);
                                assert(key_before(nodes@, b as int, v as int));
                            }
                        }
                    },
                }
            } else {
                assert(!is_ready(deps, order@, v as int));
            }
            v = v + 1;
        }
        match best {
            None => {
                break;
            },
            Some(u) => {
                let ghost old_order = order@;
                let ghost old_placed = placed@;
                proof {
                    assert(order@.take(order@.len() as int) =~= order@);
                    assert forall|w: int| #![trigger is_ready(deps, order@, w)]
                        is_ready(deps, order@, w) && w != u implies key_before(nodes@, u as int, w) by {
                        assert(0 <= w < n);
                    }
                    lemma_count_true_set(placed@, u as int);
                    lemma_count_true_bound(placed@.update(u as int, true));
                }
                order.push(u);
                placed.set(u, true);
                let list = &consumers[u];
                let mut q: usize = 0;
                proof {
                    assert forall|w: int| 0 <= w < n implies (#[trigger] placed@[w]) == order@.contains(
                        w as NodeId,
                    ) by {
                        if w != u {
                            assert(old_placed[w] == old_order.contains(w as NodeId));
                            if order@.contains(w as NodeId) {
                                let i = choose|i: int| 0 <= i < order@.len() && order@[i] == w as NodeId;
                                assert(old_order[i] == w as NodeId);
                            }
                            if old_order.contains(w as NodeId) {
                                let i = choose|i: int| 0 <= i < old_order.len() && old_order[i] == w as NodeId;
                                assert(order@[i] == w as NodeId);
                            }
                        } else {
                            assert(order@[old_order.len() as int] == u);
                        }
                    }
                    assert(order@ == old_order.push(u));
                    assert forall|j: int| 0 <= j < order@.len() implies is_next(
                        nodes@,
                        order@.take(j),
                        #[trigger] order@[j] as int,
                    ) by {
                        if j < old_order.len() {
                            assert(order@.take(j) =~= old_order.take(j));
                        } else {
                            assert(order@.take(j) =~= old_order.take(old_order.len() as int));
                        }
                    }
                }
                while q < list.len()
                    invariant
                        n == nodes@.len(),
                        deps == deps_of(nodes@),
                        edges_in_range(deps),
                        u < n,
                        !old_order.contains(u),
                        list@ == consumers_spec(deps)[u as int],
                        q <= list@.len(),
                        pending@.len() == n,
                        forall|w: int| 0 <= w < n ==> (#[trigger] pending@[w]) == unplaced_count(deps[w], old_order)
                            - occurrences(list@.take(q as int), w),
                    decreases list@.len() - q,
                {
                    let c = list[q];
                    proof {
                        lemma_consumer_occurrences(deps, n as int, u as int, c as int);
                        lemma_consumer_occurrences(deps, n as int, u as int, c as int);
                        assert(list@.take(q + 1).last() == c);
                        lemma_occurrences_push(list@, q as int, c as int);
                        lemma_occurrences_prefix(list@, q + 1, c as int);
                        assert(occurrences(list@.take(q + 1), c as int) > 0);
                        assert(c < n);
                        lemma_unplaced_place(deps[c as int], old_order, u);
                    }
                    pending.set(c, pending[c] - 1);
                    proof {
                        assert forall|w: int| 0 <= w < n implies (#[trigger] pending@[w]) == unplaced_count(
                            deps[w],
                            old_order,
                        ) - occurrences(list@.take(q + 1), w) by {
                            lemma_occurrences_push(list@, q as int, w);
                        }
                    }
                    q = q + 1;
                }
                proof {
                    assert(list@.take(list@.len() as int) =~= list@);
                    assert forall|w: int| 0 <= w < n implies (#[trigger] pending@[w]) == unplaced_count(
                        deps[w],
                        order@,
                    ) by {
                        lemma_consumer_occurrences(deps, n as int, u as int, w);
                        lemma_unplaced_place(deps[w], old_order, u);
                    }
                }
            },
        }
    }
    order
}

proof fn lemma_unplaced_all(s: Seq<NodeId>, placed: Seq<NodeId>)
    requires
        placed.len() == 0,
    ensures
        unplaced_count(s, placed) == s.len(),
    decreases s.len(),
{
    if s.len() > 0 {
        lemma_unplaced_all(s.drop_last(), placed);
    }
}

proof fn lemma_count_false(s: Seq<bool>)
    requires
        forall|v: int| 0 <= v < s.len() ==> !(#[trigger] s[v]),
    ensures
        count_true(s) == 0,
    decreases s.len(),
{
    if s.len() > 0 {
        lemma_count_false(s.drop_last());
    }
}


/// In the evaluation order every node comes after all of its dependencies,
/// and no node comes twice.
pub proof fn law_order_dependencies_first(nodes: Seq<Node>, order: Seq<NodeId>)
    requires
        is_evaluation_order(nodes, order),
    ensures
        forall|k: int, d: int|
            0 <= k < order.len() && 0 <= d < deps_of(nodes)[order[k] as int].len() ==> order.take(
                k,
            ).contains(#[trigger] deps_of(nodes)[order[k] as int][d]),
        forall|i: int, j: int| 0 <= i < j < order.len() ==> order[i] != order[j],
{
    assert forall|k: int, d: int|
        0 <= k < order.len() && 0 <= d < deps_of(nodes)[order[k] as int].len() implies order.take(
            k,
        ).contains(#[trigger] deps_of(nodes)[order[k] as int][d]) by {
        assert(is_next(nodes, order.take(k), order[k] as int));
    }
    assert forall|i: int, j: int| 0 <= i < j < order.len() implies order[i] != order[j] by {
        assert(is_next(nodes, order.take(j), order[j] as int));
        assert(order.take(j)[i] == order[i]);
    }
}

proof fn lemma_ready_below(deps: Seq<Seq<NodeId>>, rank: Seq<nat>, placed: Seq<NodeId>, v: int)
    requires
        ranked(deps, rank),
        edges_in_range(deps),
        0 <= v < deps.len(),
        !placed.contains(v as NodeId),
    ensures
        exists|w: int| #[trigger] is_ready(deps, placed, w),
    decreases rank[v],
{
    if is_ready(deps, placed, v) {
    } else {
        let k = choose|k: int| 0 <= k < deps[v].len() && !placed.contains(#[trigger] deps[v][k]);
        let d = deps[v][k];
        assert(rank[d as int] < rank[v]);
        lemma_ready_below(deps, rank, placed, d as int);
    }
}

/// When the dependencies have no cycle, the evaluation order holds every node.
pub proof fn law_order_complete(nodes: Seq<Node>, order: Seq<NodeId>)
    requires
        is_evaluation_order(nodes, order),
        edges_in_range(deps_of(nodes)),
        acyclic(deps_of(nodes)),
    ensures
        forall|v: NodeId| v < nodes.len() ==> #[trigger] order.contains(v),
{
    let deps = deps_of(nodes);
    let rank = choose|rank: Seq<nat>| ranked(deps, rank);
    assert forall|v: NodeId| v < nodes.len() implies #[trigger] order.contains(v) by {
        if !order.contains(v) {
            lemma_ready_below(deps, rank, order, v as int);
        }
    }
}

proof fn lemma_orders_agree_from(nodes: Seq<Node>, a: Seq<NodeId>, b: Seq<NodeId>, k: int)
    requires
        is_evaluation_order(nodes, a),
        is_evaluation_order(nodes, b),
        0 <= k <= a.len(),
        k <= b.len(),
        a.take(k) == b.take(k),
    ensures
        a == b,
    decreases a.len() - k,
{
    let deps = deps_of(nodes);
    if k < a.len() && k < b.len() {
        assert(is_next(nodes, a.take(k), a[k] as int));
        assert(is_next(nodes, b.take(k), b[k] as int));
        if a[k] != b[k] {
            lemma_key_before_total(nodes, a[k] as int, b[k] as int);
            assert(is_ready(deps, a.take(k), b[k] as int));
            assert(is_ready(deps, b.take(k), a[k] as int));
            assert(false);
        }
        assert(a.take(k + 1) =~= a.take(k).push(a[k]));
        assert(b.take(k + 1) =~= b.take(k).push(b[k]));
        lemma_orders_agree_from(nodes, a, b, k + 1);
    } else {
        if k < a.len() {
            assert(b =~= b.take(k));
            assert(is_next(nodes, a.take(k), a[k] as int));
            assert(is_ready(deps, b, a[k] as int));
        }
        if k < b.len() {
            assert(a =~= a.take(k));
            assert(is_next(nodes, b.take(k), b[k] as int));
            assert(is_ready(deps, a, b[k] as int));
        }
        assert(a =~= a.take(k));
        assert(b =~= b.take(k));
    }
}

/// The evaluation order is unique: it depends on the nodes alone.
pub proof fn law_evaluation_order_unique(nodes: Seq<Node>, a: Seq<NodeId>, b: Seq<NodeId>)
    requires
        is_evaluation_order(nodes, a),
        is_evaluation_order(nodes, b),
    ensures
        a == b,
{
    assert(a.take(0) =~= b.take(0));
    lemma_orders_agree_from(nodes, a, b, 0);
}


/// A closed walk along dependency edges: each entry depends on the next,
/// and the walk returns to where it started.
pub open spec fn is_cycle(deps: Seq<Seq<NodeId>>, c: Seq<NodeId>) -> bool {
    &&& c.len() >= 2
    &&& c[0] == c.last()
    &&& forall|i: int| 0 <= i < c.len() ==> (#[trigger] c[i]) < deps.len()
    &&& forall|i: int| 0 <= i < c.len() - 1 ==> deps[#[trigger] c[i] as int].contains(c[i + 1])
}

proof fn lemma_rank_along(deps: Seq<Seq<NodeId>>, rank: Seq<nat>, c: Seq<NodeId>, i: int)
    requires
        ranked(deps, rank),
        is_cycle(deps, c),
        0 < i < c.len(),
    ensures
        rank[c[i] as int] < rank[c[0] as int],
    decreases i,
{
    assert(deps[c[i - 1] as int].contains(c[(i - 1) + 1]));
    let k = choose|k: int| 0 <= k < deps[c[i - 1] as int].len() && #[trigger] deps[c[i - 1] as int][k] == c[i];
    assert(rank[deps[c[i - 1] as int][k] as int] < rank[c[i - 1] as int]);
    if i > 1 {
        lemma_rank_along(deps, rank, c, i - 1);
    }
}

/// A cycle rules out every ranking: cyclic and acyclic are exclusive.
pub proof fn law_cycle_excludes_order(deps: Seq<Seq<NodeId>>, c: Seq<NodeId>)
    requires
        is_cycle(deps, c),
    ensures
        !acyclic(deps),
{
    if acyclic(deps) {
        let rank = choose|rank: Seq<nat>| ranked(deps, rank);
        lemma_rank_along(deps, rank, c, c.len() - 1);
    }
}

/// The colour of a node during the depth-first cycle search: not yet
/// reached, on the current path, or finished.
#[derive(Clone, Copy, PartialEq, Eq, Structural)]
pub enum Mark {
    White,
    Gray,
    Black,
}

/// A state of the depth-first cycle search.
pub enum Dfs {
    /// Searching: the next start node, the colours, the current path and,
    /// for each node on it, how many of its dependencies were looked at.
    Running { start: int, color: Seq<Mark>, chain: Seq<NodeId>, stack: Seq<(NodeId, usize)> },
    /// A dependency on the current path was reached: the cycle found.
    Found(Seq<NodeId>),
    /// Every node was searched.
    Done,
}

/// The first position at or after `p` where `x` stands in `s` (its length
/// when none).
pub open spec fn position_from(s: Seq<NodeId>, x: NodeId, p: int) -> int
    decreases s.len() - p,
{
    if p >= s.len() || (0 <= p && s[p] == x) || p < 0 {
        p
    } else {
        position_from(s, x, p + 1)
    }
}

/// One step of the search. With an empty path it starts from the next
/// node still white, in index order; otherwise it looks at the next
/// dependency of the node on top of the path: a white one is pushed, a
/// grey one closes a cycle (from its first place on the path back to it),
/// a black one is passed over; a node whose dependencies are all looked at
/// turns black and leaves the path.
pub open spec fn dfs_next(deps: Seq<Seq<NodeId>>, s: Dfs) -> Dfs {
    match s {
        Dfs::Running { start, color, chain, stack } => if stack.len() == 0 {
            if start >= deps.len() {
                Dfs::Done
            } else if color[start] != Mark::White {
                Dfs::Running { start: start + 1, color, chain, stack }
            } else {
                Dfs::Running {
                    start,
                    color: color.update(start, Mark::Gray),
                    chain: seq![start as NodeId],
                    stack: seq![(start as NodeId, 0usize)],
                }
            }
        } else {
            let (node, index) = stack.last();
            if index < deps[node as int].len() {
                let dep = deps[node as int][index as int];
                let advanced = stack.update(stack.len() - 1, (node, (index + 1) as usize));
                if color[dep as int] == Mark::Gray {
                    let p = position_from(chain, dep, 0);
                    if p < chain.len() {
                        Dfs::Found(chain.subrange(p, chain.len() as int).push(dep))
                    } else {
                        Dfs::Done
                    }
                } else if color[dep as int] == Mark::White {
                    Dfs::Running {
                        start,
                        color: color.update(dep as int, Mark::Gray),
                        chain: chain.push(dep),
                        stack: advanced.push((dep, 0usize)),
                    }
                } else {
                    Dfs::Running { start, color, chain, stack: advanced }
                }
            } else {
                Dfs::Running {
                    start,
                    color: color.update(node as int, Mark::Black),
                    chain: chain.drop_last(),
                    stack: stack.drop_last(),
                }
            }
        },
        other => other,
    }
}

/// The search after `k` steps from the start: every node white, nothing on
/// the path.
pub open spec fn dfs_after(deps: Seq<Seq<NodeId>>, k: nat) -> Dfs
    decreases k,
{
    if k == 0 {
        Dfs::Running {
            start: 0,
            color: Seq::new(deps.len(), |i: int| Mark::White),
            chain: Seq::empty(),
            stack: Seq::empty(),
        }
    } else {
        dfs_next(deps, dfs_after(deps, (k - 1) as nat))
    }
}

/// The cycle the depth-first search from the lowest unvisited node finds.
pub open spec fn dfs_finds(deps: Seq<Seq<NodeId>>, c: Seq<NodeId>) -> bool {
    exists|k: nat| #[trigger] dfs_after(deps, k) == Dfs::Found(c)
}

/// The search ends without finding a cycle.
pub open spec fn dfs_ends_clear(deps: Seq<Seq<NodeId>>) -> bool {
    exists|k: nat| #[trigger] dfs_after(deps, k) == Dfs::Done
}

proof fn lemma_dfs_settled(deps: Seq<Seq<NodeId>>, k: nat, m: nat)
    requires
        k <= m,
        !(dfs_after(deps, k) is Running),
    ensures
        dfs_after(deps, m) == dfs_after(deps, k),
    decreases m - k,
{
    if k < m {
        lemma_dfs_settled(deps, k, (m - 1) as nat);
    }
}

/// The search has one outcome: the cycle it finds is unique, and it cannot
/// both find one and end without one.
pub proof fn law_dfs_outcome_unique(deps: Seq<Seq<NodeId>>, c1: Seq<NodeId>, c2: Seq<NodeId>)
    ensures
        dfs_finds(deps, c1) && dfs_finds(deps, c2) ==> c1 == c2,
        !(dfs_finds(deps, c1) && dfs_ends_clear(deps)),
{
    if dfs_finds(deps, c1) {
        let k1 = choose|k: nat| #[trigger] dfs_after(deps, k) == Dfs::Found(c1);
        if dfs_finds(deps, c2) {
            let k2 = choose|k: nat| #[trigger] dfs_after(deps, k) == Dfs::Found(c2);
            if k1 <= k2 {
                lemma_dfs_settled(deps, k1, k2);
            } else {
                lemma_dfs_settled(deps, k2, k1);
            }
        }
        if dfs_ends_clear(deps) {
            let k2 = choose|k: nat| #[trigger] dfs_after(deps, k) == Dfs::Done;
            if k1 <= k2 {
                lemma_dfs_settled(deps, k1, k2);
            } else {
                lemma_dfs_settled(deps, k2, k1);
            }
        }
    }
}

spec fn count_marked(s: Seq<Mark>, m: Mark) -> nat
    decreases s.len(),
{
    if s.len() == 0 {
        0
    } else {
        count_marked(s.drop_last(), m) + if s.last() == m { 1nat } else { 0nat }
    }
}

proof fn lemma_count_marked_bound(s: Seq<Mark>, m: Mark)
    ensures
        count_marked(s, m) <= s.len(),
    decreases s.len(),
{
    if s.len() > 0 {
        lemma_count_marked_bound(s.drop_last(), m);
    }
}

proof fn lemma_count_marked_update(s: Seq<Mark>, u: int, b: Mark, m: Mark)
    requires
        0 <= u < s.len(),
        s[u] != b,
    ensures
        count_marked(s.update(u, b), m) == count_marked(s, m) - (if s[u] == m { 1int } else { 0int })
            + (if b == m { 1int } else { 0int }),
    decreases s.len(),
{
    let t = s.update(u, b);
    if u < s.len() - 1 {
        assert(t.drop_last() =~= s.drop_last().update(u, b));
        lemma_count_marked_update(s.drop_last(), u, b, m);
    } else {
        assert(t.drop_last() =~= s.drop_last());
    }
}

/// Dependencies the frames on the search stack have still to visit.
spec fn remaining(deps: Seq<Seq<NodeId>>, stack: Seq<(NodeId, usize)>) -> nat
    decreases stack.len(),
{
    if stack.len() == 0 {
        0
    } else {
        remaining(deps, stack.drop_last()) + (deps[stack.last().0 as int].len() - stack.last().1) as nat
    }
}

/// Depth-first search for a dependency cycle. The walk returned runs from a
/// node on the current search path back to itself.
pub fn find_cycle(nodes: &Vec<Node>) -> (r: Option<Vec<NodeId>>)
    requires
        edges_in_range(deps_of(nodes@)),
    ensures
        match r {
            Some(c) => is_cycle(deps_of(nodes@), c@) && dfs_finds(deps_of(nodes@), c@),
            None => acyclic(deps_of(nodes@)) && dfs_ends_clear(deps_of(nodes@)),
        },
{
    let ghost deps = deps_of(nodes@);
    let n = nodes.len();
    let mut color: Vec<Mark> = Vec::new();
    let mut k: usize = 0;
    while k < n
        invariant
            k <= n == nodes@.len(),
            color@.len() == k,
            forall|v: int| 0 <= v < k ==> color@[v] == Mark::White,
        decreases n - k,
    {
        color.push(Mark::White);
        k = k + 1;
    }
    let ghost mut fin: Seq<nat> = Seq::new(n as nat, |i: int| 0nat);
    let ghost mut steps: nat = 0;
    assert(color@ =~= Seq::new(deps.len(), |i: int| Mark::White));
    assert(dfs_after(deps, 0) == Dfs::Running {
        start: 0,
        color: color@,
        chain: Seq::<NodeId>::empty(),
        stack: Seq::<(NodeId, usize)>::empty(),
    });
    let ghost mut counter: nat = 0;
    let mut start: usize = 0;
    while start < n
        invariant
            start <= n == nodes@.len(),
            deps == deps_of(nodes@),
            edges_in_range(deps),
            color@.len() == n,
            fin.len() == n,
            dfs_after(deps, steps) == (Dfs::Running {
                start: start as int,
                color: color@,
                chain: Seq::<NodeId>::empty(),
                stack: Seq::<(NodeId, usize)>::empty(),
            }),
            forall|v: int| 0 <= v < start ==> color@[v] != Mark::White,
            forall|v: int| 0 <= v < n ==> color@[v] != Mark::Gray,
            forall|v: int|
                0 <= v < n && #[trigger] color@[v] == Mark::Black ==> fin[v] < counter && forall|k: int|
                    0 <= k < deps[v].len() ==> color@[#[trigger] deps[v][k] as int] == Mark::Black
                        && fin[deps[v][k] as int] < fin[v],
        decreases n - start,
    {
        if color[start] != Mark::White {
            proof {
                steps = steps + 1;
            }
            start = start + 1;
            continue;
        }
        let mut chain: Vec<NodeId> = Vec::new();
        chain.push(start);
        let mut stack: Vec<(NodeId, usize)> = Vec::new();
        stack.push((start, 0));
        color.set(start, Mark::Gray);
        proof {
            steps = steps + 1;
            assert(chain@ =~= seq![start as NodeId]);
            assert(stack@ =~= seq![(start as NodeId, 0usize)]);
            assert(chain@[0] == start);
            assert forall|v: int| 0 <= v < n && #[trigger] color@[v] == Mark::Gray implies chain@.contains(
                v as NodeId,
            ) by {
                assert(v == start);
            }
        }
        while stack.len() > 0
            invariant
                start < n == nodes@.len(),
                deps == deps_of(nodes@),
                edges_in_range(deps),
                color@.len() == n,
                fin.len() == n,
                dfs_after(deps, steps) == (Dfs::Running {
                    start: start as int,
                    color: color@,
                    chain: chain@,
                    stack: stack@,
                }),
                forall|v: int| 0 <= v < start ==> color@[v] != Mark::White,
                color@[start as int] != Mark::White,
                chain@.len() == stack@.len(),
                forall|i: int| 0 <= i < stack@.len() ==> (#[trigger] stack@[i]).0 == chain@[i],
                forall|i: int|
                    0 <= i < stack@.len() ==> (#[trigger] stack@[i]).0 < n && stack@[i].1 <= deps[stack@[i].0 as int].len()
                        && color@[stack@[i].0 as int] == Mark::Gray,
                forall|v: int| 0 <= v < n && #[trigger] color@[v] == Mark::Gray ==> chain@.contains(v as NodeId),
                forall|i: int|
                    0 <= i < stack@.len() - 1 ==> (#[trigger] stack@[i]).1 >= 1 && deps[stack@[i].0 as int][stack@[i].1 - 1]
                        == stack@[i + 1].0,
                forall|i: int, k: int|
                    0 <= i < stack@.len() && 0 <= k < (#[trigger] stack@[i]).1 ==> color@[#[trigger] deps[stack@[i].0 as int][k] as int]
                        == Mark::Black || (i < stack@.len() - 1 && k == stack@[i].1 - 1),
                forall|v: int|
                    0 <= v < n && #[trigger] color@[v] == Mark::Black ==> fin[v] < counter && forall|k: int|
                        0 <= k < deps[v].len() ==> color@[#[trigger] deps[v][k] as int] == Mark::Black
                            && fin[deps[v][k] as int] < fin[v],
            decreases count_marked(color@, Mark::White), n - count_marked(color@, Mark::Black), remaining(
                deps,
                stack@,
            ),
        {
            let top = stack.len() - 1;
            let (node, index) = stack[top];
            let ghost state = dfs_after(deps, steps);
            assert(stack@.last() == (node, index));
            let node_deps = &nodes[node].deps;
            assert(node_deps@ == deps[node as int]);
            if index < node_deps.len() {
                let dep = node_deps[index];
                assert(dep < n);
                let ghost old_stack = stack@;
                stack.set(top, (node, index + 1));
                assert(stack@.drop_last() =~= old_stack.drop_last());
                if color[dep] == Mark::Gray {
                    let mut p: usize = 0;
                    while p < chain.len() && chain[p] != dep
                        invariant
                            p <= chain@.len(),
                            forall|q: int| 0 <= q < p ==> chain@[q] != dep,
                            position_from(chain@, dep, 0) == position_from(chain@, dep, p as int),
                        decreases chain@.len() - p,
                    {
                        p = p + 1;
                    }
                    if p == chain.len() {
                        proof {
                            assert(chain@.contains(dep));
                        }
                        return None;
                    }
                    let mut cycle: Vec<NodeId> = Vec::new();
                    let mut q: usize = p;
                    while q < chain.len()
                        invariant
                            p <= q <= chain@.len(),
                            cycle@ == chain@.subrange(p as int, q as int),
                        decreases chain@.len() - q,
                    {
                        cycle.push(chain[q]);
                        q = q + 1;
                    }
                    cycle.push(dep);
                    proof {
                        assert(position_from(chain@, dep, p as int) == p);
                        assert(cycle@ == chain@.subrange(p as int, chain@.len() as int).push(dep));
                        steps = steps + 1;
                        assert(dfs_after(deps, steps) == Dfs::Found(cycle@));
                        let c = cycle@;
                        let m = chain@.len();
                        assert(c.len() == m - p + 1);
                        assert forall|i: int| 0 <= i < c.len() implies (#[trigger] c[i]) < deps.len() by {
                            if i < c.len() - 1 {
                                assert(c[i] == chain@[p + i]);
                                assert(stack@[p + i].0 == chain@[p + i]);
                            }
                        }
                        assert forall|i: int| 0 <= i < c.len() - 1 implies deps[#[trigger] c[i] as int].contains(
                            c[i + 1],
                        ) by {
                            let j = p + i;
                            assert(c[i] == chain@[j]);
                            assert(stack@[j].0 == chain@[j]);
                            if j < m - 1 {
                                assert(c[i + 1] == chain@[j + 1]);
                                assert(stack@[j + 1].0 == chain@[j + 1]);
                                assert(stack@[j] == old_stack[j]);
                                assert(deps[stack@[j].0 as int][stack@[j].1 - 1] == stack@[j + 1].0);
                            } else {
                                assert(c[i + 1] == dep);
                                assert(deps[node as int][index as int] == dep);
                            }
                        }
                    }
                    return Some(cycle);
                } else if color[dep] == Mark::White {
                    let ghost old_color = color@;
                    let ghost old_chain = chain@;
                    color.set(dep, Mark::Gray);
                    chain.push(dep);
                    stack.push((dep, 0));
                    proof {
                        steps = steps + 1;
                        assert(stack@ =~= old_stack.update(old_stack.len() - 1, (node, (index + 1) as usize)).push(
                            (dep, 0usize),
                        ));
                        lemma_count_marked_update(old_color, dep as int, Mark::Gray, Mark::White);
                        lemma_count_marked_update(old_color, dep as int, Mark::Gray, Mark::Black);
                        assert forall|v: int| 0 <= v < n && #[trigger] color@[v] == Mark::Gray implies chain@.contains(
                            v as NodeId,
                        ) by {
                            if v == dep {
                                assert(chain@[chain@.len() - 1] == dep);
                            } else {
                                assert(old_color[v] == Mark::Gray);
                                let i = choose|i: int| 0 <= i < old_chain.len() && old_chain[i] == v as NodeId;
                                assert(chain@[i] == v as NodeId);
                            }
                        }
                    }
                } else {
                    proof {
                        steps = steps + 1;
                        assert(stack@ =~= old_stack.update(old_stack.len() - 1, (node, (index + 1) as usize)));
                        assert(remaining(deps, stack@) < remaining(deps, old_stack));
                    }
                }
            } else {
                proof {
                    fin = fin.update(node as int, counter);
                    counter = counter + 1;
                }
                let ghost old_color = color@;
                let ghost old_chain = chain@;
                let ghost old_stack2 = stack@;
                color.set(node, Mark::Black);
                chain.pop();
                stack.pop();
                proof {
                    lemma_count_marked_update(old_color, node as int, Mark::Black, Mark::White);
                    lemma_count_marked_update(old_color, node as int, Mark::Black, Mark::Black);
                    lemma_count_marked_bound(color@, Mark::Black);
                    assert(chain@ =~= old_chain.drop_last());
                    assert(stack@ =~= old_stack2.drop_last());
                    steps = steps + 1;
                    assert forall|v: int| 0 <= v < n && #[trigger] color@[v] == Mark::Gray implies chain@.contains(
                        v as NodeId,
                    ) by {
                        assert(v != node);
                        assert(old_color[v] == Mark::Gray);
                        let i = choose|i: int| 0 <= i < old_chain.len() && old_chain[i] == v as NodeId;
                        assert(i != old_chain.len() - 1);
                        assert(chain@[i] == v as NodeId);
                    }
                }
            }
        }
        proof {
            assert(chain@ =~= Seq::<NodeId>::empty());
            assert(stack@ =~= Seq::<(NodeId, usize)>::empty());
            steps = steps + 1;
        }
        start = start + 1;
    }
    proof {
        steps = steps + 1;
        assert(dfs_after(deps, steps) == Dfs::Done);
        assert forall|v: int, k: int|
            0 <= v < deps.len() && 0 <= k < deps[v].len() implies fin[#[trigger] deps[v][k] as int] < fin[v] by {
            assert(color@[v] != Mark::White);
            assert(color@[v] != Mark::Gray);
            assert(color@[v] == Mark::Black);
        }
        assert(ranked(deps, fin));
    }
    None
}


/// A walk along consumer edges: each entry consumes the one before it.
pub open spec fn is_consumer_walk(consumers: Seq<Seq<NodeId>>, w: Seq<NodeId>) -> bool {
    &&& w.len() >= 1
    &&& forall|i: int| 0 <= i < w.len() ==> (#[trigger] w[i]) < consumers.len()
    &&& forall|i: int| 0 <= i < w.len() - 1 ==> consumers[#[trigger] w[i] as int].contains(w[i + 1])
}

/// `v` is reached from a seed by following consumer edges (zero or more).
pub open spec fn reached(consumers: Seq<Seq<NodeId>>, seeds: Seq<NodeId>, v: NodeId) -> bool {
    exists|w: Seq<NodeId>|
        #![trigger is_consumer_walk(consumers, w), w.last()]
        is_consumer_walk(consumers, w) && seeds.contains(w[0]) && w.last() == v
}

pub open spec fn consumers_in_range(consumers: Seq<Seq<NodeId>>) -> bool {
    forall|v: int, k: int|
        0 <= v < consumers.len() && 0 <= k < consumers[v].len() ==> #[trigger] consumers[v][k]
            < consumers.len()
}

/// All nodes transitively consumed by `seeds`, seeds included, ascending.
pub fn descendants_of(consumers: &Vec<Vec<NodeId>>, seeds: &[NodeId]) -> (r: Vec<NodeId>)
    requires
        consumers_in_range(consumers@.map_values(|c: Vec<NodeId>| c@)),
        forall|i: int| 0 <= i < seeds@.len() ==> (#[trigger] seeds@[i]) < consumers@.len(),
    ensures
        forall|i: int, j: int| 0 <= i < j < r@.len() ==> r@[i] < r@[j],
        forall|v: NodeId|
            #[trigger] r@.contains(v) <==> (v < consumers@.len() && reached(
                consumers@.map_values(|c: Vec<NodeId>| c@),
                seeds@,
                v,
            )),
{
    let ghost cons = consumers@.map_values(|c: Vec<NodeId>| c@);
    let n = consumers.len();
    let mut affected: Vec<bool> = Vec::new();
    let mut k: usize = 0;
    while k < n
        invariant
            k <= n == consumers@.len(),
            affected@.len() == k,
            forall|v: int| 0 <= v < k ==> !(#[trigger] affected@[v]),
        decreases n - k,
    {
        affected.push(false);
        k = k + 1;
    }
    let mut queue: Vec<NodeId> = Vec::new();
    let mut s: usize = 0;
    while s < seeds.len()
        invariant
            n == consumers@.len() == cons.len(),
            cons == consumers@.map_values(|c: Vec<NodeId>| c@),
            s <= seeds@.len(),
            forall|i: int| 0 <= i < seeds@.len() ==> (#[trigger] seeds@[i]) < n,
            affected@.len() == n,
            queue@ == seeds@.take(s as int),
            forall|v: int| 0 <= v < n ==> (#[trigger] affected@[v] <==> seeds@.take(s as int).contains(v as NodeId)),
        decreases seeds@.len() - s,
    {
        let seed = seeds[s];
        let ghost before = affected@;
        affected.set(seed, true);
        queue.push(seed);
        proof {
            assert(seeds@.take(s + 1) =~= seeds@.take(s as int).push(seed));
            assert forall|v: int| 0 <= v < n implies (#[trigger] affected@[v] <==> seeds@.take(s + 1).contains(
                v as NodeId,
            )) by {
                lemma_contains_push(seeds@.take(s as int), seed, v as NodeId);
            }
        }
        s = s + 1;
    }
    assert(seeds@.take(seeds@.len() as int) =~= seeds@);
    proof {
        assert forall|v: int| 0 <= v < n && #[trigger] affected@[v] implies reached(cons, seeds@, v as NodeId) by {
            let i = choose|i: int| 0 <= i < seeds@.len() && seeds@[i] == v as NodeId;
            let w = seq![v as NodeId];
            assert(is_consumer_walk(cons, w));
            assert(w.last() == v as NodeId);
        }
    }
    let ghost mut marked: nat = count_true(affected@);
    proof {
        lemma_count_true_bound(affected@);
    }
    while queue.len() > 0
        invariant
            n == consumers@.len() == cons.len(),
            cons == consumers@.map_values(|c: Vec<NodeId>| c@),
            consumers_in_range(cons),
            affected@.len() == n,
            forall|i: int| 0 <= i < queue@.len() ==> (#[trigger] queue@[i]) < n && affected@[queue@[i] as int],
            forall|v: int| 0 <= v < n && #[trigger] affected@[v] ==> reached(cons, seeds@, v as NodeId),
            forall|i: int| 0 <= i < seeds@.len() ==> (#[trigger] seeds@[i]) < n && affected@[seeds@[i] as int],
            forall|v: int, k: int|
                0 <= v < n && affected@[v] && !queue@.contains(v as NodeId) && 0 <= k < cons[v].len()
                    ==> affected@[#[trigger] cons[v][k] as int],
            marked == count_true(affected@),
            marked <= n,
        decreases n - marked, queue@.len(),
    {
        let ghost q0 = queue@;
        let u = queue.pop().unwrap();
        let ghost popped = queue@;
        let ghost marked_before = marked;
        proof {
            assert(popped =~= q0.drop_last());
            assert(q0.last() == u);
            assert forall|v: int, k: int|
                0 <= v < n && v != u && affected@[v] && !queue@.contains(v as NodeId) && 0 <= k < cons[v].len()
                    implies affected@[#[trigger] cons[v][k] as int] by {
                if q0.contains(v as NodeId) {
                    let i = choose|i: int| 0 <= i < q0.len() && q0[i] == v as NodeId;
                    if i < popped.len() {
                        assert(popped[i] == v as NodeId);
                    }
                }
            }
            assert(popped.is_prefix_of(queue@));
        }
        let list = &consumers[u];
        assert(list@ == cons[u as int]);
        let mut q: usize = 0;
        while q < list.len()
            invariant
                n == consumers@.len() == cons.len(),
                cons == consumers@.map_values(|c: Vec<NodeId>| c@),
                consumers_in_range(cons),
                u < n,
                affected@[u as int],
                list@ == cons[u as int],
                q <= list@.len(),
                affected@.len() == n,
                forall|i: int| 0 <= i < queue@.len() ==> (#[trigger] queue@[i]) < n && affected@[queue@[i] as int],
                forall|v: int| 0 <= v < n && #[trigger] affected@[v] ==> reached(cons, seeds@, v as NodeId),
                forall|i: int| 0 <= i < seeds@.len() ==> (#[trigger] seeds@[i]) < n && affected@[seeds@[i] as int],
                forall|j: int| 0 <= j < q ==> affected@[(#[trigger] list@[j]) as int],
                forall|v: int, k: int|
                    0 <= v < n && v != u && affected@[v] && !queue@.contains(v as NodeId) && 0 <= k < cons[v].len()
                        ==> affected@[#[trigger] cons[v][k] as int],
                popped.is_prefix_of(queue@),
                forall|i: int| popped.len() <= i < queue@.len() ==> (#[trigger] queue@[i]) != u,
                marked == count_true(affected@),
                marked <= n,
                marked_before <= marked,
                queue@.len() > popped.len() ==> marked_before < marked,
            decreases list@.len() - q,
        {
            let c = list[q];
            assert(c < n);
            if !affected[c] {
                let ghost before = affected@;
                proof {
                    lemma_count_true_set(affected@, c as int);
                    lemma_count_true_bound(affected@.update(c as int, true));
                    let w0 = choose|w: Seq<NodeId>|
                        #![trigger is_consumer_walk(cons, w), w.last()]
                        is_consumer_walk(cons, w) && seeds@.contains(w[0]) && w.last() == u;
                    let w = w0.push(c);
                    assert(w[w0.len() - 1] == u);
                    assert(cons[u as int].contains(c)) by {
                        assert(cons[u as int][q as int] == c);
                    }
                    assert(is_consumer_walk(cons, w));
                    assert(w.last() == c);
                    assert(reached(cons, seeds@, c));
                    marked = marked + 1;
                }
                let ghost qb = queue@;
                affected.set(c, true);
                queue.push(c);
                proof {
                    assert forall|v: int, k: int|
                        0 <= v < n && v != u && affected@[v] && !queue@.contains(v as NodeId) && 0 <= k
                            < cons[v].len() implies affected@[#[trigger] cons[v][k] as int] by {
                        lemma_contains_push(qb, c, v as NodeId);
                        assert(before[v]);
                    }
                    assert(popped.is_prefix_of(queue@)) by {
                        assert forall|i: int| 0 <= i < popped.len() implies popped[i] == queue@[i] by {
                            assert(qb[i] == popped[i]);
                        }
                    }
                }
            }
            q = q + 1;
        }
        proof {
            assert forall|v: int, k: int|
                0 <= v < n && affected@[v] && !queue@.contains(v as NodeId) && 0 <= k < cons[v].len()
                    implies affected@[#[trigger] cons[v][k] as int] by {
                if v == u {
                    assert(list@[k] == cons[v][k]);
                } else {
                    assert(!queue@.contains(v as NodeId));
                }
            }
        }
    }
    let mut out: Vec<NodeId> = Vec::new();
    let mut v: usize = 0;
    while v < n
        invariant
            v <= n == consumers@.len() == cons.len(),
            affected@.len() == n,
            forall|i: int, j: int| 0 <= i < j < out@.len() ==> out@[i] < out@[j],
            forall|i: int| 0 <= i < out@.len() ==> (#[trigger] out@[i]) < v,
            forall|x: NodeId| #[trigger] out@.contains(x) <==> (x < v && affected@[x as int]),
        decreases n - v,
    {
        if affected[v] {
            let ghost before = out@;
            out.push(v);
            proof {
                assert forall|x: NodeId| #[trigger] out@.contains(x) <==> (x < v + 1 && affected@[x as int]) by {
                    lemma_contains_push(before, v, x);
                }
            }
        } else {
            proof {
                assert forall|x: NodeId| #[trigger] out@.contains(x) <==> (x < v + 1 && affected@[x as int]) by {
                    if x == v {
                        if out@.contains(x) {
                            let i = choose|i: int| 0 <= i < out@.len() && out@[i] == x;
                        }
                    }
                }
            }
        }
        v = v + 1;
    }
    proof {
        assert forall|x: NodeId| #[trigger] out@.contains(x) <==> (x < n && reached(cons, seeds@, x)) by {
            if x < n && reached(cons, seeds@, x) {
                let w = choose|w: Seq<NodeId>|
                    #![trigger is_consumer_walk(cons, w), w.last()]
                    is_consumer_walk(cons, w) && seeds@.contains(w[0]) && w.last() == x;
                lemma_walk_affected(cons, seeds@, affected@, w, w.len() - 1);
            }
        }
    }
    out
}

proof fn lemma_walk_affected(
    cons: Seq<Seq<NodeId>>,
    seeds: Seq<NodeId>,
    affected: Seq<bool>,
    w: Seq<NodeId>,
    i: int,
)
    requires
        affected.len() == cons.len(),
        is_consumer_walk(cons, w),
        seeds.contains(w[0]),
        0 <= i < w.len(),
        forall|j: int| 0 <= j < seeds.len() ==> affected[(#[trigger] seeds[j]) as int],
        forall|v: int, k: int|
            0 <= v < cons.len() && affected[v] && 0 <= k < cons[v].len() ==> affected[#[trigger] cons[v][k] as int],
    ensures
        affected[w[i] as int],
    decreases i,
{
    if i > 0 {
        lemma_walk_affected(cons, seeds, affected, w, i - 1);
        assert(cons[w[i - 1] as int].contains(w[(i - 1) + 1]));
        let k = choose|k: int| 0 <= k < cons[w[i - 1] as int].len() && #[trigger] cons[w[i - 1] as int][k] == w[i];
    } else {
        let j = choose|j: int| 0 <= j < seeds.len() && seeds[j] == w[0];
    }
}

proof fn lemma_contains_push(s: Seq<NodeId>, x: NodeId, y: NodeId)
    ensures
        s.push(x).contains(y) <==> (s.contains(y) || x == y),
{
    if s.contains(y) {
        let i = choose|i: int| 0 <= i < s.len() && s[i] == y;
        assert(s.push(x)[i] == y);
    }
    if x == y {
        assert(s.push(x)[s.len() as int] == y);
    }
    if s.push(x).contains(y) {
        let i = choose|i: int| 0 <= i < s.push(x).len() && s.push(x)[i] == y;
        if i < s.len() {
            assert(s[i] == y);
        }
    }
}


proof fn lemma_consumer_list_bound(deps: Seq<Seq<NodeId>>, m: int, d: int)
    requires
        0 <= m <= deps.len() <= usize::MAX,
    ensures
        forall|k: int| 0 <= k < consumer_list(deps, m, d).len() ==> (#[trigger] consumer_list(deps, m, d)[k]) < m,
    decreases m,
{
    if m > 0 {
        lemma_consumer_list_bound(deps, m - 1, d);
        let a = consumer_list(deps, m - 1, d);
        let b = Seq::new(occurrences(deps[m - 1], d), |k: int| (m - 1) as NodeId);
        assert forall|k: int| 0 <= k < (a + b).len() implies (#[trigger] (a + b)[k]) < m by {
            if k < a.len() {
                assert((a + b)[k] == a[k]);
            } else {
                assert((a + b)[k] == b[k - a.len()]);
            }
        }
    }
}

/// Consumer lists name existing nodes.
pub proof fn lemma_consumers_in_range(deps: Seq<Seq<NodeId>>)
    requires
        deps.len() <= usize::MAX,
    ensures
        consumers_in_range(consumers_spec(deps)),
{
    assert forall|v: int, k: int|
        0 <= v < consumers_spec(deps).len() && 0 <= k < consumers_spec(deps)[v].len() implies #[trigger] consumers_spec(
        deps,
    )[v][k] < consumers_spec(deps).len() by {
        lemma_consumer_list_bound(deps, deps.len() as int, v);
    }
}

} // verus!
