//! Incremental re-evaluation agrees with full evaluation. Node values are
//! computed in the graph's evaluation order, each from its dependencies'
//! values; when an edit changes how some nodes compute (the seeds), it is
//! enough to recompute the seeds' descendants, in evaluation order, keeping
//! every other value from the previous evaluation.
use vstd::prelude::*;
use crate::graph::Graph;
use crate::node::{Node, NodeId};
use crate::order::{
    acyclic, consumer_list, consumers_spec, deps_of, edges_in_range, is_consumer_walk, is_evaluation_order, is_next,
    lemma_consumer_occurrences, lemma_occurrences_of_entry, lemma_occurrences_positive, law_order_complete, law_order_dependencies_first, reached,
};

verus! {

/// The values of a node's dependencies, in dependency order.
pub open spec fn dep_values<V>(deps: Seq<Seq<NodeId>>, v: int, values: Seq<V>) -> Seq<V> {
    deps[v].map_values(|d: NodeId| values[d as int])
}

/// Evaluating the nodes of `order` in turn, from `init`.
pub open spec fn evaluate_along<V>(
    deps: Seq<Seq<NodeId>>,
    order: Seq<NodeId>,
    compute: spec_fn(int, Seq<V>) -> V,
    init: Seq<V>,
) -> Seq<V>
    decreases order.len(),
{
    if order.len() == 0 {
        init
    } else {
        let values = evaluate_along(deps, order.drop_last(), compute, init);
        let v = order.last() as int;
        values.update(v, compute(v, dep_values(deps, v, values)))
    }
}

/// Re-evaluating, in turn, only the nodes of `order` that are `affected`,
/// keeping the `previous` value of every other node.
pub open spec fn reevaluate_along<V>(
    deps: Seq<Seq<NodeId>>,
    order: Seq<NodeId>,
    compute: spec_fn(int, Seq<V>) -> V,
    previous: Seq<V>,
    affected: spec_fn(NodeId) -> bool,
) -> Seq<V>
    decreases order.len(),
{
    if order.len() == 0 {
        previous
    } else {
        let values = reevaluate_along(deps, order.drop_last(), compute, previous, affected);
        let v = order.last() as int;
        if affected(order.last()) {
            values.update(v, compute(v, dep_values(deps, v, values)))
        } else {
            values
        }
    }
}

/// What an evaluation order gives the proofs below: entries in range, each
/// once, each after its dependencies.
pub open spec fn deps_first(deps: Seq<Seq<NodeId>>, order: Seq<NodeId>) -> bool {
    &&& forall|k: int| 0 <= k < order.len() ==> (#[trigger] order[k]) < deps.len()
    &&& forall|i: int, j: int| 0 <= i < j < order.len() ==> order[i] != order[j]
    &&& forall|k: int, d: int|
        0 <= k < order.len() && 0 <= d < deps[order[k] as int].len() ==> order.take(k).contains(
            #[trigger] deps[order[k] as int][d],
        )
}

proof fn lemma_dep_values_same<V>(deps: Seq<Seq<NodeId>>, v: int, a: Seq<V>, b: Seq<V>)
    requires
        forall|d: int| 0 <= d < deps[v].len() ==> a[#[trigger] deps[v][d] as int] == b[deps[v][d] as int],
    ensures
        dep_values(deps, v, a) == dep_values(deps, v, b),
{
    assert(dep_values(deps, v, a) =~= dep_values(deps, v, b));
}

/// After the first `k` nodes of an order, each of them holds its computed
/// value and every other node its initial one.
proof fn lemma_evaluate_prefix<V>(
    deps: Seq<Seq<NodeId>>,
    order: Seq<NodeId>,
    compute: spec_fn(int, Seq<V>) -> V,
    init: Seq<V>,
    k: int,
)
    requires
        deps_first(deps, order),
        init.len() == deps.len(),
        0 <= k <= order.len(),
    ensures
        ({
            let values = evaluate_along(deps, order.take(k), compute, init);
            &&& values.len() == init.len()
            &&& forall|n: NodeId|
                n < deps.len() && order.take(k).contains(n) ==> #[trigger] values[n as int] == compute(
                    n as int,
                    dep_values(deps, n as int, values),
                )
            &&& forall|n: NodeId|
                n < deps.len() && !order.take(k).contains(n) ==> #[trigger] values[n as int] == init[n as int]
        }),
    decreases k,
{
    if k > 0 {
        lemma_evaluate_prefix(deps, order, compute, init, k - 1);
        let before = evaluate_along(deps, order.take(k - 1), compute, init);
        let x = order[k - 1];
        assert(order.take(k).drop_last() =~= order.take(k - 1));
        assert(order.take(k).last() == x);
        let values = evaluate_along(deps, order.take(k), compute, init);
        assert(values == before.update(x as int, compute(x as int, dep_values(deps, x as int, before))));
        assert(!order.take(k - 1).contains(x)) by {
            if order.take(k - 1).contains(x) {
                let i = choose|i: int| 0 <= i < k - 1 && #[trigger] order.take(k - 1)[i] == x;
                assert(order[i] == order[k - 1]);
            }
        }
        assert forall|d: int| 0 <= d < deps[x as int].len() implies values[#[trigger] deps[x as int][d] as int]
            == before[deps[x as int][d] as int] by {
            assert(order.take(k - 1).contains(deps[x as int][d]));
        }
        lemma_dep_values_same(deps, x as int, values, before);
        assert forall|n: NodeId|
            n < deps.len() && order.take(k).contains(n) implies #[trigger] values[n as int] == compute(
                n as int,
                dep_values(deps, n as int, values),
            ) by {
            if n != x {
                let j = choose|j: int| 0 <= j < k && #[trigger] order.take(k)[j] == n;
                assert(order.take(k)[j] == order[j]);
                assert(j != k - 1);
                assert(order.take(k - 1).contains(n)) by {
                    assert(order.take(k - 1)[j] == n);
                }
                assert forall|d: int| 0 <= d < deps[n as int].len() implies values[#[trigger] deps[n as int][d] as int]
                    == before[deps[n as int][d] as int] by {
                    assert(order.take(j).contains(deps[order[j] as int][d]));
                    let i = choose|i: int| 0 <= i < j && #[trigger] order.take(j)[i] == deps[n as int][d];
                    assert(order[i] == deps[n as int][d]);
                    assert(order[i] != order[k - 1]);
                }
                lemma_dep_values_same(deps, n as int, values, before);
            }
        }
        assert forall|n: NodeId|
            n < deps.len() && !order.take(k).contains(n) implies #[trigger] values[n as int] == init[n as int] by {
            assert(order.take(k)[k - 1] == x);
            assert(!order.take(k - 1).contains(n)) by {
                if order.take(k - 1).contains(n) {
                    let i = choose|i: int| 0 <= i < k - 1 && #[trigger] order.take(k - 1)[i] == n;
                    assert(order.take(k)[i] == n);
                }
            }
        }
    } else {
        assert(order.take(0) =~= Seq::<NodeId>::empty());
    }
}

/// After the first `k` nodes of an order, each affected one among them holds
/// its recomputed value and every other node its previous one.
proof fn lemma_reevaluate_prefix<V>(
    deps: Seq<Seq<NodeId>>,
    order: Seq<NodeId>,
    compute: spec_fn(int, Seq<V>) -> V,
    previous: Seq<V>,
    affected: spec_fn(NodeId) -> bool,
    k: int,
)
    requires
        deps_first(deps, order),
        previous.len() == deps.len(),
        0 <= k <= order.len(),
    ensures
        ({
            let values = reevaluate_along(deps, order.take(k), compute, previous, affected);
            &&& values.len() == previous.len()
            &&& forall|n: NodeId|
                n < deps.len() && order.take(k).contains(n) && affected(n) ==> #[trigger] values[n as int]
                    == compute(n as int, dep_values(deps, n as int, values))
            &&& forall|n: NodeId|
                n < deps.len() && !(order.take(k).contains(n) && affected(n)) ==> #[trigger] values[n as int]
                    == previous[n as int]
        }),
    decreases k,
{
    if k > 0 {
        lemma_reevaluate_prefix(deps, order, compute, previous, affected, k - 1);
        let before = reevaluate_along(deps, order.take(k - 1), compute, previous, affected);
        let x = order[k - 1];
        assert(order.take(k).drop_last() =~= order.take(k - 1));
        assert(order.take(k).last() == x);
        let values = reevaluate_along(deps, order.take(k), compute, previous, affected);
        assert(!order.take(k - 1).contains(x)) by {
            if order.take(k - 1).contains(x) {
                let i = choose|i: int| 0 <= i < k - 1 && #[trigger] order.take(k - 1)[i] == x;
                assert(order[i] == order[k - 1]);
            }
        }
        assert(order.take(k)[k - 1] == x);
        if affected(x) {
            assert(values == before.update(x as int, compute(x as int, dep_values(deps, x as int, before))));
            assert forall|d: int| 0 <= d < deps[x as int].len() implies values[#[trigger] deps[x as int][d] as int]
                == before[deps[x as int][d] as int] by {
                assert(order.take(k - 1).contains(deps[x as int][d]));
            }
            lemma_dep_values_same(deps, x as int, values, before);
        } else {
            assert(values == before);
        }
        assert forall|n: NodeId|
            n < deps.len() && order.take(k).contains(n) && affected(n) implies #[trigger] values[n as int]
                == compute(n as int, dep_values(deps, n as int, values)) by {
            if n != x {
                let j = choose|j: int| 0 <= j < k && #[trigger] order.take(k)[j] == n;
                assert(order.take(k)[j] == order[j]);
                assert(j != k - 1);
                assert(order.take(k - 1).contains(n)) by {
                    assert(order.take(k - 1)[j] == n);
                }
                assert forall|d: int| 0 <= d < deps[n as int].len() implies values[#[trigger] deps[n as int][d] as int]
                    == before[deps[n as int][d] as int] by {
                    assert(order.take(j).contains(deps[order[j] as int][d]));
                    let i = choose|i: int| 0 <= i < j && #[trigger] order.take(j)[i] == deps[n as int][d];
                    assert(order[i] == deps[n as int][d]);
                    assert(order[i] != order[k - 1]);
                }
                lemma_dep_values_same(deps, n as int, values, before);
            }
        }
        assert forall|n: NodeId|
            n < deps.len() && !(order.take(k).contains(n) && affected(n)) implies #[trigger] values[n as int]
                == previous[n as int] by {
            if n != x {
                assert(!(order.take(k - 1).contains(n) && affected(n))) by {
                    if order.take(k - 1).contains(n) {
                        let i = choose|i: int| 0 <= i < k - 1 && #[trigger] order.take(k - 1)[i] == n;
                        assert(order.take(k)[i] == n);
                    }
                }
            }
        }
    } else {
        assert(order.take(0) =~= Seq::<NodeId>::empty());
    }
}

/// A node that consumes a reached node is reached too.
proof fn lemma_reached_consumer(deps: Seq<Seq<NodeId>>, seeds: Seq<NodeId>, n: NodeId, d: int)
    requires
        deps.len() <= usize::MAX,
        edges_in_range(deps),
        n < deps.len(),
        0 <= d < deps[n as int].len(),
        reached(consumers_spec(deps), seeds, deps[n as int][d]),
    ensures
        reached(consumers_spec(deps), seeds, n),
{
    let cons = consumers_spec(deps);
    let u = deps[n as int][d];
    let w = choose|w: Seq<NodeId>|
        #![trigger is_consumer_walk(cons, w), w.last()]
        is_consumer_walk(cons, w) && seeds.contains(w[0]) && w.last() == u;
    lemma_occurrences_of_entry(deps[n as int], d);
    lemma_consumer_occurrences(deps, deps.len() as int, u as int, n as int);
    lemma_occurrences_positive(consumer_list(deps, deps.len() as int, u as int), n as int);
    let w2 = w.push(n);
    assert(w2[w2.len() - 2] == u);
    assert(is_consumer_walk(cons, w2)) by {
        assert forall|i: int| 0 <= i < w2.len() - 1 implies cons[#[trigger] w2[i] as int].contains(w2[i + 1]) by {
            if i < w.len() - 1 {
                assert(w2[i] == w[i] && w2[i + 1] == w[i + 1]);
            }
        }
    }
    assert(w2[0] == w[0]);
    assert(w2.last() == n);
    assert(is_consumer_walk(cons, w2) && seeds.contains(w2[0]) && w2.last() == n);
}

/// A seed in range is reached by the walk that stays on it.
proof fn lemma_seed_reached(deps: Seq<Seq<NodeId>>, seeds: Seq<NodeId>, n: NodeId)
    requires
        n < deps.len(),
        seeds.contains(n),
    ensures
        reached(consumers_spec(deps), seeds, n),
{
    let w = seq![n];
    assert(is_consumer_walk(consumers_spec(deps), w));
    assert(w.last() == n);
}

/// Position by position, the incremental values agree with the full ones.
proof fn lemma_agree_upto<V>(
    deps: Seq<Seq<NodeId>>,
    order: Seq<NodeId>,
    compute: spec_fn(int, Seq<V>) -> V,
    old_compute: spec_fn(int, Seq<V>) -> V,
    previous: Seq<V>,
    full: Seq<V>,
    incremental: Seq<V>,
    affected: spec_fn(NodeId) -> bool,
    i: int,
)
    requires
        deps_first(deps, order),
        0 <= i <= order.len(),
        forall|k: int|
            0 <= k < order.len() ==> previous[#[trigger] order[k] as int] == old_compute(
                order[k] as int,
                dep_values(deps, order[k] as int, previous),
            ),
        forall|k: int|
            0 <= k < order.len() ==> full[#[trigger] order[k] as int] == compute(
                order[k] as int,
                dep_values(deps, order[k] as int, full),
            ),
        forall|k: int|
            0 <= k < order.len() && affected(#[trigger] order[k]) ==> incremental[order[k] as int] == compute(
                order[k] as int,
                dep_values(deps, order[k] as int, incremental),
            ),
        forall|k: int|
            0 <= k < order.len() && !affected(#[trigger] order[k]) ==> incremental[order[k] as int]
                == previous[order[k] as int],
        forall|k: int, xs: Seq<V>|
            0 <= k < order.len() && !affected(order[k]) ==> #[trigger] compute(order[k] as int, xs)
                == old_compute(order[k] as int, xs),
        forall|k: int, d: int|
            0 <= k < order.len() && 0 <= d < deps[order[k] as int].len() && affected(
                #[trigger] deps[order[k] as int][d],
            ) ==> affected(order[k]),
    ensures
        forall|j: int| 0 <= j < i ==> incremental[#[trigger] order[j] as int] == full[order[j] as int],
    decreases i,
{
    if i > 0 {
        lemma_agree_upto(deps, order, compute, old_compute, previous, full, incremental, affected, i - 1);
        let n = order[i - 1];
        let v = n as int;
        assert forall|d: int| 0 <= d < deps[v].len() implies incremental[#[trigger] deps[v][d] as int]
            == full[deps[v][d] as int] by {
            assert(order.take(i - 1).contains(deps[v][d]));
            let j = choose|j: int| 0 <= j < i - 1 && #[trigger] order.take(i - 1)[j] == deps[v][d];
            assert(order[j] == deps[v][d]);
        }
        lemma_dep_values_same(deps, v, incremental, full);
        if !affected(n) {
            assert forall|d: int| 0 <= d < deps[v].len() implies previous[#[trigger] deps[v][d] as int]
                == full[deps[v][d] as int] by {
                assert(order.take(i - 1).contains(deps[v][d]));
                let j = choose|j: int| 0 <= j < i - 1 && #[trigger] order.take(i - 1)[j] == deps[v][d];
                assert(order[j] == deps[v][d]);
                assert(!affected(deps[order[i - 1] as int][d]));
            }
            lemma_dep_values_same(deps, v, previous, full);
        }
    }
}

/// Incremental re-evaluation equals full evaluation: after an edit that
/// changes how the seed nodes compute and nothing else, recomputing, in
/// evaluation order, only the nodes reached from the seeds along consumer
/// edges, and keeping every other node's previous value, gives exactly the
/// values that evaluating every node afresh gives.
pub proof fn law_incremental_matches_full<V>(
    nodes: Seq<Node>,
    order: Seq<NodeId>,
    seeds: Seq<NodeId>,
    compute: spec_fn(int, Seq<V>) -> V,
    old_compute: spec_fn(int, Seq<V>) -> V,
    init: Seq<V>,
)
    requires
        nodes.len() <= usize::MAX,
        is_evaluation_order(nodes, order),
        edges_in_range(deps_of(nodes)),
        acyclic(deps_of(nodes)),
        init.len() == nodes.len(),
        forall|n: NodeId, xs: Seq<V>|
            n < nodes.len() && !seeds.contains(n) ==> #[trigger] compute(n as int, xs) == old_compute(
                n as int,
                xs,
            ),
    ensures
        reevaluate_along(
            deps_of(nodes),
            order,
            compute,
            evaluate_along(deps_of(nodes), order, old_compute, init),
            |n: NodeId| reached(consumers_spec(deps_of(nodes)), seeds, n),
        ) == evaluate_along(deps_of(nodes), order, compute, init),
{
    let deps = deps_of(nodes);
    let affected = |n: NodeId| reached(consumers_spec(deps), seeds, n);
    law_order_dependencies_first(nodes, order);
    law_order_complete(nodes, order);
    assert forall|k: int| 0 <= k < order.len() implies (#[trigger] order[k]) < deps.len() by {
        assert(is_next(nodes, order.take(k), order[k] as int));
    }
    assert(deps_first(deps, order));
    let previous = evaluate_along(deps, order, old_compute, init);
    let full = evaluate_along(deps, order, compute, init);
    let incremental = reevaluate_along(deps, order, compute, previous, affected);
    assert(order.take(order.len() as int) =~= order);
    lemma_evaluate_prefix(deps, order, old_compute, init, order.len() as int);
    lemma_evaluate_prefix(deps, order, compute, init, order.len() as int);
    lemma_reevaluate_prefix(deps, order, compute, previous, affected, order.len() as int);
    assert forall|k: int| 0 <= k < order.len() implies order.contains(#[trigger] order[k]) by {}
    assert forall|k: int, xs: Seq<V>|
        0 <= k < order.len() && !affected(order[k]) implies #[trigger] compute(order[k] as int, xs)
            == old_compute(order[k] as int, xs) by {
        if seeds.contains(order[k]) {
            lemma_seed_reached(deps, seeds, order[k]);
        }
        assert(compute(order[k] as int, xs) == old_compute(order[k] as int, xs));
    }
    assert forall|k: int, d: int|
        0 <= k < order.len() && 0 <= d < deps[order[k] as int].len() && affected(
            #[trigger] deps[order[k] as int][d],
        ) implies affected(order[k]) by {
        lemma_reached_consumer(deps, seeds, order[k], d);
    }
    lemma_agree_upto(deps, order, compute, old_compute, previous, full, incremental, affected, order.len() as int);
    assert forall|v: int| 0 <= v < incremental.len() implies incremental[v] == full[v] by {
        let n = v as NodeId;
        assert(order.contains(n));
        let k = choose|k: int| 0 <= k < order.len() && order[k] == n;
        assert(incremental[order[k] as int] == full[order[k] as int]);
    }
    assert(incremental =~= full);
}

/// The same law for a built graph: re-evaluating the nodes reached from an
/// edit's seeds, in the graph's evaluation order, over the graph's previous
/// values gives the values of a full evaluation.
pub proof fn law_graph_incremental_matches_full<V>(
    graph: Graph,
    seeds: Seq<NodeId>,
    compute: spec_fn(int, Seq<V>) -> V,
    old_compute: spec_fn(int, Seq<V>) -> V,
    init: Seq<V>,
)
    requires
        graph.wf(),
        init.len() == graph.nodes@.len(),
        forall|n: NodeId, xs: Seq<V>|
            n < graph.nodes@.len() && !seeds.contains(n) ==> #[trigger] compute(n as int, xs) == old_compute(
                n as int,
                xs,
            ),
    ensures
        reevaluate_along(
            deps_of(graph.nodes@),
            graph.order@,
            compute,
            evaluate_along(deps_of(graph.nodes@), graph.order@, old_compute, init),
            |n: NodeId| reached(consumers_spec(deps_of(graph.nodes@)), seeds, n),
        ) == evaluate_along(deps_of(graph.nodes@), graph.order@, compute, init),
{
    graph.lemma_wf_facts();
    assert(graph.nodes@.len() == graph.nodes.len());
    law_incremental_matches_full(graph.nodes@, graph.order@, seeds, compute, old_compute, init);
}

} // verus!
