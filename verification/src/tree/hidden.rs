//! When the search finds what a scan of all nodes finds.

use super::layout::{lemma_all_below_root, lemma_children};
use super::scan::{
    examined, is_nearest, kept, lemma_search_matches_scan, lemma_step_keeps, shut_out,
};
use super::search::{
    enqueue, front, lemma_offer, lemma_step_advances, run, search, start, step, Metric, Search,
    Waiting,
};
use super::{breadth_first, in_subtree, Node};
use crate::order::{at_most, before, total_order};
use vstd::prelude::*;

verus! {

/// The child of the node at `at` that lies across the splitting line
/// from the query; `-1` if there is none.
pub open spec fn far_child<C: Ord, V>(
    nodes: Seq<Node<C, V>>,
    query: [C; 2],
    axis: int,
    at: int,
) -> int {
    if before(query[axis], nodes[at].location[axis]) {
        nodes[at].greater()
    } else {
        nodes[at].lesser()
    }
}

/// In the subtree at `at`, whose root splits on `axis`, no node hides a
/// nearer one: whatever lies below the far child of a node is at least as
/// far from the query as that node.
pub open spec fn unhidden_from<C: Ord, D: Ord, V>(
    nodes: Seq<Node<C, V>>,
    query: [C; 2],
    metric: Metric<C, D>,
    at: int,
    axis: int,
) -> bool
    decreases nodes.len() - at,
{
    if at < 0 || at >= nodes.len() {
        true
    } else {
        let l = nodes[at].lesser();
        let g = nodes[at].greater();
        &&& forall|x: int| #[trigger]
            in_subtree(nodes, far_child(nodes, query, axis, at), x) ==> at_most(
                metric(nodes[at].location, query),
                metric(nodes[x].location, query),
            )
        &&& (at < l < nodes.len() ==> unhidden_from(nodes, query, metric, l, 1 - axis))
        &&& (at < g < nodes.len() ==> unhidden_from(nodes, query, metric, g, 1 - axis))
    }
}

/// No node of the tree hides a nearer one from the query.
pub open spec fn unhidden<C: Ord, D: Ord, V>(
    nodes: Seq<Node<C, V>>,
    query: [C; 2],
    metric: Metric<C, D>,
) -> bool {
    unhidden_from(nodes, query, metric, 0, 0)
}

/// Position `x` lies in the subtree of a node that waits in the queue.
pub open spec fn awaited<C, V>(nodes: Seq<Node<C, V>>, queue: Seq<Waiting>, x: int) -> bool {
    exists|j: int| 0 <= j < queue.len() && in_subtree(nodes, (#[trigger] queue[j]).1 as int, x)
}

/// What holds between two steps of a search in a tree where nothing is
/// hidden: every node has been examined, or will be, or lies beyond the
/// bound.
pub open spec fn covered<C: Ord, D: Ord, V>(
    nodes: Seq<Node<C, V>>,
    query: [C; 2],
    metric: Metric<C, D>,
    st: Search<D>,
    seen: Seq<usize>,
) -> bool {
    &&& forall|j: int|
        0 <= j < st.queue.len() ==> unhidden_from(
            nodes,
            query,
            metric,
            (#[trigger] st.queue[j]).1 as int,
            st.queue[j].0 as int,
        )
    &&& forall|x: int|
        0 <= x < nodes.len() ==> {
            ||| seen.contains(x as usize)
            ||| awaited(nodes, st.queue, x)
            ||| !at_most(metric(#[trigger] nodes[x].location, query), st.bound)
        }
}

/// A step of the search keeps `covered`, with the node it examined added
/// to `seen`.
proof fn lemma_step_covers<C: Ord, D: Ord, V>(
    nodes: Seq<Node<C, V>>,
    query: [C; 2],
    max_distance: D,
    k: usize,
    metric: Metric<C, D>,
    st: Search<D>,
    seen: Seq<usize>,
)
    requires
        total_order::<D>(),
        breadth_first(nodes),
        kept(nodes, query, max_distance, k, metric, st, seen),
        covered(nodes, query, metric, st, seen),
        st.queue.len() > 0,
    ensures
        covered(nodes, query, metric, step(nodes, query, k, metric, st), seen.push(st.queue[0].1)),
{
    let (axis, at) = st.queue[0];
    let node = nodes[at as int];
    let d = metric(node.location, query);
    let next = step(nodes, query, k, metric, st);
    let seen2 = seen.push(at);
    let rest = st.queue.skip(1);
    let l = node.lesser();
    let g = node.greater();
    lemma_step_keeps(nodes, query, max_distance, k, metric, st, seen);
    lemma_children(nodes, at as int);
    let within = at_most(d, st.bound);
    let near_lesser = before(query[axis as int], node.location[axis as int]);
    let take_lesser = within || near_lesser;
    let take_greater = within || !near_lesser;
    assert(next.queue == enqueue(rest, node, (1 - axis) as usize, take_lesser, take_greater));
    assert(at_most(next.bound, st.bound)) by {
        if within {
            lemma_offer(st.found, k, (d, at));
        }
    }
    assert(unhidden_from(nodes, query, metric, at as int, axis as int));
    assert forall|j: int| 0 <= j < next.queue.len() implies unhidden_from(
        nodes,
        query,
        metric,
        (#[trigger] next.queue[j]).1 as int,
        next.queue[j].0 as int,
    ) by {
        if j < rest.len() {
            assert(next.queue[j] == st.queue[j + 1]);
        }
    }
    assert forall|x: int| 0 <= x < nodes.len() implies {
        ||| seen2.contains(x as usize)
        ||| awaited(nodes, next.queue, x)
        ||| !at_most(metric(#[trigger] nodes[x].location, query), next.bound)
    } by {
        if seen.contains(x as usize) {
            let w = choose|w: int| 0 <= w < seen.len() && seen[w] == x as usize;
            assert(seen2[w] == x as usize);
        } else if awaited(nodes, st.queue, x) {
            let j = choose|j: int|
                0 <= j < st.queue.len() && in_subtree(nodes, (#[trigger] st.queue[j]).1 as int, x);
            if j > 0 {
                assert(next.queue[j - 1] == st.queue[j]);
                assert(in_subtree(nodes, next.queue[j - 1].1 as int, x));
            } else if x == at {
                assert(seen2[seen.len() as int] == at);
            } else {
                let below_lesser = at < l < nodes.len() && in_subtree(nodes, l, x);
                let below_greater = at < g < nodes.len() && in_subtree(nodes, g, x);
                assert(below_lesser || below_greater);
                if below_lesser && take_lesser {
                    let w = rest.len() as int;
                    assert(next.queue[w].1 == l);
                    assert(in_subtree(nodes, next.queue[w].1 as int, x));
                } else if below_greater && take_greater {
                    let w = next.queue.len() - 1;
                    assert(next.queue[w].1 == g);
                    assert(in_subtree(nodes, next.queue[w].1 as int, x));
                } else {
                    assert(!within);
                    if below_lesser {
                        assert(far_child(nodes, query, axis as int, at as int) == l);
                    } else {
                        assert(far_child(nodes, query, axis as int, at as int) == g);
                    }
                    assert(at_most(d, metric(nodes[x].location, query)));
                }
            }
        }
    }
}

/// In a tree where nothing is hidden, whatever a search leaves unexamined
/// has no claim to a place in its list.
proof fn lemma_run_covers<C: Ord, D: Ord, V>(
    nodes: Seq<Node<C, V>>,
    query: [C; 2],
    max_distance: D,
    k: usize,
    metric: Metric<C, D>,
    st: Search<D>,
    seen: Seq<usize>,
)
    requires
        total_order::<D>(),
        breadth_first(nodes),
        kept(nodes, query, max_distance, k, metric, st, seen),
        covered(nodes, query, metric, st, seen),
    ensures
        forall|x: int|
            0 <= x < nodes.len() ==> {
                ||| (seen + examined(nodes, query, k, metric, st)).contains(x as usize)
                ||| shut_out(
                    run(nodes, query, k, metric, st),
                    k,
                    max_distance,
                    metric(#[trigger] nodes[x].location, query),
                )
            },
    decreases nodes.len() - front(st, nodes.len()),
{
    if st.queue.len() > 0 {
        let next = step(nodes, query, k, metric, st);
        let seen2 = seen.push(st.queue[0].1);
        lemma_step_advances(nodes, query, k, metric, st);
        lemma_step_keeps(nodes, query, max_distance, k, metric, st, seen);
        lemma_step_covers(nodes, query, max_distance, k, metric, st, seen);
        lemma_run_covers(nodes, query, max_distance, k, metric, next, seen2);
        assert(seen2 + examined(nodes, query, k, metric, next) =~= seen + examined(
            nodes,
            query,
            k,
            metric,
            st,
        ));
    } else {
        assert(seen + examined(nodes, query, k, metric, st) =~= seen);
        assert forall|x: int| 0 <= x < nodes.len() implies {
            ||| seen.contains(x as usize)
            ||| shut_out(st.found, k, max_distance, metric(#[trigger] nodes[x].location, query))
        } by {
            assert(!awaited(nodes, st.queue, x));
        }
    }
}

/// In a tree where no node hides a nearer one from the query, the search
/// gives an answer that a scan of all nodes could give.
pub proof fn lemma_search_finds_nearest<C: Ord, D: Ord, V>(
    nodes: Seq<Node<C, V>>,
    query: [C; 2],
    max_distance: D,
    k: usize,
    metric: Metric<C, D>,
)
    requires
        total_order::<D>(),
        breadth_first(nodes),
        unhidden(nodes, query, metric),
    ensures
        is_nearest(
            nodes,
            query,
            max_distance,
            k,
            metric,
            search(nodes, query, max_distance, k, metric),
        ),
{
    let st = start(nodes, max_distance, k);
    let none = Seq::<usize>::empty();
    lemma_search_matches_scan(nodes, query, max_distance, k, metric);
    if k > 0 && nodes.len() > 0 {
        assert(st.queue[0] == (0usize, 0usize));
        assert(kept(nodes, query, max_distance, k, metric, st, none));
        assert forall|x: int| 0 <= x < nodes.len() implies awaited(nodes, st.queue, x) by {
            lemma_all_below_root(nodes, x);
            assert(in_subtree(nodes, st.queue[0].1 as int, x));
        }
        lemma_run_covers(nodes, query, max_distance, k, metric, st, none);
        assert(none + examined(nodes, query, k, metric, st) =~= examined(
            nodes,
            query,
            k,
            metric,
            st,
        ));
    }
}

} // verus!
