//! The search compared with a scan of all nodes.

use super::gather::{gathered, lemma_tightening_loses_nothing, once_each};
use super::search::{
    ascending, front, lemma_offer, lemma_step_advances, queue_ok, rank, run, search, start, step,
    Hit, Metric, Search,
};
use super::{breadth_first, Node};
use crate::order::{at_most, total_order};
use vstd::prelude::*;

verus! {
/// The positions that a search in state `st` goes on to examine, in order.
pub open spec fn examined<C: Ord, D: Ord, V>(
    nodes: Seq<Node<C, V>>,
    query: [C; 2],
    k: usize,
    metric: Metric<C, D>,
    st: Search<D>,
) -> Seq<usize>
    decreases nodes.len() - front(st, nodes.len()),
{
    let next = step(nodes, query, k, metric, st);
    if st.queue.len() > 0 && 0 <= front(st, nodes.len()) < front(next, nodes.len())
        <= nodes.len() {
        seq![st.queue[0].1] + examined(nodes, query, k, metric, next)
    } else {
        Seq::empty()
    }
}

/// The positions that a whole search examines.
pub open spec fn visited<C: Ord, D: Ord, V>(
    nodes: Seq<Node<C, V>>,
    query: [C; 2],
    max_distance: D,
    k: usize,
    metric: Metric<C, D>,
) -> Seq<usize> {
    examined(nodes, query, k, metric, start(nodes, max_distance, k))
}

/// The list holds the node at position `at`.
pub open spec fn holds<D: Ord>(found: Seq<Hit<D>>, at: int) -> bool {
    exists|j: int| 0 <= j < found.len() && (#[trigger] found[j]).1 == at
}

/// A node at distance `d` has no claim to a place in the list: it is out
/// of range, or the list is full of nodes that are no farther.
pub open spec fn shut_out<D: Ord>(found: Seq<Hit<D>>, k: usize, max_distance: D, d: D) -> bool {
    !at_most(d, max_distance) || (found.len() == k && (k == 0 || at_most(found[k - 1].0, d)))
}

/// Every hit is a node of the tree within range, listed once, with its
/// true distance.
pub open spec fn hits_valid<C: Ord, D: Ord, V>(
    nodes: Seq<Node<C, V>>,
    query: [C; 2],
    max_distance: D,
    metric: Metric<C, D>,
    found: Seq<Hit<D>>,
) -> bool {
    &&& forall|j: int|
        0 <= j < found.len() ==> {
            &&& (#[trigger] found[j]).1 < nodes.len()
            &&& found[j].0 == metric(nodes[found[j].1 as int].location, query)
            &&& at_most(found[j].0, max_distance)
        }
    &&& forall|i: int, j: int|
        0 <= i < j < found.len() ==> (#[trigger] found[i]).1 != (#[trigger] found[j]).1
}

/// The list is an answer that a scan of all nodes could give: valid hits
/// in ascending order, at most `k`, and no node left out that has a claim.
/// Which of several equally distant nodes are listed, and in which order,
/// is left open.
pub open spec fn is_nearest<C: Ord, D: Ord, V>(
    nodes: Seq<Node<C, V>>,
    query: [C; 2],
    max_distance: D,
    k: usize,
    metric: Metric<C, D>,
    found: Seq<Hit<D>>,
) -> bool {
    &&& ascending(found)
    &&& found.len() <= k
    &&& hits_valid(nodes, query, max_distance, metric, found)
    &&& forall|i: int|
        0 <= i < nodes.len() && !holds(found, i) ==> shut_out(
            found,
            k,
            max_distance,
            metric(#[trigger] nodes[i].location, query),
        )
}

/// The nodes at the positions as hits: each with its distance from the
/// query.
pub open spec fn hits_of<C: Ord, D: Ord, V>(
    nodes: Seq<Node<C, V>>,
    query: [C; 2],
    metric: Metric<C, D>,
    positions: Seq<usize>,
) -> Seq<Hit<D>> {
    Seq::new(
        positions.len(),
        |i: int| (metric(nodes[positions[i] as int].location, query), positions[i]),
    )
}

/// A search that has gathered the nodes in `seen` ends with what is
/// gathered from them and the nodes it goes on to examine.
proof fn lemma_run_gathers<C: Ord, D: Ord, V>(
    nodes: Seq<Node<C, V>>,
    query: [C; 2],
    max_distance: D,
    k: usize,
    metric: Metric<C, D>,
    st: Search<D>,
    seen: Seq<usize>,
)
    requires
        k > 0,
        (st.found, st.bound) == gathered(hits_of(nodes, query, metric, seen), k, max_distance),
    ensures
        run(nodes, query, k, metric, st) == gathered(
            hits_of(nodes, query, metric, seen + examined(nodes, query, k, metric, st)),
            k,
            max_distance,
        ).0,
    decreases nodes.len() - front(st, nodes.len()),
{
    let next = step(nodes, query, k, metric, st);
    if st.queue.len() > 0 && 0 <= front(st, nodes.len()) < front(next, nodes.len())
        <= nodes.len() {
        let at = st.queue[0].1;
        let seen2 = seen.push(at);
        let hits2 = hits_of(nodes, query, metric, seen2);
        assert(hits2.drop_last() =~= hits_of(nodes, query, metric, seen));
        assert(hits2.last() == (metric(nodes[at as int].location, query), at));
        lemma_run_gathers(nodes, query, max_distance, k, metric, next, seen2);
        assert(seen2 + examined(nodes, query, k, metric, next) =~= seen + examined(
            nodes,
            query,
            k,
            metric,
            st,
        ));
    } else {
        assert(seen + examined(nodes, query, k, metric, st) =~= seen);
    }
}

/// The list of a search is what is gathered from the nodes it examines,
/// in the order in which it examines them.
pub proof fn lemma_search_gathers<C: Ord, D: Ord, V>(
    nodes: Seq<Node<C, V>>,
    query: [C; 2],
    max_distance: D,
    k: usize,
    metric: Metric<C, D>,
)
    requires
        total_order::<D>(),
    ensures
        search(nodes, query, max_distance, k, metric) == gathered(
            hits_of(nodes, query, metric, visited(nodes, query, max_distance, k, metric)),
            k,
            max_distance,
        ).0,
{
    let st = start(nodes, max_distance, k);
    let none = Seq::<usize>::empty();
    let seen = visited(nodes, query, max_distance, k, metric);
    if k > 0 {
        assert(hits_of(nodes, query, metric, none) =~= Seq::<Hit<D>>::empty());
        lemma_run_gathers(nodes, query, max_distance, k, metric, st, none);
        assert(none + examined(nodes, query, k, metric, st) =~= seen);
    } else {
        lemma_tightening_loses_nothing(hits_of(nodes, query, metric, seen), k, max_distance);
        assert(search(nodes, query, max_distance, k, metric) =~= Seq::<Hit<D>>::empty());
        assert(gathered(hits_of(nodes, query, metric, seen), k, max_distance).0 =~= Seq::<
            Hit<D>,
        >::empty());
    }
}

/// What a scan of all nodes in the order of the array gathers.
pub open spec fn scanned<C: Ord, D: Ord, V>(
    nodes: Seq<Node<C, V>>,
    query: [C; 2],
    max_distance: D,
    k: usize,
    metric: Metric<C, D>,
) -> Seq<Hit<D>> {
    gathered(
        hits_of(nodes, query, metric, Seq::new(nodes.len(), |i: int| i as usize)),
        k,
        max_distance,
    ).0
}

/// A scan of all nodes gives the nearest `k` within range: what the
/// search is held against.
pub proof fn lemma_scan_is_nearest<C: Ord, D: Ord, V>(
    nodes: Seq<Node<C, V>>,
    query: [C; 2],
    max_distance: D,
    k: usize,
    metric: Metric<C, D>,
)
    requires
        total_order::<D>(),
        nodes.len() <= usize::MAX,
    ensures
        is_nearest(
            nodes,
            query,
            max_distance,
            k,
            metric,
            scanned(nodes, query, max_distance, k, metric),
        ),
{
    let all = Seq::new(nodes.len(), |i: int| i as usize);
    let hits = hits_of(nodes, query, metric, all);
    let found = scanned(nodes, query, max_distance, k, metric);
    lemma_tightening_loses_nothing(hits, k, max_distance);
    assert(once_each(hits));
    assert forall|j: int| 0 <= j < found.len() implies {
        &&& (#[trigger] found[j]).1 < nodes.len()
        &&& found[j].0 == metric(nodes[found[j].1 as int].location, query)
        &&& at_most(found[j].0, max_distance)
    } by {
        assert(hits.contains(found[j]));
        let w = choose|w: int| 0 <= w < hits.len() && hits[w] == found[j];
        assert(hits[w] == (metric(nodes[w].location, query), w as usize));
    }
    assert forall|i: int| 0 <= i < nodes.len() && !holds(found, i) implies shut_out(
        found,
        k,
        max_distance,
        metric(#[trigger] nodes[i].location, query),
    ) by {
        assert(hits[i] == (metric(nodes[i].location, query), i as usize));
        if found.contains(hits[i]) {
            let j = choose|j: int| 0 <= j < found.len() && found[j] == hits[i];
            assert(found[j].1 == i);
        }
    }
}

/// What holds between two steps of a search that has examined `seen`.
pub open spec fn kept<C: Ord, D: Ord, V>(
    nodes: Seq<Node<C, V>>,
    query: [C; 2],
    max_distance: D,
    k: usize,
    metric: Metric<C, D>,
    st: Search<D>,
    seen: Seq<usize>,
) -> bool {
    &&& k > 0
    &&& queue_ok(nodes, st.queue)
    &&& ascending(st.found)
    &&& st.found.len() <= k
    &&& hits_valid(nodes, query, max_distance, metric, st.found)
    &&& at_most(st.bound, max_distance)
    &&& st.found.len() == k ==> st.bound == st.found[k - 1].0
    &&& st.found.len() < k ==> st.bound == max_distance
    &&& forall|i: int| 0 <= i < seen.len() ==> (#[trigger] seen[i]) < front(st, nodes.len())
    &&& forall|j: int| 0 <= j < st.found.len() ==> seen.contains((#[trigger] st.found[j]).1)
    &&& forall|i: int|
        0 <= i < seen.len() && !holds(st.found, seen[i] as int) ==> shut_out(
            st.found,
            k,
            max_distance,
            metric(nodes[#[trigger] seen[i] as int].location, query),
        )
}

/// A step of the search keeps `kept`, with the node it examined added to
/// `seen`.
pub proof fn lemma_step_keeps<C: Ord, D: Ord, V>(
    nodes: Seq<Node<C, V>>,
    query: [C; 2],
    max_distance: D,
    k: usize,
    metric: Metric<C, D>,
    st: Search<D>,
    seen: Seq<usize>,
)
    requires
        total_order::<D>(),
        breadth_first(nodes),
        kept(nodes, query, max_distance, k, metric, st, seen),
        st.queue.len() > 0,
    ensures
        kept(
            nodes,
            query,
            max_distance,
            k,
            metric,
            step(nodes, query, k, metric, st),
            seen.push(st.queue[0].1),
        ),
{
    let at = st.queue[0].1;
    let d = metric(nodes[at as int].location, query);
    let next = step(nodes, query, k, metric, st);
    let seen2 = seen.push(at);
    let old = st.found;
    let new = next.found;
    lemma_step_advances(nodes, query, k, metric, st);
    assert(forall|i: int| 0 <= i < seen.len() ==> seen2[i] == seen[i]);
    assert(seen2[seen.len() as int] == at);
    assert(!holds(old, at as int)) by {
        if holds(old, at as int) {
            let j = choose|j: int| 0 <= j < old.len() && (#[trigger] old[j]).1 == at;
            assert(seen.contains(old[j].1));
        }
    }
    if at_most(d, st.bound) {
        let r = rank(old, d);
        lemma_offer(old, k, (d, at));
        if r >= k {
            assert(new == old);
            assert(shut_out(new, k, max_distance, d));
        } else {
            let base = if old.len() == k {
                old.drop_last()
            } else {
                old
            };
            assert(new == base.insert(r, (d, at)));
            assert(new[r] == (d, at));
            assert(forall|j: int| 0 <= j < r ==> new[j] == old[j]);
            assert(forall|j: int| r < j < new.len() ==> new[j] == old[j - 1]);
            assert forall|i: int, j: int| 0 <= i < j < new.len() implies (#[trigger] new[i]).1 != (
            #[trigger] new[j]).1 by {
                let oi = if i < r {
                    i
                } else {
                    i - 1
                };
                let oj = if j < r {
                    j
                } else {
                    j - 1
                };
                if i == r {
                    assert(old[oj].1 != at) by {
                        assert(seen.contains(old[oj].1));
                    }
                } else if j == r {
                    assert(old[oi].1 != at) by {
                        assert(seen.contains(old[oi].1));
                    }
                } else {
                    assert(old[oi].1 != old[oj].1);
                }
            }
            assert forall|j: int| 0 <= j < new.len() implies seen2.contains(
                (#[trigger] new[j]).1,
            ) by {
                if j == r {
                    assert(seen2[seen.len() as int] == at);
                } else {
                    let oj = if j < r {
                        j
                    } else {
                        j - 1
                    };
                    assert(seen.contains(old[oj].1));
                    let w = choose|w: int| 0 <= w < seen.len() && seen[w] == old[oj].1;
                    assert(seen2[w] == old[oj].1);
                }
            }
            assert(holds(new, at as int));
            assert forall|i: int|
                0 <= i < seen.len() && !holds(new, seen[i] as int) implies shut_out(
                new,
                k,
                max_distance,
                metric(nodes[#[trigger] seen[i] as int].location, query),
            ) by {
                let x = seen[i];
                let dx = metric(nodes[x as int].location, query);
                if holds(old, x as int) {
                    let j = choose|j: int| 0 <= j < old.len() && (#[trigger] old[j]).1 == x;
                    if j < r {
                        assert(new[j].1 == x);
                    } else if j + 1 < new.len() {
                        assert(new[j + 1].1 == x);
                    } else {
                        assert(old.len() == k && j == k - 1);
                        assert(old[j].0 == dx);
                        assert(at_most(new[k - 1].0, dx)) by {
                            if r == k - 1 {
                                assert(new[k - 1].0 == d);
                                assert(!at_most(old[j].0, d));
                            } else {
                                assert(new[k - 1] == old[k - 2]);
                                assert(at_most(old[k - 2].0, old[k - 1].0));
                            }
                        }
                    }
                } else {
                    assert(shut_out(old, k, max_distance, dx));
                    if at_most(dx, max_distance) {
                        assert(old.len() == k);
                        assert(at_most(new[k - 1].0, old[k - 1].0)) by {
                            if r == k - 1 {
                                assert(new[k - 1].0 == d);
                                assert(!at_most(old[k - 1].0, d));
                            } else {
                                assert(new[k - 1] == old[k - 2]);
                                assert(at_most(old[k - 2].0, old[k - 1].0));
                            }
                        }
                    }
                }
            }
        }
    } else {
        assert(new == old);
        assert(shut_out(new, k, max_distance, d));
    }
    assert forall|i: int|
        0 <= i < seen2.len() && !holds(new, seen2[i] as int) implies shut_out(
        new,
        k,
        max_distance,
        metric(nodes[#[trigger] seen2[i] as int].location, query),
    ) by {
        if i < seen.len() {
            assert(seen2[i] == seen[i]);
            if new == old {
            }
        }
    }
    assert forall|j: int| 0 <= j < new.len() implies seen2.contains((#[trigger] new[j]).1) by {
        if new == old {
            assert(seen.contains(old[j].1));
            let w = choose|w: int| 0 <= w < seen.len() && seen[w] == old[j].1;
            assert(seen2[w] == old[j].1);
        }
    }
    assert forall|i: int| 0 <= i < seen2.len() implies (#[trigger] seen2[i]) < front(
        next,
        nodes.len(),
    ) by {
        if i < seen.len() {
            assert(seen2[i] == seen[i]);
        }
    }
}

/// What a search that is in state `st`, having examined `seen`, ends
/// with: a valid ascending list of at most `k` hits among the nodes
/// examined, which leaves out none of them that has a claim.
proof fn lemma_run_keeps<C: Ord, D: Ord, V>(
    nodes: Seq<Node<C, V>>,
    query: [C; 2],
    max_distance: D,
    k: usize,
    metric: Metric<C, D>,
    st: Search<D>,
    seen: Seq<usize>,
)
    requires
        total_order::<D>(),
        breadth_first(nodes),
        kept(nodes, query, max_distance, k, metric, st, seen),
    ensures
        ({
            let found = run(nodes, query, k, metric, st);
            let all = seen + examined(nodes, query, k, metric, st);
            &&& ascending(found)
            &&& found.len() <= k
            &&& hits_valid(nodes, query, max_distance, metric, found)
            &&& forall|j: int| 0 <= j < found.len() ==> all.contains((#[trigger] found[j]).1)
            &&& forall|i: int|
                0 <= i < all.len() && !holds(found, all[i] as int) ==> shut_out(
                    found,
                    k,
                    max_distance,
                    metric(nodes[#[trigger] all[i] as int].location, query),
                )
            &&& forall|i: int| 0 <= i < all.len() ==> (#[trigger] all[i]) < nodes.len()
        }),
    decreases nodes.len() - front(st, nodes.len()),
{
    if st.queue.len() > 0 {
        let next = step(nodes, query, k, metric, st);
        lemma_step_advances(nodes, query, k, metric, st);
        lemma_step_keeps(nodes, query, max_distance, k, metric, st, seen);
        let seen2 = seen.push(st.queue[0].1);
        lemma_run_keeps(nodes, query, max_distance, k, metric, next, seen2);
        assert(seen2 + examined(nodes, query, k, metric, next) =~= seen + examined(
            nodes,
            query,
            k,
            metric,
            st,
        ));
    } else {
        assert(seen + examined(nodes, query, k, metric, st) =~= seen);
    }
}

/// The search never drops a candidate for a worse one: its list is in
/// ascending order, holds at most `k` valid hits, all of them nodes that
/// it examined, and every examined node that is not in the list is out of
/// range or no nearer than the last of a full list. Shrinking the bound
/// loses nothing.
pub proof fn lemma_search_keeps_nearest<C: Ord, D: Ord, V>(
    nodes: Seq<Node<C, V>>,
    query: [C; 2],
    max_distance: D,
    k: usize,
    metric: Metric<C, D>,
)
    requires
        total_order::<D>(),
        breadth_first(nodes),
    ensures
        ({
            let found = search(nodes, query, max_distance, k, metric);
            let seen = visited(nodes, query, max_distance, k, metric);
            &&& ascending(found)
            &&& found.len() <= k
            &&& hits_valid(nodes, query, max_distance, metric, found)
            &&& forall|j: int| 0 <= j < found.len() ==> seen.contains((#[trigger] found[j]).1)
            &&& forall|i: int|
                0 <= i < seen.len() && !holds(found, seen[i] as int) ==> shut_out(
                    found,
                    k,
                    max_distance,
                    metric(nodes[#[trigger] seen[i] as int].location, query),
                )
            &&& forall|i: int| 0 <= i < seen.len() ==> (#[trigger] seen[i]) < nodes.len()
        }),
{
    let st = start(nodes, max_distance, k);
    let none = Seq::<usize>::empty();
    if k > 0 {
        if nodes.len() > 0 {
            assert(st.queue[0] == (0usize, 0usize));
        }
        assert(kept(nodes, query, max_distance, k, metric, st, none));
        lemma_run_keeps(nodes, query, max_distance, k, metric, st, none);
        assert(none + examined(nodes, query, k, metric, st) =~= examined(
            nodes,
            query,
            k,
            metric,
            st,
        ));
    }
}

/// The search gives an answer that a scan of all nodes could give exactly
/// when no node that it did not examine has a claim to a place in the
/// list. A node beyond the bound hides the subtree on its far side from
/// the search, so this can fail.
pub proof fn lemma_search_matches_scan<C: Ord, D: Ord, V>(
    nodes: Seq<Node<C, V>>,
    query: [C; 2],
    max_distance: D,
    k: usize,
    metric: Metric<C, D>,
)
    requires
        total_order::<D>(),
        breadth_first(nodes),
    ensures
        is_nearest(
            nodes,
            query,
            max_distance,
            k,
            metric,
            search(nodes, query, max_distance, k, metric),
        )
            <==> (forall|i: int|
            0 <= i < nodes.len() && !visited(nodes, query, max_distance, k, metric).contains(
                i as usize,
            ) ==> shut_out(
                search(nodes, query, max_distance, k, metric),
                k,
                max_distance,
                metric(#[trigger] nodes[i].location, query),
            )),
{
    let found = search(nodes, query, max_distance, k, metric);
    let seen = visited(nodes, query, max_distance, k, metric);
    lemma_search_keeps_nearest(nodes, query, max_distance, k, metric);
    let beyond = forall|i: int|
        0 <= i < nodes.len() && !seen.contains(i as usize) ==> shut_out(
            found,
            k,
            max_distance,
            metric(#[trigger] nodes[i].location, query),
        );
    if beyond {
        assert forall|i: int| 0 <= i < nodes.len() && !holds(found, i) implies shut_out(
            found,
            k,
            max_distance,
            metric(#[trigger] nodes[i].location, query),
        ) by {
            if seen.contains(i as usize) {
                let w = choose|w: int| 0 <= w < seen.len() && seen[w] == i as usize;
                assert(!holds(found, seen[w] as int));
            }
        }
    }
    if is_nearest(nodes, query, max_distance, k, metric, found) {
        assert forall|i: int| 0 <= i < nodes.len() && !seen.contains(i as usize) implies shut_out(
            found,
            k,
            max_distance,
            metric(#[trigger] nodes[i].location, query),
        ) by {
            if holds(found, i) {
                let j = choose|j: int| 0 <= j < found.len() && (#[trigger] found[j]).1 == i;
                assert(seen.contains(found[j].1));
            }
        }
    }
}

} // verus!
