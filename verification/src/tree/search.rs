//! Nearest-neighbour search.

use super::layout::lemma_links_before_grows;
use super::{breadth_first, links_before, placed, EMPTY, Node, Tree2D};
use crate::order::{at_most, before, comparable, is_at_most, is_before, lemma_either, total_order};
use std::collections::VecDeque;
use vstd::prelude::*;

verus! {
/// A node that the search has kept: its distance from the query and its
/// position in the array.
pub type Hit<D> = (D, usize);

/// A node waiting to be examined: the axis it splits on and its position.
pub type Waiting = (usize, usize);

/// A distance function as a mathematical function.
pub type Metric<C, D> = spec_fn([C; 2], [C; 2]) -> D;

/// The state of a search between two nodes.
pub struct Search<D> {
    /// The nodes still to be examined, in the order in which they will be.
    pub queue: Seq<Waiting>,
    /// The nearest nodes found so far, nearest first.
    pub found: Seq<Hit<D>>,
    /// Nothing farther than this is of interest any more.
    pub bound: D,
}

/// The function that `f` computes, if it computes one.
pub open spec fn metric_of<C, D, F: Fn(&[C; 2], &[C; 2]) -> D>(f: F) -> Metric<C, D> {
    |a: [C; 2], b: [C; 2]| choose|d: D| call_ensures(f, (&a, &b), d)
}

/// `f` can be called on every pair of locations and returns the same
/// distance whenever it is given the same pair.
pub open spec fn is_metric<C, D, F: Fn(&[C; 2], &[C; 2]) -> D>(f: F) -> bool {
    &&& forall|a: &[C; 2], b: &[C; 2]| call_requires(f, (a, b))
    &&& forall|a: &[C; 2], b: &[C; 2], d1: D, d2: D|
        call_ensures(f, (a, b), d1) && call_ensures(f, (a, b), d2) ==> d1 == d2
}

/// The hits are in ascending order of distance.
pub open spec fn ascending<D: Ord>(found: Seq<Hit<D>>) -> bool {
    forall|i: int, j: int| 0 <= i <= j < found.len() ==> at_most(found[i].0, found[j].0)
}

/// How many hits are no farther than `d`. In an ascending list this is
/// where a new hit of distance `d` goes: behind its equals.
pub open spec fn rank<D: Ord>(found: Seq<Hit<D>>, d: D) -> int
    decreases found.len(),
{
    if found.len() == 0 {
        0
    } else {
        rank(found.drop_last(), d) + if at_most(found.last().0, d) {
            1int
        } else {
            0int
        }
    }
}

/// The list with one more candidate taken into account: it is put at its
/// rank, and only the nearest `k` are kept.
pub open spec fn offer<D: Ord>(found: Seq<Hit<D>>, k: usize, hit: Hit<D>) -> Seq<Hit<D>> {
    let longer = found.insert(rank(found, hit.0), hit);
    if longer.len() > k {
        longer.take(k as int)
    } else {
        longer
    }
}

/// The queue with those of the node's children added that are named by
/// `lesser` and `greater` and exist.
pub open spec fn enqueue<C, V>(
    queue: Seq<Waiting>,
    node: Node<C, V>,
    axis: usize,
    lesser: bool,
    greater: bool,
) -> Seq<Waiting> {
    let with_lesser = if lesser && node.lesser_index != EMPTY {
        queue.push((axis, (node.lesser_index - 1) as usize))
    } else {
        queue
    };
    if greater && node.greater_index != EMPTY {
        with_lesser.push((axis, (node.greater_index - 1) as usize))
    } else {
        with_lesser
    }
}

/// Examines the node at the front of the queue.
///
/// A node within the bound is offered to the list, and both its children
/// are queued; once the list is full the bound shrinks to its last
/// distance. Of a node beyond the bound only the child on the query's side
/// is queued.
pub open spec fn step<C: Ord, D: Ord, V>(
    nodes: Seq<Node<C, V>>,
    query: [C; 2],
    k: usize,
    metric: Metric<C, D>,
    st: Search<D>,
) -> Search<D> {
    let (axis, at) = st.queue[0];
    let node = nodes[at as int];
    let d = metric(node.location, query);
    let rest = st.queue.skip(1);
    let next_axis = (1 - axis) as usize;
    if at_most(d, st.bound) {
        let found = offer(st.found, k, (d, at));
        Search {
            queue: enqueue(rest, node, next_axis, true, true),
            found,
            bound: if found.len() == k {
                found[k - 1].0
            } else {
                st.bound
            },
        }
    } else if before(query[axis as int], node.location[axis as int]) {
        Search { queue: enqueue(rest, node, next_axis, true, false), ..st }
    } else {
        Search { queue: enqueue(rest, node, next_axis, false, true), ..st }
    }
}

/// The position at the front of the queue; the number of nodes if the
/// queue is empty.
pub open spec fn front<D: Ord>(st: Search<D>, n: nat) -> int {
    if st.queue.len() == 0 {
        n as int
    } else {
        st.queue[0].1 as int
    }
}

/// The list at the end of a search that is in state `st`.
///
/// The search ends when the queue is empty. (It would also end if a step
/// did not move forward in the array; in a tree laid out breadth-first
/// every step does.)
pub open spec fn run<C: Ord, D: Ord, V>(
    nodes: Seq<Node<C, V>>,
    query: [C; 2],
    k: usize,
    metric: Metric<C, D>,
    st: Search<D>,
) -> Seq<Hit<D>>
    decreases nodes.len() - front(st, nodes.len()),
{
    let next = step(nodes, query, k, metric, st);
    if st.queue.len() > 0 && 0 <= front(st, nodes.len()) < front(next, nodes.len())
        <= nodes.len() {
        run(nodes, query, k, metric, next)
    } else {
        st.found
    }
}

/// The state in which a search begins.
pub open spec fn start<C, D, V>(nodes: Seq<Node<C, V>>, max_distance: D, k: usize) -> Search<D> {
    Search {
        queue: if nodes.len() > 0 && k > 0 {
            seq![(0usize, 0usize)]
        } else {
            Seq::empty()
        },
        found: Seq::empty(),
        bound: max_distance,
    }
}

/// What a search of `nodes` returns: up to `k` nodes within `max_distance`
/// of `query`, nearest first.
pub open spec fn search<C: Ord, D: Ord, V>(
    nodes: Seq<Node<C, V>>,
    query: [C; 2],
    max_distance: D,
    k: usize,
    metric: Metric<C, D>,
) -> Seq<Hit<D>> {
    run(nodes, query, k, metric, start(nodes, max_distance, k))
}

/// The hits as the search hands them out: distance, location, value.
pub open spec fn shown<'a, C, D, V>(nodes: Seq<Node<C, V>>, found: Seq<Hit<D>>) -> Seq<
    (D, &'a [C; 2], &'a V),
> {
    Seq::new(
        found.len(),
        |j: int| (found[j].0, &nodes[found[j].1 as int].location, &nodes[found[j].1 as int].value),
    )
}

/// The queue holds positions of the array in increasing order, none of
/// them behind what the node at the front has handed out.
pub open spec fn queue_ok<C, V>(nodes: Seq<Node<C, V>>, queue: Seq<Waiting>) -> bool {
    &&& forall|j: int|
        0 <= j < queue.len() ==> (#[trigger] queue[j]).0 < 2 && queue[j].1 < nodes.len()
    &&& forall|i: int, j: int| 0 <= i < j < queue.len() ==> queue[i].1 < queue[j].1
    &&& queue.len() > 0 ==> queue.last().1 <= links_before(nodes, queue[0].1 as int)
}

/// In a tree laid out breadth-first a step keeps the queue in order and
/// moves its front forward.
pub proof fn lemma_step_advances<C: Ord, D: Ord, V>(
    nodes: Seq<Node<C, V>>,
    query: [C; 2],
    k: usize,
    metric: Metric<C, D>,
    st: Search<D>,
)
    requires
        breadth_first(nodes),
        queue_ok(nodes, st.queue),
        st.queue.len() > 0,
    ensures
        queue_ok(nodes, step(nodes, query, k, metric, st).queue),
        0 <= front(st, nodes.len()) < front(step(nodes, query, k, metric, st), nodes.len())
            <= nodes.len(),
{
    let (axis, at) = st.queue[0];
    let f = at as int;
    let n = nodes.len() as int;
    let node = nodes[f];
    let rest = st.queue.skip(1);
    let next = step(nodes, query, k, metric, st).queue;
    assert(placed(nodes, f));
    lemma_links_before_grows(nodes, f + 1, n);
    assert(links_before(nodes, f + 1) == links_before(nodes, f) + node.links());
    assert(forall|j: int| 0 <= j < rest.len() ==> rest[j] == st.queue[j + 1]);
    assert(st.queue.last().1 <= links_before(nodes, f));
    assert forall|j: int| 0 <= j < rest.len() implies f < (#[trigger] rest[j]).1 <= links_before(
        nodes,
        f,
    ) by {
        assert(st.queue[0].1 < st.queue[j + 1].1);
        if j + 1 < st.queue.len() - 1 {
            assert(st.queue[j + 1].1 < st.queue[st.queue.len() - 1].1);
        }
    }
    assert forall|j: int| 0 <= j < next.len() implies (#[trigger] next[j]).0 < 2 && f < next[j].1
        <= links_before(nodes, f + 1) && next[j].1 < n by {
        if j < rest.len() {
            assert(next[j] == rest[j]);
        }
    }
    assert forall|i: int, j: int| 0 <= i < j < next.len() implies next[i].1 < next[j].1 by {
        if j < rest.len() {
            assert(next[i] == rest[i] && next[j] == rest[j]);
            assert(st.queue[i + 1].1 < st.queue[j + 1].1);
        } else if i < rest.len() {
            assert(next[i] == rest[i]);
        }
    }
    if next.len() > 0 {
        let f2 = next[0].1 as int;
        lemma_links_before_grows(nodes, f + 1, f2);
        assert(next.last().1 <= links_before(nodes, f + 1));
    }
}

/// In an ascending list the rank of `d` is the one position with nothing
/// farther than `d` before it and nothing else from it on.
pub proof fn lemma_rank_is_boundary<D: Ord>(found: Seq<Hit<D>>, d: D, at: int)
    requires
        0 <= at <= found.len(),
        forall|j: int| 0 <= j < at ==> at_most((#[trigger] found[j]).0, d),
        forall|j: int| at <= j < found.len() ==> !at_most((#[trigger] found[j]).0, d),
    ensures
        rank(found, d) == at,
    decreases found.len(),
{
    if found.len() > 0 {
        let shorter = found.drop_last();
        if at == found.len() {
            lemma_rank_is_boundary(shorter, d, at - 1);
        } else {
            lemma_rank_is_boundary(shorter, d, at);
        }
    }
}

/// The rank of `d` in the list, found by bisection.
fn rank_of<C, D: Ord + Copy, V>(
    neighbours: &Vec<(D, &[C; 2], &V)>,
    d: D,
    Ghost(found): Ghost<Seq<Hit<D>>>,
) -> (at: usize)
    requires
        total_order::<D>(),
        ascending(found),
        neighbours@.len() == found.len(),
        forall|j: int| 0 <= j < found.len() ==> (#[trigger] neighbours@[j]).0 == found[j].0,
    ensures
        at == rank(found, d),
        at <= found.len(),
{
    let mut lo: usize = 0;
    let mut hi: usize = neighbours.len();
    while lo < hi
        invariant
            lo <= hi <= found.len(),
            total_order::<D>(),
            ascending(found),
            neighbours@.len() == found.len(),
            forall|j: int| 0 <= j < found.len() ==> (#[trigger] neighbours@[j]).0 == found[j].0,
            forall|j: int| 0 <= j < lo ==> at_most((#[trigger] found[j]).0, d),
            forall|j: int| hi <= j < found.len() ==> !at_most((#[trigger] found[j]).0, d),
        decreases hi - lo,
    {
        let mid = lo + (hi - lo) / 2;
        if is_at_most(&neighbours[mid].0, &d) {
            proof {
                assert forall|j: int| 0 <= j < mid + 1 implies at_most(
                    (#[trigger] found[j]).0,
                    d,
                ) by {
                    assert(at_most(found[j].0, found[mid as int].0));
                }
            }
            lo = mid + 1;
        } else {
            proof {
                assert forall|j: int| mid <= j < found.len() implies !at_most(
                    (#[trigger] found[j]).0,
                    d,
                ) by {
                    assert(at_most(found[mid as int].0, found[j].0));
                }
            }
            hi = mid;
        }
    }
    proof {
        lemma_rank_is_boundary(found, d, lo as int);
    }
    lo
}

/// Offering a hit keeps the list ascending and no longer than `k`, and
/// changes it as the search does: unless the new hit ranks behind `k`
/// others, the last of a full list leaves and the new hit goes to its rank.
pub proof fn lemma_offer<D: Ord>(found: Seq<Hit<D>>, k: usize, hit: Hit<D>)
    requires
        total_order::<D>(),
        ascending(found),
        found.len() <= k,
    ensures
        ascending(offer(found, k, hit)),
        offer(found, k, hit).len() <= k,
        rank(found, hit.0) >= k ==> offer(found, k, hit) == found,
        rank(found, hit.0) < k && found.len() == k ==> offer(found, k, hit)
            == found.drop_last().insert(rank(found, hit.0), hit),
        rank(found, hit.0) < k && found.len() < k ==> offer(found, k, hit) == found.insert(
            rank(found, hit.0),
            hit,
        ),
        0 <= rank(found, hit.0) <= found.len(),
        forall|j: int| 0 <= j < rank(found, hit.0) ==> at_most((#[trigger] found[j]).0, hit.0),
        forall|j: int|
            rank(found, hit.0) <= j < found.len() ==> !at_most((#[trigger] found[j]).0, hit.0),
{
    lemma_rank_splits(found, hit.0);
    let at = rank(found, hit.0);
    let longer = found.insert(at, hit);
    assert forall|i: int, j: int| 0 <= i <= j < longer.len() implies at_most(
        longer[i].0,
        longer[j].0,
    ) by {
        lemma_either(longer[i].0, longer[j].0);
        if i < at && j > at {
            assert(at_most(found[i].0, found[j - 1].0));
        } else if i < at && j < at {
            assert(at_most(found[i].0, found[j].0));
        } else if i > at {
            assert(at_most(found[i - 1].0, found[j - 1].0));
        } else if i == at && j > at {
            assert(!at_most(found[j - 1].0, hit.0));
        } else if j == at && i < at {
            assert(at_most(found[i].0, hit.0));
        }
    }
    if at >= k {
        assert(longer.take(k as int) =~= found);
    } else if found.len() == k {
        assert(longer.take(k as int) =~= found.drop_last().insert(at, hit));
    }
}

/// In an ascending list everything before the rank of `d` is no farther
/// than `d`, and everything from it on is farther.
pub proof fn lemma_rank_splits<D: Ord>(found: Seq<Hit<D>>, d: D)
    requires
        total_order::<D>(),
        ascending(found),
    ensures
        0 <= rank(found, d) <= found.len(),
        forall|j: int| 0 <= j < rank(found, d) ==> at_most((#[trigger] found[j]).0, d),
        forall|j: int| rank(found, d) <= j < found.len() ==> !at_most((#[trigger] found[j]).0, d),
    decreases found.len(),
{
    if found.len() > 0 {
        let shorter = found.drop_last();
        assert forall|i: int, j: int| 0 <= i <= j < shorter.len() implies at_most(
            shorter[i].0,
            shorter[j].0,
        ) by {
            assert(at_most(found[i].0, found[j].0));
        }
        lemma_rank_splits(shorter, d);
        let at = rank(shorter, d);
        if at_most(found.last().0, d) {
            assert forall|j: int| 0 <= j < shorter.len() implies at_most(
                (#[trigger] shorter[j]).0,
                d,
            ) by {
                assert(at_most(found[j].0, found[found.len() - 1].0));
            }
            if at < shorter.len() {
                assert(!at_most(shorter[at].0, d));
            }
            assert forall|j: int| 0 <= j < rank(found, d) implies at_most(
                (#[trigger] found[j]).0,
                d,
            ) by {
                if j < shorter.len() {
                    assert(at_most(shorter[j].0, d));
                }
            }
        } else {
            assert forall|j: int| 0 <= j < rank(found, d) implies at_most(
                (#[trigger] found[j]).0,
                d,
            ) by {
                assert(at_most(shorter[j].0, d));
            }
            assert forall|j: int| rank(found, d) <= j < found.len() implies !at_most(
                (#[trigger] found[j]).0,
                d,
            ) by {
                if j < shorter.len() {
                    assert(!at_most(shorter[j].0, d));
                }
            }
        }
    }
}

impl<C: Ord + Copy, V> Tree2D<C, V> {
    /// Returns up to `max_neighbours` nodes within `max_distance` that are closest to the
    /// `location`, nearest first.
    ///
    /// The distance between nodes is computed using `calc_distance`.
    ///
    /// The nodes are examined level by level. Of a node beyond the bound
    /// only the child on the side of `location` is looked at, so a nearer
    /// node on the far side of such a node is not found: the list holds
    /// the nearest of the nodes that were examined.
    pub fn find_nearest<'a, D: Ord + Copy, F: Fn(&[C; 2], &[C; 2]) -> D>(
        &'a self,
        location: &[C; 2],
        max_distance: D,
        max_neighbours: usize,
        calc_distance: F,
    ) -> (neighbours: Vec<(D, &'a [C; 2], &'a V)>)
        requires
            is_metric(calc_distance),
            comparable::<C>(),
            total_order::<D>(),
        ensures
            self.wf(),
            neighbours@ == shown(
                self@,
                search(self@, *location, max_distance, max_neighbours, metric_of(calc_distance)),
            ),
            neighbours@.len() <= max_neighbours,
            forall|i: int, j: int|
                0 <= i <= j < neighbours@.len() ==> at_most(neighbours@[i].0, neighbours@[j].0),
            forall|i: int|
                0 <= i < neighbours@.len() ==> at_most((#[trigger] neighbours@[i]).0, max_distance),
    {
        proof {
            use_type_invariant(self);
        }
        let ghost nodes = self.nodes@;
        let ghost metric = metric_of(calc_distance);
        let ghost query = *location;
        let k = max_neighbours;
        let mut neighbours: Vec<(D, &'a [C; 2], &'a V)> = Vec::new();
        let ghost mut st = start(nodes, max_distance, k);
        proof {
            super::scan::lemma_search_keeps_nearest(nodes, query, max_distance, k, metric);
        }
        if max_neighbours == 0 || self.nodes.len() == 0 {
            proof {
                assert(neighbours@ =~= shown(nodes, st.found));
            }
            return neighbours;
        }
        let mut queue: VecDeque<(usize, usize)> = VecDeque::new();
        queue.push_back((0, 0));
        let mut bound = max_distance;
        proof {
            assert(queue@ =~= st.queue);
            assert(neighbours@ =~= shown(nodes, st.found));
        }
        while queue.len() > 0
            invariant
                nodes == self.nodes@,
                metric == metric_of(calc_distance),
                query == *location,
                k == max_neighbours,
                k > 0,
                is_metric(calc_distance),
                comparable::<C>(),
                total_order::<D>(),
                breadth_first(nodes),
                queue_ok(nodes, st.queue),
                st.queue == queue@,
                st.bound == bound,
                neighbours@ == shown(nodes, st.found),
                ascending(st.found),
                st.found.len() <= k,
                forall|j: int| 0 <= j < st.found.len() ==> (#[trigger] st.found[j]).1 < nodes.len(),
                run(nodes, query, k, metric, st) == search(nodes, query, max_distance, k, metric),
            decreases nodes.len() - front(st, nodes.len()),
        {
            let ghost before = st;
            proof {
                lemma_step_advances(nodes, query, k, metric, st);
                st = step(nodes, query, k, metric, before);
            }
            let (axis, at) = queue.pop_front().unwrap();
            assert(queue@ == before.queue.skip(1));
            let node = &self.nodes[at];
            let d = calc_distance(&node.location, location);
            assert(d == metric(node.location, query)) by {
                let chosen = choose|e: D| call_ensures(calc_distance, (&node.location, &query), e);
                assert(call_ensures(calc_distance, (&node.location, &query), d));
                assert(call_ensures(calc_distance, (&node.location, &query), chosen));
            }
            let mut lesser = false;
            let mut greater = false;
            if is_at_most(&d, &bound) {
                let i = rank_of(&neighbours, d, Ghost(before.found));
                proof {
                    lemma_offer(before.found, k, (d, at));
                }
                if i < max_neighbours {
                    if neighbours.len() == max_neighbours {
                        neighbours.pop();
                    }
                    neighbours.insert(i, (d, &node.location, &node.value));
                }
                proof {
                    assert(neighbours@ =~= shown(nodes, st.found));
                }
                if neighbours.len() == max_neighbours {
                    bound = neighbours[max_neighbours - 1].0;
                }
                lesser = true;
                greater = true;
            } else if is_before(&location[axis], &node.location[axis]) {
                lesser = true;
            } else {
                greater = true;
            }
            let next_axis = 1 - axis;
            if lesser && node.lesser_index != EMPTY {
                queue.push_back((next_axis, (node.lesser_index - 1) as usize));
            }
            if greater && node.greater_index != EMPTY {
                queue.push_back((next_axis, (node.greater_index - 1) as usize));
            }
            proof {
                assert(queue@ =~= st.queue);
                assert forall|j: int| 0 <= j < st.found.len() implies (#[trigger] st.found[j]).1
                    < nodes.len() by {
                    if at_most(d, before.bound) {
                        let r = rank(before.found, d);
                        if r < k {
                            if j < r {
                                assert(st.found[j] == before.found[j]);
                            } else if j > r {
                                assert(st.found[j] == before.found[j - 1]);
                            }
                        }
                    }
                }
            }
        }
        neighbours
    }
}

} // verus!
