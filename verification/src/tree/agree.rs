//! Two lists of the nearest nodes differ in which of equally distant
//! nodes they hold, and in nothing else.

use super::hidden::{lemma_search_finds_nearest, unhidden};
use super::scan::{holds, is_nearest, lemma_scan_is_nearest, scanned, shut_out};
use super::search::{search, Hit, Metric};
use super::{breadth_first, Node};
use crate::order::{at_most, total_order};
use vstd::prelude::*;

verus! {

/// How many of the numbers below `n` have the property.
pub open spec fn count_if(n: int, has: spec_fn(int) -> bool) -> int
    decreases n,
{
    if n <= 0 {
        0
    } else {
        count_if(n - 1, has) + if has(n - 1) {
            1int
        } else {
            0int
        }
    }
}

proof fn lemma_count_bounds(n: int, has: spec_fn(int) -> bool)
    ensures
        0 <= count_if(n, has),
        n >= 0 ==> count_if(n, has) <= n,
    decreases n,
{
    if n > 0 {
        lemma_count_bounds(n - 1, has);
    }
}

/// A list of different numbers below `n` that all have the property is
/// no longer than the count of such numbers.
proof fn lemma_count_at_least(n: int, has: spec_fn(int) -> bool, list: Seq<int>)
    requires
        forall|i: int, j: int| 0 <= i < j < list.len() ==> list[i] != list[j],
        forall|i: int| 0 <= i < list.len() ==> 0 <= #[trigger] list[i] < n && has(list[i]),
    ensures
        count_if(n, has) >= list.len(),
    decreases n,
{
    lemma_count_bounds(n, has);
    if list.len() > 0 {
        assert(0 <= list[0] < n);
        lemma_count_bounds(n - 1, has);
        if list.contains(n - 1) {
            let w = choose|w: int| 0 <= w < list.len() && list[w] == n - 1;
            let rest = list.remove(w);
            assert forall|i: int| 0 <= i < rest.len() implies 0 <= #[trigger] rest[i] < n - 1
                && has(rest[i]) by {
                let o = if i < w {
                    i
                } else {
                    i + 1
                };
                assert(rest[i] == list[o]);
                assert(list[o] != list[w]);
            }
            assert forall|i: int, j: int| 0 <= i < j < rest.len() implies rest[i] != rest[j] by {
                let oi = if i < w {
                    i
                } else {
                    i + 1
                };
                let oj = if j < w {
                    j
                } else {
                    j + 1
                };
                assert(list[oi] != list[oj]);
            }
            lemma_count_at_least(n - 1, has, rest);
        } else {
            assert forall|i: int| 0 <= i < list.len() implies 0 <= #[trigger] list[i] < n - 1
                && has(list[i]) by {
                assert(list.contains(list[i]));
            }
            lemma_count_at_least(n - 1, has, list);
        }
    }
}

/// A list that holds every number below `n` with the property is no
/// shorter than the count of such numbers.
proof fn lemma_count_at_most(n: int, has: spec_fn(int) -> bool, list: Seq<int>)
    requires
        forall|x: int| 0 <= x < n && has(x) ==> list.contains(x),
    ensures
        count_if(n, has) <= list.len(),
    decreases n,
{
    if n > 0 {
        if has(n - 1) {
            assert(list.contains(n - 1));
            let w = choose|w: int| 0 <= w < list.len() && list[w] == n - 1;
            let rest = list.remove(w);
            assert forall|x: int| 0 <= x < n - 1 && has(x) implies rest.contains(x) by {
                assert(list.contains(x));
                let i = choose|i: int| 0 <= i < list.len() && list[i] == x;
                let o = if i < w {
                    i
                } else {
                    i - 1
                };
                assert(rest[o] == x);
            }
            lemma_count_at_most(n - 1, has, rest);
        } else {
            lemma_count_at_most(n - 1, has, list);
        }
    }
}

/// The positions of the first `upto` hits.
pub open spec fn positions<D>(found: Seq<Hit<D>>, upto: int) -> Seq<int> {
    Seq::new(upto as nat, |i: int| found[i].1 as int)
}

/// Of two lists of the nearest nodes, neither has a nearer node in any
/// place than the other has there.
proof fn lemma_not_nearer<C: Ord, D: Ord, V>(
    nodes: Seq<Node<C, V>>,
    query: [C; 2],
    max_distance: D,
    k: usize,
    metric: Metric<C, D>,
    one: Seq<Hit<D>>,
    other: Seq<Hit<D>>,
    j: int,
)
    requires
        total_order::<D>(),
        is_nearest(nodes, query, max_distance, k, metric, one),
        is_nearest(nodes, query, max_distance, k, metric, other),
        0 <= j < one.len(),
        j < other.len(),
    ensures
        at_most(other[j].0, one[j].0),
{
    if !at_most(other[j].0, one[j].0) {
        let limit = other[j].0;
        let n = nodes.len() as int;
        let has = |x: int|
            0 <= x < n && at_most(metric(nodes[x].location, query), max_distance) && !at_most(
                limit,
                metric(nodes[x].location, query),
            );
        let mine = positions(one, j + 1);
        assert forall|i: int| 0 <= i < mine.len() implies 0 <= #[trigger] mine[i] < n && has(
            mine[i],
        ) by {
            assert(at_most(one[i].0, one[j].0));
        }
        assert forall|a: int, b: int| 0 <= a < b < mine.len() implies mine[a] != mine[b] by {
            assert(one[a].1 != one[b].1);
        }
        lemma_count_at_least(n, has, mine);
        let theirs = positions(other, j);
        assert forall|x: int| 0 <= x < n && has(x) implies theirs.contains(x) by {
            let d = metric(nodes[x].location, query);
            if !holds(other, x) {
                assert(shut_out(other, k, max_distance, d));
                assert(at_most(other[j].0, other[k - 1].0));
            }
            let i = choose|i: int| 0 <= i < other.len() && (#[trigger] other[i]).1 == x;
            if i >= j {
                assert(at_most(other[j].0, other[i].0));
            }
            assert(theirs[i] == x);
        }
        lemma_count_at_most(n, has, theirs);
    }
}

/// Of two lists of the nearest nodes, neither is longer than the other.
proof fn lemma_not_longer<C: Ord, D: Ord, V>(
    nodes: Seq<Node<C, V>>,
    query: [C; 2],
    max_distance: D,
    k: usize,
    metric: Metric<C, D>,
    one: Seq<Hit<D>>,
    other: Seq<Hit<D>>,
)
    requires
        total_order::<D>(),
        is_nearest(nodes, query, max_distance, k, metric, one),
        is_nearest(nodes, query, max_distance, k, metric, other),
    ensures
        other.len() <= one.len(),
{
    if other.len() > one.len() {
        let n = nodes.len() as int;
        let has = |x: int| 0 <= x < n && at_most(metric(nodes[x].location, query), max_distance);
        let theirs = positions(other, one.len() as int + 1);
        assert forall|i: int| 0 <= i < theirs.len() implies 0 <= #[trigger] theirs[i] < n && has(
            theirs[i],
        ) by {
            assert(at_most(other[i].0, max_distance));
        }
        assert forall|a: int, b: int| 0 <= a < b < theirs.len() implies theirs[a]
            != theirs[b] by {
            assert(other[a].1 != other[b].1);
        }
        lemma_count_at_least(n, has, theirs);
        let mine = positions(one, one.len() as int);
        assert forall|x: int| 0 <= x < n && has(x) implies mine.contains(x) by {
            if !holds(one, x) {
                assert(shut_out(one, k, max_distance, metric(nodes[x].location, query)));
            }
            let i = choose|i: int| 0 <= i < one.len() && (#[trigger] one[i]).1 == x;
            assert(mine[i] == x);
        }
        lemma_count_at_most(n, has, mine);
    }
}

/// The two lists are equally long and have hits of the same distance in
/// the same places.
pub open spec fn same_distances<D: Ord>(one: Seq<Hit<D>>, other: Seq<Hit<D>>) -> bool {
    &&& one.len() == other.len()
    &&& forall|j: int|
        0 <= j < one.len() ==> at_most((#[trigger] one[j]).0, other[j].0) && at_most(
            other[j].0,
            one[j].0,
        )
}

/// Any two lists of the nearest nodes have the same distances in the same
/// places: the nearest are known but for ties.
pub proof fn lemma_nearest_agree<C: Ord, D: Ord, V>(
    nodes: Seq<Node<C, V>>,
    query: [C; 2],
    max_distance: D,
    k: usize,
    metric: Metric<C, D>,
    one: Seq<Hit<D>>,
    other: Seq<Hit<D>>,
)
    requires
        total_order::<D>(),
        is_nearest(nodes, query, max_distance, k, metric, one),
        is_nearest(nodes, query, max_distance, k, metric, other),
    ensures
        same_distances(one, other),
{
    lemma_not_longer(nodes, query, max_distance, k, metric, one, other);
    lemma_not_longer(nodes, query, max_distance, k, metric, other, one);
    assert forall|j: int| 0 <= j < one.len() implies at_most((#[trigger] one[j]).0, other[j].0)
        && at_most(other[j].0, one[j].0) by {
        lemma_not_nearer(nodes, query, max_distance, k, metric, one, other, j);
        lemma_not_nearer(nodes, query, max_distance, k, metric, other, one, j);
    }
}

/// In a tree where no node hides a nearer one from the query, the search
/// finds what a scan of all nodes finds: as many nodes, at the same
/// distances, in the same order. Which of several equally distant nodes
/// are found may differ.
pub proof fn lemma_search_agrees_with_scan<C: Ord, D: Ord, V>(
    nodes: Seq<Node<C, V>>,
    query: [C; 2],
    max_distance: D,
    k: usize,
    metric: Metric<C, D>,
)
    requires
        total_order::<D>(),
        breadth_first(nodes),
        unhidden(nodes, query, metric),
    ensures
        same_distances(
            search(nodes, query, max_distance, k, metric),
            scanned(nodes, query, max_distance, k, metric),
        ),
{
    lemma_search_finds_nearest(nodes, query, max_distance, k, metric);
    lemma_scan_is_nearest(nodes, query, max_distance, k, metric);
    lemma_nearest_agree(
        nodes,
        query,
        max_distance,
        k,
        metric,
        search(nodes, query, max_distance, k, metric),
        scanned(nodes, query, max_distance, k, metric),
    );
}

} // verus!
