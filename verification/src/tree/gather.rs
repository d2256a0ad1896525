//! Keeping the nearest of a stream of candidates while the bound shrinks.

use super::scan::shut_out;
use super::search::{ascending, lemma_offer, offer, rank, Hit};
use crate::order::{at_most, total_order};
use vstd::prelude::*;

verus! {

/// The list and the bound after the hits were offered one after the
/// other, in the order given: a hit within the bound is offered to the
/// list, and a full list shrinks the bound to its last distance.
pub open spec fn gathered<D: Ord>(hits: Seq<Hit<D>>, k: usize, max_distance: D) -> (Seq<Hit<D>>, D)
    decreases hits.len(),
{
    if hits.len() == 0 {
        (Seq::empty(), max_distance)
    } else {
        let (found, bound) = gathered(hits.drop_last(), k, max_distance);
        let hit = hits.last();
        if at_most(hit.0, bound) {
            let next = offer(found, k, hit);
            (
                next,
                if next.len() == k && k > 0 {
                    next[k - 1].0
                } else {
                    bound
                },
            )
        } else {
            (found, bound)
        }
    }
}

/// No position occurs in two of the hits.
pub open spec fn once_each<D>(hits: Seq<Hit<D>>) -> bool {
    forall|i: int, j: int|
        0 <= i < j < hits.len() ==> (#[trigger] hits[i]).1 != (#[trigger] hits[j]).1
}

/// Shrinking the bound loses nothing, in whatever order the hits come:
/// the list is in ascending order, holds at most `k` of the hits, all
/// within range, and every hit that is not in it is out of range or no
/// nearer than the last of a full list.
pub proof fn lemma_tightening_loses_nothing<D: Ord>(hits: Seq<Hit<D>>, k: usize, max_distance: D)
    requires
        total_order::<D>(),
    ensures
        ({
            let (found, bound) = gathered(hits, k, max_distance);
            &&& ascending(found)
            &&& found.len() <= k
            &&& at_most(bound, max_distance)
            &&& found.len() == k && k > 0 ==> bound == found[k - 1].0
            &&& found.len() < k ==> bound == max_distance
            &&& forall|j: int|
                0 <= j < found.len() ==> hits.contains(#[trigger] found[j]) && at_most(
                    found[j].0,
                    max_distance,
                )
            &&& forall|i: int|
                0 <= i < hits.len() ==> found.contains(#[trigger] hits[i]) || shut_out(
                    found,
                    k,
                    max_distance,
                    hits[i].0,
                )
            &&& once_each(hits) ==> once_each(found)
        }),
    decreases hits.len(),
{
    if hits.len() > 0 {
        let before = hits.drop_last();
        let hit = hits.last();
        let (old, bound) = gathered(before, k, max_distance);
        let (new, _tight) = gathered(hits, k, max_distance);
        lemma_tightening_loses_nothing(before, k, max_distance);
        if once_each(hits) {
            assert forall|i: int, j: int| 0 <= i < j < before.len() implies (
            #[trigger] before[i]).1 != (#[trigger] before[j]).1 by {
                assert(hits[i].1 != hits[j].1);
            }
        }
        assert(hits[hits.len() - 1] == hit);
        assert(forall|i: int| 0 <= i < before.len() ==> before[i] == hits[i]);
        assert forall|j: int| 0 <= j < old.len() implies hits.contains(#[trigger] old[j]) by {
            assert(before.contains(old[j]));
            let w = choose|w: int| 0 <= w < before.len() && before[w] == old[j];
            assert(hits[w] == old[j]);
        }
        if at_most(hit.0, bound) {
            let r = rank(old, hit.0);
            lemma_offer(old, k, hit);
            if r < k {
                let base = if old.len() == k {
                    old.drop_last()
                } else {
                    old
                };
                assert(new == base.insert(r, hit));
                assert(new[r] == hit);
                assert(forall|j: int| 0 <= j < r ==> new[j] == old[j]);
                assert(forall|j: int| r < j < new.len() ==> new[j] == old[j - 1]);
                assert forall|j: int| 0 <= j < new.len() implies hits.contains(#[trigger] new[j])
                    && at_most(new[j].0, max_distance) by {
                    if j < r {
                        assert(hits.contains(old[j]));
                    } else if j > r {
                        assert(hits.contains(old[j - 1]));
                    }
                }
                if once_each(hits) {
                    assert(once_each(before));
                    assert forall|i: int, j: int| 0 <= i < j < new.len() implies (
                    #[trigger] new[i]).1 != (#[trigger] new[j]).1 by {
                        let oi = if i < r {
                            i
                        } else {
                            i - 1
                        };
                        let oj = if j < r {
                            j
                        } else {
                            j - 1
                        };
                        if i == r {
                            assert(before.contains(old[oj]));
                            let w = choose|w: int| 0 <= w < before.len() && before[w] == old[oj];
                            assert(hits[w].1 != hits[hits.len() - 1].1);
                        } else if j == r {
                            assert(before.contains(old[oi]));
                            let w = choose|w: int| 0 <= w < before.len() && before[w] == old[oi];
                            assert(hits[w].1 != hits[hits.len() - 1].1);
                        } else {
                            assert(old[oi].1 != old[oj].1);
                        }
                    }
                }
                if old.len() == k {
                    assert(at_most(new[k - 1].0, old[k - 1].0)) by {
                        if r == k - 1 {
                            assert(!at_most(old[k - 1].0, hit.0));
                        } else {
                            assert(new[k - 1] == old[k - 2]);
                            assert(at_most(old[k - 2].0, old[k - 1].0));
                        }
                    }
                }
                assert forall|i: int| 0 <= i < hits.len() implies new.contains(#[trigger] hits[i])
                    || shut_out(new, k, max_distance, hits[i].0) by {
                    if i == hits.len() - 1 {
                        assert(new[r] == hits[i]);
                    } else if old.contains(before[i]) {
                        let j = choose|j: int| 0 <= j < old.len() && old[j] == before[i];
                        if j < r {
                            assert(new[j] == hits[i]);
                        } else if j + 1 < new.len() {
                            assert(new[j + 1] == hits[i]);
                        }
                    } else {
                        assert(shut_out(old, k, max_distance, before[i].0));
                    }
                }
            } else {
                assert(new == old);
                assert forall|i: int| 0 <= i < hits.len() implies new.contains(#[trigger] hits[i])
                    || shut_out(new, k, max_distance, hits[i].0) by {
                    if i < before.len() {
                        assert(old.contains(before[i]) || shut_out(
                            old,
                            k,
                            max_distance,
                            before[i].0,
                        ));
                    } else if k > 0 {
                        assert(at_most(old[k - 1].0, hit.0));
                    }
                }
            }
        } else {
            assert forall|i: int| 0 <= i < hits.len() implies new.contains(#[trigger] hits[i])
                || shut_out(new, k, max_distance, hits[i].0) by {
                if i < before.len() {
                    assert(old.contains(before[i]) || shut_out(
                        old,
                        k,
                        max_distance,
                        before[i].0,
                    ));
                }
            }
        }
    }
}

} // verus!
