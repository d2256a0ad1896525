//! Building the tree from a list of points.

use super::{
    balanced, in_subtree, kd_ordered, links_before, ordered_from, placed, points, splits,
    subtree_size, EMPTY, Node, Tree2D,
};
use crate::order::{at_most, order_on_axis, total_order};
use std::collections::VecDeque;
use vstd::prelude::*;

verus! {

/// The coordinate of a point on `axis`.
pub open spec fn coordinate<C, V>(point: ([C; 2], V), axis: usize) -> C {
    point.0[axis as int]
}

/// `after` is `before` with the points of `lo..hi` reordered so that the one
/// at `nth` has no greater coordinate on `axis` before it in that range and
/// no lesser one behind it; everything outside the range is untouched.
pub open spec fn selected<C: Ord, V>(
    before: Seq<([C; 2], V)>,
    after: Seq<([C; 2], V)>,
    lo: usize,
    hi: usize,
    nth: usize,
    axis: usize,
) -> bool {
    &&& after.len() == before.len()
    &&& forall|p: int| 0 <= p < lo || hi <= p < before.len() ==> after[p] == before[p]
    &&& after.subrange(lo as int, hi as int).to_multiset() == before.subrange(
        lo as int,
        hi as int,
    ).to_multiset()
    &&& forall|p: int|
        lo <= p < nth ==> at_most(after[p].0[axis as int], after[nth as int].0[axis as int])
    &&& forall|p: int|
        nth < p < hi ==> at_most(after[nth as int].0[axis as int], after[p].0[axis as int])
}

/// `selected`, with the position counted from the start of the range.
pub open spec fn selected_within<C: Ord, V>(
    before: Seq<([C; 2], V)>,
    after: Seq<([C; 2], V)>,
    lo: usize,
    hi: usize,
    offset: usize,
    axis: usize,
) -> bool {
    selected(before, after, lo, hi, (lo + offset) as usize, axis)
}

/// `<[T]>::select_nth_unstable_by` on `points[lo..hi]`, comparing by the
/// coordinate on `axis`. It reorders that range in place so that the point
/// at `offset` within it is the one a full sort would put there, with no
/// greater point before it and no lesser one behind it. The rest of the
/// vector is not touched. It panics if the position is outside the range,
/// and may panic if the comparison is no total order; `requires` rules out
/// both.
#[verifier::external_body]
fn select_nth_on_axis<C: Ord + Copy, V>(
    points: &mut Vec<([C; 2], V)>,
    lo: usize,
    hi: usize,
    offset: usize,
    axis: usize,
)
    requires
        lo <= hi <= old(points)@.len(),
        offset < hi - lo,
        axis < 2,
        total_order::<C>(),
    ensures
        selected_within(old(points)@, final(points)@, lo, hi, offset, axis),
{
    points[lo..hi].select_nth_unstable_by(offset, |a, b| order_on_axis(a, b, axis));
}

/// The points that the ranges still in the queue hold together.
pub open spec fn pending(queue: Seq<(usize, usize, usize)>) -> int
    decreases queue.len(),
{
    if queue.len() == 0 {
        0
    } else {
        pending(queue.drop_last()) + (queue.last().2 - queue.last().1)
    }
}

proof fn lemma_pending_pop_front(queue: Seq<(usize, usize, usize)>)
    requires
        queue.len() > 0,
    ensures
        pending(queue) == (queue[0].2 - queue[0].1) + pending(
            queue.subrange(1, queue.len() as int),
        ),
    decreases queue.len(),
{
    let rest = queue.subrange(1, queue.len() as int);
    let front = queue.drop_last();
    if queue.len() == 1 {
        assert(pending(front) == 0);
        assert(pending(rest) == 0);
    } else {
        lemma_pending_pop_front(front);
        assert(front.subrange(1, front.len() as int) == rest.drop_last());
        assert(rest.last() == queue.last());
        assert(front[0] == queue[0]);
        assert(pending(rest) == pending(rest.drop_last()) + (rest.last().2 - rest.last().1));
    }
}

proof fn lemma_pending_push(queue: Seq<(usize, usize, usize)>, item: (usize, usize, usize))
    ensures
        pending(queue.push(item)) == pending(queue) + (item.2 - item.1),
{
    assert(queue.push(item).drop_last() == queue);
}

proof fn lemma_pending_covers(queue: Seq<(usize, usize, usize)>)
    requires
        forall|j: int| 0 <= j < queue.len() ==> (#[trigger] queue[j]).1 < queue[j].2,
    ensures
        pending(queue) >= queue.len(),
    decreases queue.len(),
{
    if queue.len() > 0 {
        lemma_pending_covers(queue.drop_last());
    }
}

proof fn lemma_links_before_prefix<C, V>(a: Seq<Node<C, V>>, b: Seq<Node<C, V>>, i: int)
    requires
        0 <= i <= a.len(),
        i <= b.len(),
        forall|j: int| 0 <= j < i ==> a[j] == b[j],
    ensures
        links_before(a, i) == links_before(b, i),
    decreases i,
{
    if i > 0 {
        lemma_links_before_prefix(a, b, i - 1);
    }
}

/// A range of the point list with the axis on which it is to be split:
/// axis, first position, position behind the last.
pub type Span = (usize, usize, usize);

/// The position that halves a span; the lower median.
pub open spec fn span_mid(sp: Span) -> int {
    sp.1 + (sp.2 - sp.1) / 2
}

pub open spec fn span_ok(sp: Span, n: int) -> bool {
    sp.0 < 2 && sp.1 < sp.2 <= n
}

pub open spec fn apart(a: Span, b: Span) -> bool {
    a.2 <= b.1 || b.2 <= a.1
}

/// `inner` lies wholly on one side of the middle of `outer`, or outside it.
pub open spec fn beside(outer: Span, inner: Span) -> bool {
    ||| apart(outer, inner)
    ||| (outer.1 <= inner.1 && inner.2 <= span_mid(outer))
    ||| (span_mid(outer) < inner.1 && inner.2 <= outer.2)
}

/// The point in the middle of the span separates the two halves on the
/// span's axis.
pub open spec fn split_holds<C: Ord, V>(cur: Seq<([C; 2], V)>, sp: Span) -> bool {
    let m = span_mid(sp);
    &&& forall|p: int|
        sp.1 <= p < m ==> at_most((#[trigger] cur[p]).0[sp.0 as int], cur[m].0[sp.0 as int])
    &&& forall|p: int|
        m < p < sp.2 ==> at_most(cur[m].0[sp.0 as int], (#[trigger] cur[p]).0[sp.0 as int])
}

/// The span of the lesser half of `sp`.
pub open spec fn lesser_half(sp: Span) -> Span {
    ((1 - sp.0) as usize, sp.1, span_mid(sp) as usize)
}

/// The span of the greater half of `sp`.
pub open spec fn greater_half(sp: Span) -> Span {
    ((1 - sp.0) as usize, (span_mid(sp) + 1) as usize, sp.2)
}

/// Node `s` holds the middle point of its span, and its children stand for
/// the two halves.
pub open spec fn node_fits<C: Ord, V>(
    out: Seq<Node<C, V>>,
    spans: Seq<Span>,
    cur: Seq<([C; 2], V)>,
    s: int,
) -> bool {
    let sp = spans[s];
    let m = span_mid(sp);
    let node = out[s];
    &&& node.location == cur[m].0
    &&& node.value == cur[m].1
    &&& (node.lesser_index != EMPTY <==> sp.1 < m)
    &&& (node.greater_index != EMPTY <==> m + 1 < sp.2)
    &&& (sp.1 < m ==> s < node.lesser() < spans.len() && spans[node.lesser()] == lesser_half(sp))
    &&& (m + 1 < sp.2 ==> s < node.greater() < spans.len() && spans[node.greater()]
        == greater_half(sp))
}

/// What holds while the tree is built: `out` are the nodes made so far,
/// `spans` the ranges handed out (one per node made or still waiting),
/// `cur` the point list as reordered so far, `held` what the vector holds
/// (`cur` without the values already moved out).
pub open spec fn building<C: Ord, V>(
    out: Seq<Node<C, V>>,
    spans: Seq<Span>,
    cur: Seq<([C; 2], V)>,
    held: Seq<([C; 2], V)>,
    n: int,
) -> bool {
    let done = out.len() as int;
    &&& done <= spans.len()
    &&& cur.len() == n
    &&& held.len() == n
    &&& forall|t: int| 0 <= t < spans.len() ==> span_ok(#[trigger] spans[t], n)
    &&& forall|s: int| 0 <= s < done ==> #[trigger] node_fits(out, spans, cur, s)
    &&& forall|s: int| 0 <= s < done ==> split_holds(cur, #[trigger] spans[s])
    &&& forall|s: int, t: int|
        0 <= s < done && s < t < spans.len() ==> beside(#[trigger] spans[s], #[trigger] spans[t])
    &&& forall|t: int, u: int|
        done <= t < u < spans.len() ==> apart(#[trigger] spans[t], #[trigger] spans[u])
    &&& forall|t: int, p: int|
        #![trigger spans[t], held[p]]
        done <= t < spans.len() && spans[t].1 <= p < spans[t].2 ==> held[p] == cur[p]
    &&& forall|p: int| 0 <= p < n ==> (#[trigger] held[p]).0 == cur[p].0
}

/// `cur` with the positions of `sp` taken from `fresh`.
pub open spec fn merged<C: Ord, V>(cur: Seq<([C; 2], V)>, fresh: Seq<([C; 2], V)>, sp: Span) -> Seq<
    ([C; 2], V),
> {
    Seq::new(
        cur.len(),
        |p: int|
            if sp.1 <= p < sp.2 {
                fresh[p]
            } else {
                cur[p]
            },
    )
}

/// `spans` with the halves of `sp` that are not empty, lesser first.
pub open spec fn grown(spans: Seq<Span>, sp: Span) -> Seq<Span> {
    let with_lesser = if sp.1 < span_mid(sp) {
        spans.push(lesser_half(sp))
    } else {
        spans
    };
    if span_mid(sp) + 1 < sp.2 {
        with_lesser.push(greater_half(sp))
    } else {
        with_lesser
    }
}

/// Whatever stands in the range after a selection stood somewhere in the
/// range before it.
proof fn lemma_selected_origin<C: Ord, V>(
    before: Seq<([C; 2], V)>,
    after: Seq<([C; 2], V)>,
    lo: usize,
    hi: usize,
    nth: usize,
    axis: usize,
    p: int,
) -> (q: int)
    requires
        selected(before, after, lo, hi, nth, axis),
        lo <= p < hi <= before.len(),
    ensures
        lo <= q < hi,
        before[q] == after[p],
{
    broadcast use vstd::seq_lib::to_multiset_contains;

    let sub_before = before.subrange(lo as int, hi as int);
    let sub_after = after.subrange(lo as int, hi as int);
    let x = after[p];
    assert(sub_after[p - lo] == x);
    assert(sub_after.contains(x));
    assert(sub_after.to_multiset().count(x) > 0);
    assert(sub_before.to_multiset().count(x) > 0);
    assert(sub_before.contains(x));
    let j = choose|j: int| 0 <= j < sub_before.len() && sub_before[j] == x;
    lo + j
}

/// Replacing a range by a reordering of itself keeps the multiset.
proof fn lemma_merged_multiset<C: Ord, V>(
    cur: Seq<([C; 2], V)>,
    before: Seq<([C; 2], V)>,
    after: Seq<([C; 2], V)>,
    sp: Span,
    nth: usize,
)
    requires
        sp.1 <= sp.2 <= cur.len(),
        cur.len() == before.len(),
        selected(before, after, sp.1, sp.2, nth, sp.0),
        forall|p: int| sp.1 <= p < sp.2 ==> before[p] == cur[p],
    ensures
        merged(cur, after, sp).to_multiset() == cur.to_multiset(),
{
    broadcast use vstd::seq_lib::lemma_multiset_commutative;

    let lo = sp.1 as int;
    let hi = sp.2 as int;
    let n = cur.len() as int;
    let new = merged(cur, after, sp);
    let a = cur.subrange(0, lo);
    let c = cur.subrange(hi, n);
    let b0 = cur.subrange(lo, hi);
    let b1 = after.subrange(lo, hi);
    assert(b0 =~= before.subrange(lo, hi));
    assert(cur =~= (a + b0) + c);
    assert(new =~= (a + b1) + c);
    assert(((a + b0) + c).to_multiset() =~= a.to_multiset().add(b0.to_multiset()).add(
        c.to_multiset(),
    ));
    assert(((a + b1) + c).to_multiset() =~= a.to_multiset().add(b1.to_multiset()).add(
        c.to_multiset(),
    ));
}

/// A selection inside a waiting span leaves the splits made earlier
/// intact, and makes the split of that span.
proof fn lemma_select_keeps_splits<C: Ord, V>(
    out: Seq<Node<C, V>>,
    spans: Seq<Span>,
    cur: Seq<([C; 2], V)>,
    held: Seq<([C; 2], V)>,
    after: Seq<([C; 2], V)>,
    n: int,
)
    requires
        building(out, spans, cur, held, n),
        out.len() < spans.len(),
        ({
            let sp = spans[out.len() as int];
            if sp.2 - sp.1 > 1 {
                selected(held, after, sp.1, sp.2, span_mid(sp) as usize, sp.0)
            } else {
                after == held
            }
        }),
    ensures
        ({
            let sp = spans[out.len() as int];
            let cur2 = merged(cur, after, sp);
            &&& cur2.len() == n
            &&& after.len() == n
            &&& cur2.to_multiset() == cur.to_multiset()
            &&& split_holds(cur2, sp)
            &&& forall|s: int| 0 <= s < out.len() ==> split_holds(cur2, #[trigger] spans[s])
            &&& forall|s: int|
                0 <= s < out.len() ==> cur2[span_mid(#[trigger] spans[s])] == cur[span_mid(
                    spans[s],
                )]
            &&& forall|p: int| sp.1 <= p < sp.2 ==> cur2[p] == after[p]
            &&& forall|p: int| 0 <= p < n && !(sp.1 <= p < sp.2) ==> cur2[p] == cur[p]
            &&& forall|p: int| 0 <= p < n && !(sp.1 <= p < sp.2) ==> after[p] == held[p]
            &&& forall|p: int| 0 <= p < n ==> (#[trigger] after[p]).0 == cur2[p].0
        }),
{
    let done = out.len() as int;
    let sp = spans[done];
    let m = span_mid(sp);
    let cur2 = merged(cur, after, sp);
    assert(span_ok(sp, n));
    assert(forall|p: int| sp.1 <= p < sp.2 ==> held[p] == cur[p]);
    if sp.2 - sp.1 > 1 {
        lemma_merged_multiset(cur, held, after, sp, m as usize);
        assert(split_holds(cur2, sp));
        assert forall|s: int| 0 <= s < done implies split_holds(cur2, #[trigger] spans[s]) by {
            let outer = spans[s];
            let om = span_mid(outer);
            assert(span_ok(outer, n));
            assert(beside(outer, sp));
            assert(split_holds(cur, outer));
            assert(cur2[om] == cur[om]);
            assert forall|p: int| outer.1 <= p < om implies at_most(
                (#[trigger] cur2[p]).0[outer.0 as int],
                cur2[om].0[outer.0 as int],
            ) by {
                if sp.1 <= p < sp.2 {
                    let q = lemma_selected_origin(held, after, sp.1, sp.2, m as usize, sp.0, p);
                    assert(cur2[p] == cur[q]);
                    assert(outer.1 <= q < om);
                }
            }
            assert forall|p: int| om < p < outer.2 implies at_most(
                cur2[om].0[outer.0 as int],
                (#[trigger] cur2[p]).0[outer.0 as int],
            ) by {
                if sp.1 <= p < sp.2 {
                    let q = lemma_selected_origin(held, after, sp.1, sp.2, m as usize, sp.0, p);
                    assert(cur2[p] == cur[q]);
                    assert(om < q < outer.2);
                }
            }
        }
        assert forall|s: int| 0 <= s < done implies cur2[span_mid(#[trigger] spans[s])]
            == cur[span_mid(spans[s])] by {
            assert(span_ok(spans[s], n));
            assert(beside(spans[s], sp));
        }
    } else {
        assert(cur2 =~= cur);
        assert(split_holds(cur2, sp));
        assert forall|s: int| 0 <= s < done implies split_holds(cur2, #[trigger] spans[s]) by {
            assert(split_holds(cur, spans[s]));
        }
    }
}

/// One round of the construction keeps `building`.
proof fn lemma_build_step<C: Ord, V>(
    out: Seq<Node<C, V>>,
    spans: Seq<Span>,
    cur: Seq<([C; 2], V)>,
    held: Seq<([C; 2], V)>,
    after: Seq<([C; 2], V)>,
    taken: Seq<([C; 2], V)>,
    node: Node<C, V>,
    n: int,
)
    requires
        building(out, spans, cur, held, n),
        out.len() < spans.len(),
        ({
            let sp = spans[out.len() as int];
            let m = span_mid(sp);
            &&& if sp.2 - sp.1 > 1 {
                selected(held, after, sp.1, sp.2, m as usize, sp.0)
            } else {
                after == held
            }
            &&& taken.len() == n
            &&& forall|p: int| 0 <= p < n && p != m ==> taken[p] == after[p]
            &&& taken[m].0 == after[m].0
            &&& node.location == after[m].0
            &&& node.value == after[m].1
            &&& (node.lesser_index != EMPTY <==> sp.1 < m)
            &&& (node.greater_index != EMPTY <==> m + 1 < sp.2)
            &&& (sp.1 < m ==> node.lesser() == spans.len())
            &&& (m + 1 < sp.2 ==> node.greater() == spans.len() + (if sp.1 < m {
                1int
            } else {
                0int
            }))
        }),
    ensures
        ({
            let sp = spans[out.len() as int];
            &&& building(out.push(node), grown(spans, sp), merged(cur, after, sp), taken, n)
            &&& merged(cur, after, sp).to_multiset() == cur.to_multiset()
        }),
{
    let done = out.len() as int;
    let sp = spans[done];
    let m = span_mid(sp);
    let cur2 = merged(cur, after, sp);
    let spans2 = grown(spans, sp);
    let out2 = out.push(node);
    lemma_select_keeps_splits(out, spans, cur, held, after, n);
    assert(span_ok(sp, n));
    assert(forall|t: int| 0 <= t < spans.len() ==> spans2[t] == spans[t]);
    assert forall|t: int| 0 <= t < spans2.len() implies span_ok(#[trigger] spans2[t], n) by {
        if t < spans.len() {
            assert(span_ok(spans[t], n));
        }
    }
    assert forall|s: int| 0 <= s < out2.len() implies #[trigger] node_fits(
        out2,
        spans2,
        cur2,
        s,
    ) by {
        if s < done {
            assert(node_fits(out, spans, cur, s));
            assert(spans2[s] == spans[s]);
            assert(cur2[span_mid(spans[s])] == cur[span_mid(spans[s])]);
        }
    }
    assert forall|s: int| 0 <= s < out2.len() implies split_holds(cur2, #[trigger] spans2[s]) by {
        assert(spans2[s] == spans[s]);
    }
    assert forall|s: int, t: int| 0 <= s < out2.len() && s < t < spans2.len() implies beside(
        #[trigger] spans2[s],
        #[trigger] spans2[t],
    ) by {
        assert(spans2[s] == spans[s]);
        assert(span_ok(spans[s], n));
        if t < spans.len() {
            if s < done {
                assert(beside(spans[s], spans[t]));
            } else {
                assert(apart(spans[done], spans[t]));
            }
        } else {
            if s < done {
                assert(beside(spans[s], sp));
            }
        }
    }
    assert forall|t: int, u: int| out2.len() <= t < u < spans2.len() implies apart(
        #[trigger] spans2[t],
        #[trigger] spans2[u],
    ) by {
        if u < spans.len() {
            assert(apart(spans[t], spans[u]));
        } else if t < spans.len() {
            assert(apart(spans[done], spans[t]));
        }
    }
    assert forall|t: int, p: int|
        #![trigger spans2[t], taken[p]]
        out2.len() <= t < spans2.len() && spans2[t].1 <= p < spans2[t].2 implies taken[p]
        == cur2[p] by {
        assert(span_ok(spans2[t], n));
        if t < spans.len() {
            assert(apart(spans[done], spans[t]));
            assert(held[p] == cur[p]);
        }
    }
    assert forall|p: int| 0 <= p < n implies (#[trigger] taken[p]).0 == cur2[p].0 by {
        assert(after[p].0 == cur2[p].0);
    }
}

/// In a finished construction the span of a subtree's root holds the spans
/// of all its nodes.
proof fn lemma_built_subtree<C: Ord, V>(
    out: Seq<Node<C, V>>,
    spans: Seq<Span>,
    cur: Seq<([C; 2], V)>,
    held: Seq<([C; 2], V)>,
    n: int,
    s: int,
    x: int,
)
    requires
        building(out, spans, cur, held, n),
        out.len() == spans.len(),
        in_subtree(out, s, x),
    ensures
        0 <= s <= x < out.len(),
        spans[s].1 <= spans[x].1,
        spans[x].2 <= spans[s].2,
        x != s ==> span_mid(spans[x]) != span_mid(spans[s]),
        x != s && spans[x].1 < span_mid(spans[s]) ==> in_subtree(out, out[s].lesser(), x),
        x != s && spans[x].1 > span_mid(spans[s]) ==> in_subtree(out, out[s].greater(), x),
    decreases out.len() - s,
{
    if x != s {
        let l = out[s].lesser();
        let g = out[s].greater();
        assert(node_fits(out, spans, cur, s));
        assert(span_ok(spans[s], n));
        if s < l < out.len() && in_subtree(out, l, x) {
            lemma_built_subtree(out, spans, cur, held, n, l, x);
            assert(span_ok(spans[x], n));
        } else {
            lemma_built_subtree(out, spans, cur, held, n, g, x);
            assert(span_ok(spans[x], n));
        }
    }
}

/// In a finished construction a subtree is as large as its root's span.
proof fn lemma_built_size<C: Ord, V>(
    out: Seq<Node<C, V>>,
    spans: Seq<Span>,
    cur: Seq<([C; 2], V)>,
    held: Seq<([C; 2], V)>,
    n: int,
    s: int,
)
    requires
        building(out, spans, cur, held, n),
        out.len() == spans.len(),
        0 <= s < out.len(),
    ensures
        subtree_size(out, s) == spans[s].2 - spans[s].1,
        subtree_size(out, out[s].lesser()) == (spans[s].2 - spans[s].1) / 2,
    decreases out.len() - s,
{
    let l = out[s].lesser();
    let g = out[s].greater();
    assert(node_fits(out, spans, cur, s));
    assert(span_ok(spans[s], n));
    if spans[s].1 < span_mid(spans[s]) {
        lemma_built_size(out, spans, cur, held, n, l);
    }
    if span_mid(spans[s]) + 1 < spans[s].2 {
        lemma_built_size(out, spans, cur, held, n, g);
    }
}

/// In a finished construction every subtree is ordered on its span's axis.
proof fn lemma_built_ordered<C: Ord, V>(
    out: Seq<Node<C, V>>,
    spans: Seq<Span>,
    cur: Seq<([C; 2], V)>,
    held: Seq<([C; 2], V)>,
    n: int,
    s: int,
)
    requires
        building(out, spans, cur, held, n),
        out.len() == spans.len(),
        0 <= s < out.len(),
    ensures
        ordered_from(out, s, spans[s].0 as int),
    decreases out.len() - s,
{
    let sp = spans[s];
    let m = span_mid(sp);
    let l = out[s].lesser();
    let g = out[s].greater();
    let axis = sp.0 as int;
    assert(node_fits(out, spans, cur, s));
    assert(span_ok(sp, n));
    assert(split_holds(cur, sp));
    assert forall|x: int| #[trigger] in_subtree(out, l, x) implies at_most(
        out[x].location[axis],
        out[s].location[axis],
    ) by {
        lemma_built_subtree(out, spans, cur, held, n, l, x);
        assert(node_fits(out, spans, cur, x));
        assert(span_ok(spans[x], n));
        assert(at_most(cur[span_mid(spans[x])].0[axis], cur[m].0[axis]));
    }
    assert forall|x: int| #[trigger] in_subtree(out, g, x) implies at_most(
        out[s].location[axis],
        out[x].location[axis],
    ) by {
        lemma_built_subtree(out, spans, cur, held, n, g, x);
        assert(node_fits(out, spans, cur, x));
        assert(span_ok(spans[x], n));
        assert(at_most(cur[m].0[axis], cur[span_mid(spans[x])].0[axis]));
    }
    assert(splits(out, s, axis));
    if s < l < out.len() {
        lemma_built_ordered(out, spans, cur, held, n, l);
    }
    if s < g < out.len() {
        lemma_built_ordered(out, spans, cur, held, n, g);
    }
}

/// If `b` lists elements of `a` through an index map that uses no position
/// twice, and both are equally long, they hold the same multiset.
pub proof fn lemma_reindexed_multiset<A>(a: Seq<A>, b: Seq<A>, f: Seq<int>)
    requires
        a.len() == b.len(),
        f.len() == b.len(),
        forall|i: int| 0 <= i < f.len() ==> 0 <= #[trigger] f[i] < a.len(),
        forall|i: int, j: int| 0 <= i < j < f.len() ==> f[i] != f[j],
        forall|i: int| 0 <= i < b.len() ==> #[trigger] b[i] == a[f[i]],
    ensures
        a.to_multiset() == b.to_multiset(),
    decreases b.len(),
{
    broadcast use {
        vstd::seq_lib::to_multiset_build,
        vstd::seq_lib::to_multiset_remove,
        vstd::seq_lib::to_multiset_contains,
        vstd::multiset::group_multiset_axioms,
    };

    if b.len() == 0 {
        assert(a =~= b);
    } else {
        let last = b.len() - 1;
        let k = f[last];
        let b1 = b.drop_last();
        let a1 = a.remove(k);
        let f1 = Seq::new(
            last as nat,
            |i: int|
                if f[i] > k {
                    f[i] - 1
                } else {
                    f[i]
                },
        );
        assert forall|i: int| 0 <= i < b1.len() implies #[trigger] b1[i] == a1[f1[i]] by {
            assert(f[i] != f[last]);
            assert(b[i] == a[f[i]]);
        }
        assert forall|i: int, j: int| 0 <= i < j < f1.len() implies f1[i] != f1[j] by {
            assert(f[i] != f[j]);
            assert(f[i] != f[last]);
            assert(f[j] != f[last]);
        }
        assert forall|i: int| 0 <= i < f1.len() implies 0 <= #[trigger] f1[i] < a1.len() by {
            assert(f[i] != f[last]);
            assert(0 <= f[i] < a.len());
        }
        lemma_reindexed_multiset(a1, b1, f1);
        assert(b =~= b1.push(b[last]));
        assert(b.to_multiset() =~= b1.to_multiset().insert(b[last]));
        assert(a1.to_multiset() == a.to_multiset().remove(a[k]));
        assert(a.contains(a[k]));
        assert(a.to_multiset().count(a[k]) > 0);
        assert(a.to_multiset() =~= a1.to_multiset().insert(a[k]));
    }
}

/// What a finished construction has made: an ordered, balanced tree that
/// holds the points it was given.
proof fn lemma_built<C: Ord, V>(
    out: Seq<Node<C, V>>,
    spans: Seq<Span>,
    cur: Seq<([C; 2], V)>,
    held: Seq<([C; 2], V)>,
    n: int,
)
    requires
        building(out, spans, cur, held, n),
        out.len() == spans.len(),
        out.len() == n,
        n > 0 ==> spans[0] == (0usize, 0usize, n as usize),
    ensures
        kd_ordered(out),
        balanced(out),
        points(out).to_multiset() == cur.to_multiset(),
{
    if n > 0 {
        lemma_built_ordered(out, spans, cur, held, n, 0);
    }
    assert forall|i: int| 0 <= i < out.len() implies subtree_size(out, out[i].lesser())
        == #[trigger] subtree_size(out, i) / 2 by {
        lemma_built_size(out, spans, cur, held, n, i);
    }
    let f = Seq::new(n as nat, |s: int| span_mid(spans[s]));
    assert forall|i: int| 0 <= i < f.len() implies 0 <= #[trigger] f[i] < cur.len() by {
        assert(span_ok(spans[i], n));
    }
    assert forall|i: int, j: int| 0 <= i < j < f.len() implies f[i] != f[j] by {
        assert(beside(spans[i], spans[j]));
        assert(span_ok(spans[i], n));
        assert(span_ok(spans[j], n));
    }
    assert forall|i: int| 0 <= i < points(out).len() implies #[trigger] points(out)[i]
        == cur[f[i]] by {
        assert(node_fits(out, spans, cur, i));
    }
    lemma_reindexed_multiset(cur, points(out), f);
}

impl<C: Ord + Copy, V: Default> Tree2D<C, V> {
    /// Create a new tree from the given nodes.
    ///
    /// The nodes are subdivided level by level into the ones behind and the
    /// ones in front of the line that goes through the median node. The
    /// line is vertical at the root and turns by a quarter with each level.
    ///
    /// The values are moved from the vector without copying.
    pub fn from_nodes(nodes: Vec<([C; 2], V)>) -> (tree: Self)
        requires
            nodes@.len() < u32::MAX,
            total_order::<C>(),
        ensures
            tree.wf(),
            tree@.len() == nodes@.len(),
            points(tree@).to_multiset() == nodes@.to_multiset(),
            kd_ordered(tree@),
            balanced(tree@),
    {
        let ghost given = nodes@;
        let mut nodes = nodes;
        let n = nodes.len();
        let mut out: Vec<Node<C, V>> = Vec::with_capacity(n);
        let mut queue: VecDeque<(usize, usize, usize)> = VecDeque::new();
        let mut handed_out: u32 = 0;
        let ghost mut spans: Seq<Span> = Seq::empty();
        let ghost mut cur: Seq<([C; 2], V)> = nodes@;
        if n > 0 {
            queue.push_back((0, 0, n));
            handed_out = 1;
            proof {
                spans = spans.push((0usize, 0usize, n));
                lemma_pending_push(Seq::empty(), (0usize, 0usize, n));
                assert(queue@ == Seq::<(usize, usize, usize)>::empty().push((0usize, 0usize, n)));
                assert(queue@ =~= spans.skip(0));
            }
        }
        while queue.len() > 0
            invariant
                n == nodes@.len(),
                n < u32::MAX,
                total_order::<C>(),
                out@.len() + pending(queue@) == n,
                handed_out == out@.len() + queue@.len(),
                links_before(out@, out@.len() as int) + 1 == handed_out || (n == 0 && handed_out
                    == 0),
                forall|i: int| 0 <= i < out@.len() ==> #[trigger] placed(out@, i),
                spans.len() == handed_out,
                queue@ == spans.skip(out@.len() as int),
                building(out@, spans, cur, nodes@, n as int),
                cur.to_multiset() == given.to_multiset(),
                n > 0 ==> spans.len() > 0 && spans[0] == (0usize, 0usize, n),
            decreases n - out@.len(),
        {
            let ghost old_out = out@;
            let ghost old_spans = spans;
            let ghost old_cur = cur;
            let ghost held = nodes@;
            proof {
                assert forall|j: int| 0 <= j < queue@.len() implies (#[trigger] queue@[j]).1
                    < queue@[j].2 by {
                    assert(queue@[j] == spans[out@.len() + j]);
                    assert(span_ok(spans[out@.len() + j], n as int));
                }
                lemma_pending_covers(queue@);
                lemma_pending_pop_front(queue@);
                assert(queue@[0] == spans[out@.len() as int]);
                assert(span_ok(spans[out@.len() as int], n as int));
            }
            let (axis, lo, hi) = queue.pop_front().unwrap();
            let ghost sp: Span = (axis, lo, hi);
            proof {
                assert forall|j: int| 0 <= j < queue@.len() implies (#[trigger] queue@[j]).1
                    < queue@[j].2 by {
                    assert(queue@[j] == old_spans[old_out.len() + 1 + j]);
                    assert(span_ok(old_spans[old_out.len() + 1 + j], n as int));
                }
                lemma_pending_covers(queue@);
            }
            let mid = lo + (hi - lo) / 2;
            if hi - lo > 1 {
                select_nth_on_axis(&mut nodes, lo, hi, mid - lo, axis);
            }
            let ghost after = nodes@;
            let mut lesser_index = EMPTY;
            if lo < mid {
                proof {
                    lemma_pending_push(queue@, lesser_half(sp));
                    spans = spans.push(lesser_half(sp));
                }
                handed_out += 1;
                lesser_index = handed_out;
                queue.push_back((1 - axis, lo, mid));
            }
            let mut greater_index = EMPTY;
            if mid + 1 < hi {
                proof {
                    lemma_pending_push(queue@, greater_half(sp));
                    spans = spans.push(greater_half(sp));
                }
                handed_out += 1;
                greater_index = handed_out;
                queue.push_back((1 - axis, mid + 1, hi));
            }
            let mut value = V::default();
            core::mem::swap(&mut value, &mut nodes[mid].1);
            let location = nodes[mid].0;
            let node = Node { location, value, lesser_index, greater_index };
            proof {
                assert(spans == grown(old_spans, sp));
                lemma_build_step(old_out, old_spans, old_cur, held, after, nodes@, node, n as int);
                cur = merged(old_cur, after, sp);
            }
            out.push(node);
            proof {
                assert forall|i: int| 0 <= i < out@.len() implies #[trigger] placed(out@, i) by {
                    lemma_links_before_prefix(old_out, out@, i);
                    if i < old_out.len() {
                        assert(placed(old_out, i));
                    }
                }
                lemma_links_before_prefix(old_out, out@, old_out.len() as int);
                assert(queue@ =~= spans.skip(out@.len() as int));
            }
        }
        proof {
            assert(pending(queue@) == 0);
            lemma_built(out@, spans, cur, nodes@, n as int);
        }
        Tree2D { nodes: out }
    }
}

} // verus!
