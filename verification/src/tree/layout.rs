//! What follows from the breadth-first layout of a tree.

use super::{breadth_first, in_subtree, links_before, placed, EMPTY, Node};
use vstd::prelude::*;

verus! {

pub proof fn lemma_links_before_grows<C, V>(nodes: Seq<Node<C, V>>, i: int, j: int)
    requires
        0 <= i <= j,
    ensures
        links_before(nodes, i) <= links_before(nodes, j),
        links_before(nodes, j) <= links_before(nodes, i) + 2 * (j - i),
    decreases j - i,
{
    if i < j {
        lemma_links_before_grows(nodes, i, j - 1);
    }
}

/// In a tree laid out breadth-first the children of a node stand behind
/// it in the array.
pub proof fn lemma_children<C, V>(nodes: Seq<Node<C, V>>, at: int)
    requires
        breadth_first(nodes),
        0 <= at < nodes.len(),
    ensures
        nodes[at].lesser_index != EMPTY ==> at < nodes[at].lesser() < nodes.len(),
        nodes[at].greater_index != EMPTY ==> at < nodes[at].greater() < nodes.len(),
        nodes[at].lesser_index != EMPTY && nodes[at].greater_index != EMPTY ==> nodes[at].lesser()
            < nodes[at].greater(),
{
    assert(placed(nodes, at));
    lemma_links_before_grows(nodes, at + 1, nodes.len() as int);
    assert(links_before(nodes, at + 1) == links_before(nodes, at) + nodes[at].links());
}

/// A subtree holds the subtrees of its nodes.
pub proof fn lemma_subtree_transitive<C, V>(nodes: Seq<Node<C, V>>, root: int, mid: int, x: int)
    requires
        in_subtree(nodes, root, mid),
        in_subtree(nodes, mid, x),
    ensures
        in_subtree(nodes, root, x),
    decreases nodes.len() - root,
{
    if mid != root {
        let l = nodes[root].lesser();
        let g = nodes[root].greater();
        if root < l < nodes.len() && in_subtree(nodes, l, mid) {
            lemma_subtree_transitive(nodes, l, mid, x);
        } else {
            lemma_subtree_transitive(nodes, g, mid, x);
        }
    }
}

/// In a tree laid out breadth-first every node but the first is the
/// child of an earlier one.
pub proof fn lemma_parent<C, V>(nodes: Seq<Node<C, V>>, x: int, upto: int) -> (p: int)
    requires
        breadth_first(nodes),
        0 < x < nodes.len(),
        0 <= upto <= nodes.len(),
        x <= links_before(nodes, upto),
    ensures
        0 <= p < x,
        p < upto,
        nodes[p].lesser() == x || nodes[p].greater() == x,
    decreases upto,
{
    if upto == 0 {
        0
    } else if x <= links_before(nodes, upto - 1) {
        lemma_parent(nodes, x, upto - 1)
    } else {
        assert(placed(nodes, upto - 1));
        upto - 1
    }
}

/// In a tree laid out breadth-first no node is the child of two nodes,
/// nor both children of one.
pub proof fn lemma_one_parent<C, V>(nodes: Seq<Node<C, V>>, p: int, q: int, x: int)
    requires
        breadth_first(nodes),
        0 <= p < nodes.len(),
        0 <= q < nodes.len(),
        0 <= x,
        nodes[p].lesser() == x || nodes[p].greater() == x,
        nodes[q].lesser() == x || nodes[q].greater() == x,
    ensures
        p == q,
        !(nodes[p].lesser() == x && nodes[p].greater() == x),
{
    assert(placed(nodes, p));
    assert(placed(nodes, q));
    assert(links_before(nodes, p + 1) == links_before(nodes, p) + nodes[p].links());
    assert(links_before(nodes, q + 1) == links_before(nodes, q) + nodes[q].links());
    if p < q {
        lemma_links_before_grows(nodes, p + 1, q);
    } else if q < p {
        lemma_links_before_grows(nodes, q + 1, p);
    }
}

/// In a tree laid out breadth-first every node lies in the subtree of the
/// first.
pub proof fn lemma_all_below_root<C, V>(nodes: Seq<Node<C, V>>, x: int)
    requires
        breadth_first(nodes),
        0 <= x < nodes.len(),
    ensures
        in_subtree(nodes, 0, x),
    decreases x,
{
    if x > 0 {
        let p = lemma_parent(nodes, x, nodes.len() as int);
        lemma_all_below_root(nodes, p);
        lemma_children(nodes, p);
        assert(in_subtree(nodes, x, x));
        assert(in_subtree(nodes, p, x));
        lemma_subtree_transitive(nodes, 0, p, x);
    }
}

} // verus!
