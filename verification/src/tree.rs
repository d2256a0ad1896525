//! The tree itself: a flat array of nodes in breadth-first order.

use crate::order::at_most;
use vstd::prelude::*;

pub mod agree;
pub mod construct;
pub mod decoding;
pub mod encoding;
pub mod gather;
pub mod hidden;
pub mod io;
pub mod layout;
pub mod restore;
pub mod round_trip;
pub mod scan;
pub mod search;

verus! {

/// The child reference that stands for "no child".
pub const EMPTY: u32 = 0;

/// One point of the tree with the references to its two children.
///
/// A child reference is the child's position in the array plus one, or
/// `EMPTY`.
#[derive(Debug, PartialEq, Eq, Default, Clone, Copy)]
pub struct Node<C, V> {
    pub location: [C; 2],
    pub value: V,
    pub lesser_index: u32,
    pub greater_index: u32,
}

impl<C, V> Node<C, V> {
    /// Array position of the lesser child, `-1` if there is none.
    pub open spec fn lesser(self) -> int {
        self.lesser_index as int - 1
    }

    /// Array position of the greater child, `-1` if there is none.
    pub open spec fn greater(self) -> int {
        self.greater_index as int - 1
    }

    /// How many children the node has.
    pub open spec fn links(self) -> int {
        (if self.lesser_index != EMPTY {
            1int
        } else {
            0int
        }) + (if self.greater_index != EMPTY {
            1int
        } else {
            0int
        })
    }
}

/// How many child references the first `i` nodes hold together.
pub open spec fn links_before<C, V>(nodes: Seq<Node<C, V>>, i: int) -> int
    decreases i,
{
    if i <= 0 {
        0
    } else {
        links_before(nodes, i - 1) + nodes[i - 1].links()
    }
}

/// Node `i` sits where breadth-first numbering puts it: it was handed out
/// by an earlier node (or is the root), and its children take the next free
/// positions, lesser first.
pub open spec fn placed<C, V>(nodes: Seq<Node<C, V>>, i: int) -> bool {
    let free = links_before(nodes, i) + 1;
    let node = nodes[i];
    &&& i < free
    &&& node.lesser_index != EMPTY ==> node.lesser() == free
    &&& node.greater_index != EMPTY ==> node.greater() == free + (if node.lesser_index != EMPTY {
        1int
    } else {
        0int
    })
}

/// The array is a tree laid out in breadth-first order without gaps: the
/// root is first, every other node is referenced by exactly one earlier
/// node, and references are handed out in increasing order.
pub open spec fn breadth_first<C, V>(nodes: Seq<Node<C, V>>) -> bool {
    &&& nodes.len() <= u32::MAX
    &&& forall|i: int| 0 <= i < nodes.len() ==> #[trigger] placed(nodes, i)
    &&& nodes.len() > 0 ==> links_before(nodes, nodes.len() as int) == nodes.len() - 1
}

/// Whether the child references lay the nodes out breadth-first.
pub fn is_breadth_first<C, V>(nodes: &Vec<Node<C, V>>) -> (ok: bool)
    ensures
        ok == breadth_first(nodes@),
{
    let n = nodes.len();
    if n > u32::MAX as usize {
        return false;
    }
    let mut links: u64 = 0;
    let mut i: usize = 0;
    while i < n
        invariant
            i <= n,
            n == nodes@.len(),
            n <= u32::MAX,
            links == links_before(nodes@, i as int),
            links <= 2 * i,
            forall|j: int| 0 <= j < i ==> #[trigger] placed(nodes@, j),
        decreases n - i,
    {
        let node = &nodes[i];
        let free = links + 1;
        let mut ok = (i as u64) < free;
        if node.lesser_index != EMPTY {
            ok = ok && (node.lesser_index - 1) as u64 == free;
            links += 1;
        }
        if node.greater_index != EMPTY {
            ok = ok && (node.greater_index - 1) as u64 == links + 1;
            links += 1;
        }
        if !ok {
            proof {
                assert(!placed(nodes@, i as int));
            }
            return false;
        }
        i += 1;
    }
    n == 0 || links == (n - 1) as u64
}

/// The locations and values of the nodes, in array order.
pub open spec fn points<C, V>(nodes: Seq<Node<C, V>>) -> Seq<([C; 2], V)> {
    Seq::new(nodes.len(), |i: int| (nodes[i].location, nodes[i].value))
}

/// Position `x` belongs to the subtree whose root is at position `root`.
pub open spec fn in_subtree<C, V>(nodes: Seq<Node<C, V>>, root: int, x: int) -> bool
    decreases nodes.len() - root,
{
    if root < 0 || root >= nodes.len() {
        false
    } else if x == root {
        true
    } else {
        let l = nodes[root].lesser();
        let g = nodes[root].greater();
        ||| (root < l < nodes.len() && in_subtree(nodes, l, x))
        ||| (root < g < nodes.len() && in_subtree(nodes, g, x))
    }
}

/// How many nodes the subtree at position `root` holds.
pub open spec fn subtree_size<C, V>(nodes: Seq<Node<C, V>>, root: int) -> nat
    decreases nodes.len() - root,
{
    if root < 0 || root >= nodes.len() {
        0
    } else {
        let l = nodes[root].lesser();
        let g = nodes[root].greater();
        1 + (if root < l < nodes.len() {
            subtree_size(nodes, l)
        } else {
            0
        }) + (if root < g < nodes.len() {
            subtree_size(nodes, g)
        } else {
            0
        })
    }
}

/// On `axis`, nothing below the lesser child of `root` is greater than
/// `root`, and nothing below its greater child is lesser.
pub open spec fn splits<C: Ord, V>(nodes: Seq<Node<C, V>>, root: int, axis: int) -> bool {
    let l = nodes[root].lesser();
    let g = nodes[root].greater();
    &&& forall|x: int| #[trigger]
        in_subtree(nodes, l, x) ==> at_most(nodes[x].location[axis], nodes[root].location[axis])
    &&& forall|x: int| #[trigger]
        in_subtree(nodes, g, x) ==> at_most(nodes[root].location[axis], nodes[x].location[axis])
}

/// Every node of the subtree at `root` splits its own subtree, on an axis
/// that starts with `axis` at `root` and alternates with each level.
pub open spec fn ordered_from<C: Ord, V>(nodes: Seq<Node<C, V>>, root: int, axis: int) -> bool
    decreases nodes.len() - root,
{
    if root < 0 || root >= nodes.len() {
        true
    } else {
        let l = nodes[root].lesser();
        let g = nodes[root].greater();
        &&& splits(nodes, root, axis)
        &&& (root < l < nodes.len() ==> ordered_from(nodes, l, 1 - axis))
        &&& (root < g < nodes.len() ==> ordered_from(nodes, g, 1 - axis))
    }
}

/// The whole tree is ordered, the root splitting on axis 0.
pub open spec fn kd_ordered<C: Ord, V>(nodes: Seq<Node<C, V>>) -> bool {
    ordered_from(nodes, 0, 0)
}

/// Every node is the lower median of its subtree: its lesser side holds
/// half of the subtree's nodes, rounded down.
pub open spec fn balanced<C, V>(nodes: Seq<Node<C, V>>) -> bool {
    forall|i: int|
        0 <= i < nodes.len() ==> subtree_size(nodes, nodes[i].lesser()) == #[trigger] subtree_size(
            nodes,
            i,
        ) / 2
}

/// Two-dimensional tree that maps a location given by `[C; 2]` to a value `V`.
#[derive(Debug, PartialEq, Eq)]
pub struct Tree2D<C, V> {
    nodes: Vec<Node<C, V>>,
}

/// Two-dimensional tree that maps a location given by `[i64; 2]` to a string.
pub type NamesTree = Tree2D<i64, String>;

impl<C, V> View for Tree2D<C, V> {
    type V = Seq<Node<C, V>>;

    closed spec fn view(&self) -> Seq<Node<C, V>> {
        self.nodes@
    }
}

impl<C, V> Tree2D<C, V> {
    #[verifier::type_invariant]
    spec fn layout_holds(self) -> bool {
        breadth_first(self.nodes@)
    }

    /// The nodes are laid out breadth-first. Holds of every tree.
    pub open spec fn wf(&self) -> bool {
        breadth_first(self@)
    }

    /// Returns the nodes' locations and values in array order.
    pub fn iter(&self) -> (items: Vec<(&[C; 2], &V)>)
        ensures
            self.wf(),
            items@.len() == self@.len(),
            forall|i: int|
                0 <= i < self@.len() ==> #[trigger] items@[i] == (
                    &self@[i].location,
                    &self@[i].value,
                ),
    {
        proof {
            use_type_invariant(self);
        }
        let mut items: Vec<(&[C; 2], &V)> = Vec::with_capacity(self.nodes.len());
        let mut i: usize = 0;
        while i < self.nodes.len()
            invariant
                i <= self.nodes.len(),
                items@.len() == i,
                forall|j: int|
                    0 <= j < i ==> #[trigger] items@[j] == (
                        &self.nodes@[j].location,
                        &self.nodes@[j].value,
                    ),
            decreases self.nodes.len() - i,
        {
            let node = &self.nodes[i];
            items.push((&node.location, &node.value));
            i += 1;
        }
        items
    }

    /// Returns the number of nodes.
    pub fn len(&self) -> (n: usize)
        ensures
            self.wf(),
            n == self@.len(),
    {
        proof {
            use_type_invariant(self);
        }
        self.nodes.len()
    }

    /// Returns `true` if the tree is empty.
    pub fn is_empty(&self) -> (b: bool)
        ensures
            self.wf(),
            b == (self@.len() == 0),
    {
        proof {
            use_type_invariant(self);
        }
        self.nodes.len() == 0
    }
}

} // verus!
