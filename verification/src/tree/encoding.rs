//! The binary encoding of a tree of names, as a function of the tree.

use super::Node;
use crate::dictionary::{concat, dictionary, place};
use crate::words::split;
use crate::write::{magnitude_bytes, magnitude_monotonic_bytes, sign_magnitude_bytes, u32_bytes};
use vstd::prelude::*;
use vstd::utf8::encode_utf8;

verus! {

/// A node whose value is a name, given as its text.
pub type Named = Node<i64, Seq<char>>;

/// The nodes of a tree of names with the names as text.
pub open spec fn texts(nodes: Seq<Node<i64, String>>) -> Seq<Named> {
    Seq::new(
        nodes.len(),
        |i: int|
            Node {
                location: nodes[i].location,
                value: nodes[i].value@,
                lesser_index: nodes[i].lesser_index,
                greater_index: nodes[i].greater_index,
            },
    )
}

/// The words of a node's name.
pub open spec fn words_of(node: Named) -> Seq<Seq<u8>> {
    split(encode_utf8(node.value))
}

/// The first coordinates of the nodes.
pub open spec fn longitudes(nodes: Seq<Named>) -> Seq<i64> {
    Seq::new(nodes.len(), |i: int| nodes[i].location[0])
}

/// The second coordinates of the nodes.
pub open spec fn latitudes(nodes: Seq<Named>) -> Seq<i64> {
    Seq::new(nodes.len(), |i: int| nodes[i].location[1])
}

/// The references to the lesser children.
pub open spec fn lessers(nodes: Seq<Named>) -> Seq<u32> {
    Seq::new(nodes.len(), |i: int| nodes[i].lesser_index)
}

/// The references to the greater children.
pub open spec fn greaters(nodes: Seq<Named>) -> Seq<u32> {
    Seq::new(nodes.len(), |i: int| nodes[i].greater_index)
}

/// How many words each name has.
pub open spec fn word_counts(nodes: Seq<Named>) -> Seq<u32> {
    Seq::new(nodes.len(), |i: int| words_of(nodes[i]).len() as u32)
}

/// The words of all names, node by node.
pub open spec fn all_words(nodes: Seq<Named>) -> Seq<Seq<u8>>
    decreases nodes.len(),
{
    if nodes.len() == 0 {
        Seq::empty()
    } else {
        all_words(nodes.drop_last()) + words_of(nodes.last())
    }
}

/// The dictionary of a tree: the words of all names, each once, sorted.
pub open spec fn word_list(nodes: Seq<Named>) -> Seq<Seq<u8>> {
    dictionary(all_words(nodes))
}

/// The lengths of the words of a dictionary.
pub open spec fn word_lens(dict: Seq<Seq<u8>>) -> Seq<u32> {
    Seq::new(dict.len(), |i: int| dict[i].len() as u32)
}

/// The places of the words in the dictionary.
pub open spec fn refs_of(dict: Seq<Seq<u8>>, words: Seq<Seq<u8>>) -> Seq<u32> {
    Seq::new(words.len(), |j: int| place(dict, words[j]) as u32)
}

/// The words of all names as places in the dictionary.
pub open spec fn word_refs(nodes: Seq<Named>) -> Seq<u32> {
    refs_of(word_list(nodes), all_words(nodes))
}

/// The encoding can count the tree: its nodes, its words, and the bytes
/// of each word of its dictionary.
pub open spec fn encodable(nodes: Seq<Named>) -> bool {
    &&& nodes.len() <= u32::MAX
    &&& all_words(nodes).len() <= u32::MAX
    &&& forall|i: int|
        0 <= i < word_list(nodes).len() ==> (#[trigger] word_list(nodes)[i]).len() <= u32::MAX
}

/// The first part of the encoding: the number of nodes, then a sequence
/// each for the coordinates, the child references and the word counts.
pub open spec fn columns_bytes(nodes: Seq<Named>) -> Seq<u8> {
    u32_bytes(nodes.len() as u32) + sign_magnitude_bytes(longitudes(nodes)) + sign_magnitude_bytes(
        latitudes(nodes),
    ) + magnitude_monotonic_bytes(lessers(nodes)) + magnitude_monotonic_bytes(greaters(nodes))
        + magnitude_bytes(word_counts(nodes))
}

/// The second part: the number of words in the dictionary, their lengths,
/// and their bytes without anything between them.
pub open spec fn dictionary_bytes(dict: Seq<Seq<u8>>) -> Seq<u8> {
    u32_bytes(dict.len() as u32) + magnitude_bytes(word_lens(dict)) + concat(dict)
}

/// The third part: the number of word references, and the references.
pub open spec fn refs_bytes(refs: Seq<u32>) -> Seq<u8> {
    u32_bytes(refs.len() as u32) + magnitude_bytes(refs)
}

/// The encoding of a tree of names.
pub open spec fn tree_bytes(nodes: Seq<Named>) -> Seq<u8> {
    columns_bytes(nodes) + dictionary_bytes(word_list(nodes)) + refs_bytes(word_refs(nodes))
}

} // verus!
