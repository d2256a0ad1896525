//! A written tree is read back as it was.

use super::decoding::{
    advance, name_words, nodes_of, parse_columns, parse_dictionary, parse_names, parse_refs,
    parse_tree, parse_words, refs_valid, words_before, Columns,
};
use super::encoding::{
    all_words, columns_bytes, dictionary_bytes, encodable, greaters, latitudes, lessers, longitudes,
    refs_bytes, tree_bytes, word_counts, word_lens, word_list, word_refs, words_of, Named,
};
use super::io::lemma_all_words_grow;
use super::{breadth_first, Node};
use crate::codec::{
    lemma_magnitude_monotonic_round_trip, lemma_magnitude_round_trip,
    lemma_sign_magnitude_round_trip,
};
use crate::dictionary::{
    concat, dictionary, has_word, lemma_dictionary, lemma_place_of_member, strictly_sorted,
};
use crate::error::Error;
use crate::format::{lemma_le_bytes_len, lemma_le_value_of_bytes, lemma_limits};
use crate::read::{parse_magnitude, parse_magnitude_monotonic, parse_sign_magnitude, parse_u32};
use crate::words::{decoded, join_text, lemma_split_len, lemma_split_text};
use crate::write::{magnitude_bytes, magnitude_monotonic_bytes, sign_magnitude_bytes, u32_bytes};
use vstd::prelude::*;
use vstd::utf8::{
    decode_utf8, encode_utf8, encode_utf8_decode_utf8, encode_utf8_valid_utf8, valid_utf8,
};

verus! {

/// A `u32` written in four bytes is read back, with what follows it left.
pub proof fn lemma_u32_round_trip(value: u32, rest: Seq<u8>)
    ensures
        advance(parse_u32(u32_bytes(value) + rest), u32_bytes(value) + rest) == Ok::<
            (u32, Seq<u8>),
            Error,
        >((value, rest)),
{
    let bytes = u32_bytes(value) + rest;
    lemma_limits();
    lemma_le_bytes_len(value as nat, 4);
    lemma_le_value_of_bytes(value as nat, 4);
    assert(bytes.take(4) =~= u32_bytes(value));
    assert(bytes.skip(4) =~= rest);
}

/// A sequence of `i64` is read back, with what follows it left.
proof fn lemma_take_sign_magnitude(values: Seq<i64>, rest: Seq<u8>)
    ensures
        advance(
            parse_sign_magnitude(sign_magnitude_bytes(values) + rest, values.len()),
            sign_magnitude_bytes(values) + rest,
        ) == Ok::<(Seq<i64>, Seq<u8>), Error>((values, rest)),
{
    lemma_sign_magnitude_round_trip(values, rest);
    assert((sign_magnitude_bytes(values) + rest).skip(sign_magnitude_bytes(values).len() as int)
        =~= rest);
}

/// A sequence of `u32` written as differences is read back, with what
/// follows it left.
proof fn lemma_take_monotonic(values: Seq<u32>, rest: Seq<u8>)
    ensures
        advance(
            parse_magnitude_monotonic(magnitude_monotonic_bytes(values) + rest, values.len()),
            magnitude_monotonic_bytes(values) + rest,
        ) == Ok::<(Seq<u32>, Seq<u8>), Error>((values, rest)),
{
    lemma_magnitude_monotonic_round_trip(values, rest);
    assert((magnitude_monotonic_bytes(values) + rest).skip(
        magnitude_monotonic_bytes(values).len() as int,
    ) =~= rest);
}

/// A sequence of `u32` written as it is is read back, with what follows
/// it left.
proof fn lemma_take_magnitude(values: Seq<u32>, rest: Seq<u8>)
    ensures
        advance(
            parse_magnitude(magnitude_bytes(values) + rest, values.len()),
            magnitude_bytes(values) + rest,
        ) == Ok::<(Seq<u32>, Seq<u8>), Error>((values, rest)),
{
    lemma_magnitude_round_trip(values, rest);
    assert((magnitude_bytes(values) + rest).skip(magnitude_bytes(values).len() as int) =~= rest);
}

/// The first part of an encoding is read back as the columns of the tree.
pub proof fn lemma_columns_round_trip(nodes: Seq<Named>, rest: Seq<u8>)
    requires
        nodes.len() <= u32::MAX,
    ensures
        parse_columns(columns_bytes(nodes) + rest) == Ok::<(Columns, Seq<u8>), Error>(
            (
                (Columns {
                    longitudes: longitudes(nodes),
                    latitudes: latitudes(nodes),
                    lessers: lessers(nodes),
                    greaters: greaters(nodes),
                    counts: word_counts(nodes),
                }),
                rest,
            ),
        ),
{
    reveal(parse_columns);
    let n = nodes.len() as u32;
    let a1 = sign_magnitude_bytes(longitudes(nodes));
    let a2 = sign_magnitude_bytes(latitudes(nodes));
    let a3 = magnitude_monotonic_bytes(lessers(nodes));
    let a4 = magnitude_monotonic_bytes(greaters(nodes));
    let a5 = magnitude_bytes(word_counts(nodes));
    let t5 = rest;
    let t4 = a5 + t5;
    let t3 = a4 + t4;
    let t2 = a3 + t3;
    let t1 = a2 + t2;
    let t0 = a1 + t1;
    let bytes = columns_bytes(nodes) + rest;
    assert(bytes =~= u32_bytes(n) + t0);
    lemma_u32_round_trip(n, t0);
    lemma_take_sign_magnitude(longitudes(nodes), t1);
    lemma_take_sign_magnitude(latitudes(nodes), t2);
    lemma_take_monotonic(lessers(nodes), t3);
    lemma_take_monotonic(greaters(nodes), t4);
    lemma_take_magnitude(word_counts(nodes), t5);
}

/// The words of a dictionary one after the other, seen from the front.
proof fn lemma_concat_front(dict: Seq<Seq<u8>>)
    requires
        dict.len() > 0,
    ensures
        concat(dict) == dict[0] + concat(dict.skip(1)),
    decreases dict.len(),
{
    if dict.len() == 1 {
        assert(dict.drop_last() =~= Seq::<Seq<u8>>::empty());
        assert(dict.skip(1) =~= Seq::<Seq<u8>>::empty());
        assert(concat(dict) =~= dict[0] + concat(dict.skip(1)));
    } else {
        lemma_concat_front(dict.drop_last());
        assert(dict.drop_last().skip(1) =~= dict.skip(1).drop_last());
        assert(dict.skip(1).last() == dict.last());
        assert(concat(dict) =~= dict[0] + concat(dict.skip(1)));
    }
}

/// The words of a dictionary are read back as their text.
proof fn lemma_words_round_trip(dict: Seq<Seq<u8>>, rest: Seq<u8>)
    requires
        forall|i: int| 0 <= i < dict.len() ==> (#[trigger] dict[i]).len() <= u32::MAX,
        forall|i: int| 0 <= i < dict.len() ==> valid_utf8(#[trigger] dict[i]),
    ensures
        parse_words(concat(dict) + rest, word_lens(dict)) == Ok::<
            (Seq<Seq<char>>, Seq<u8>),
            Error,
        >((decoded(dict), rest)),
    decreases dict.len(),
{
    let bytes = concat(dict) + rest;
    let lens = word_lens(dict);
    if dict.len() == 0 {
        assert(bytes =~= rest);
        assert(decoded(dict) =~= Seq::<Seq<char>>::empty());
    } else {
        let later = dict.skip(1);
        lemma_concat_front(dict);
        lemma_words_round_trip(later, rest);
        assert(lens.skip(1) =~= word_lens(later));
        assert(lens[0] == dict[0].len());
        assert(bytes.take(lens[0] as int) =~= dict[0]);
        assert(bytes.skip(lens[0] as int) =~= concat(later) + rest);
        assert(seq![decode_utf8(dict[0])] + decoded(later) =~= decoded(dict));
    }
}

/// The second part of an encoding is read back as the text of the
/// dictionary.
pub proof fn lemma_dictionary_round_trip(dict: Seq<Seq<u8>>, rest: Seq<u8>)
    requires
        dict.len() <= u32::MAX,
        forall|i: int| 0 <= i < dict.len() ==> (#[trigger] dict[i]).len() <= u32::MAX,
        forall|i: int| 0 <= i < dict.len() ==> valid_utf8(#[trigger] dict[i]),
    ensures
        parse_dictionary(dictionary_bytes(dict) + rest) == Ok::<(Seq<Seq<char>>, Seq<u8>), Error>(
            (decoded(dict), rest),
        ),
{
    reveal(parse_dictionary);
    let m = dict.len() as u32;
    let t1 = concat(dict) + rest;
    let t0 = magnitude_bytes(word_lens(dict)) + t1;
    assert(dictionary_bytes(dict) + rest =~= u32_bytes(m) + t0);
    lemma_u32_round_trip(m, t0);
    lemma_take_magnitude(word_lens(dict), t1);
    lemma_words_round_trip(dict, rest);
}

/// The third part of an encoding is read back as the word references.
pub proof fn lemma_refs_round_trip(refs: Seq<u32>, rest: Seq<u8>)
    requires
        refs.len() <= u32::MAX,
    ensures
        parse_refs(refs_bytes(refs) + rest) == Ok::<(Seq<u32>, Seq<u8>), Error>((refs, rest)),
{
    reveal(parse_refs);
    let r = refs.len() as u32;
    let t0 = magnitude_bytes(refs) + rest;
    assert(refs_bytes(refs) + rest =~= u32_bytes(r) + t0);
    lemma_u32_round_trip(r, t0);
    lemma_take_magnitude(refs, rest);
}

/// Where the words of the `i`-th name stand among the words of all names.
proof fn lemma_all_words_index(nodes: Seq<Named>, i: int, j: int)
    requires
        0 <= i < nodes.len(),
        0 <= j < words_of(nodes[i]).len(),
    ensures
        all_words(nodes.take(i)).len() + words_of(nodes[i]).len() <= all_words(nodes).len(),
        all_words(nodes)[all_words(nodes.take(i)).len() + j] == words_of(nodes[i])[j],
    decreases nodes.len(),
{
    let before = nodes.drop_last();
    if i == nodes.len() - 1 {
        assert(nodes.take(i) =~= before);
    } else {
        lemma_all_words_index(before, i, j);
        assert(before.take(i) =~= nodes.take(i));
    }
}

/// The word counts of the first `i` names add up to the number of their
/// words.
proof fn lemma_words_before(nodes: Seq<Named>, i: int)
    requires
        all_words(nodes).len() <= u32::MAX,
        0 <= i <= nodes.len(),
    ensures
        words_before(word_counts(nodes), i) == all_words(nodes.take(i)).len(),
    decreases i,
{
    if i > 0 {
        lemma_words_before(nodes, i - 1);
        lemma_all_words_grow(nodes, i);
        assert(nodes.take(i).drop_last() =~= nodes.take(i - 1));
        assert(nodes.take(i).last() == nodes[i - 1]);
    } else {
        assert(nodes.take(0) =~= Seq::<Named>::empty());
    }
}

/// Every word of every name is valid text.
proof fn lemma_all_words_valid(nodes: Seq<Named>)
    ensures
        forall|p: int|
            0 <= p < all_words(nodes).len() ==> valid_utf8(#[trigger] all_words(nodes)[p]),
    decreases nodes.len(),
{
    if nodes.len() > 0 {
        let before = nodes.drop_last();
        lemma_all_words_valid(before);
        encode_utf8_valid_utf8(nodes.last().value);
        lemma_split_text(encode_utf8(nodes.last().value));
        assert forall|p: int| 0 <= p < all_words(nodes).len() implies valid_utf8(
            #[trigger] all_words(nodes)[p],
        ) by {
            if p < all_words(before).len() {
                assert(all_words(nodes)[p] == all_words(before)[p]);
            } else {
                assert(all_words(nodes)[p] == words_of(nodes.last())[p - all_words(before).len()]);
            }
        }
    }
}

/// The words of the dictionary of a tree are valid text.
proof fn lemma_word_list_valid(nodes: Seq<Named>)
    ensures
        forall|i: int|
            0 <= i < word_list(nodes).len() ==> valid_utf8(#[trigger] word_list(nodes)[i]),
        strictly_sorted(word_list(nodes)),
        word_list(nodes).len() <= all_words(nodes).len(),
{
    let dict = word_list(nodes);
    let all = all_words(nodes);
    lemma_dictionary(all);
    lemma_all_words_valid(nodes);
    assert forall|i: int| 0 <= i < dict.len() implies valid_utf8(#[trigger] dict[i]) by {
        lemma_place_of_member(dict, i);
        assert(all.contains(dict[i]));
        let p = choose|p: int| 0 <= p < all.len() && all[p] == dict[i];
        assert(valid_utf8(all[p]));
    }
}

/// The word references of a tree, read against its dictionary, spell the
/// names of the tree.
pub proof fn lemma_names_round_trip(nodes: Seq<Named>)
    requires
        encodable(nodes),
    ensures
        parse_names(word_counts(nodes), decoded(word_list(nodes)), word_refs(nodes)) == Ok::<
            Seq<Seq<char>>,
            Error,
        >(Seq::new(nodes.len(), |i: int| nodes[i].value)),
{
    reveal(parse_names);
    let counts = word_counts(nodes);
    let dict = word_list(nodes);
    let words = decoded(dict);
    let all = all_words(nodes);
    let refs = word_refs(nodes);
    let n = nodes.len() as int;
    lemma_dictionary(all);
    lemma_words_before(nodes, n);
    assert(nodes.take(n) =~= nodes);
    assert forall|p: int| 0 <= p < all.len() implies (#[trigger] refs[p]) < words.len()
        && dict[refs[p] as int] == all[p] by {
        assert(all.contains(all[p]));
        assert(has_word(dict, all[p]));
    }
    assert(refs_valid(counts, words.len(), refs));
    assert forall|i: int| 0 <= i < n implies join_text(name_words(counts, words, refs, i))
        == nodes[i].value by {
        let name = encode_utf8(nodes[i].value);
        let mine = words_of(nodes[i]);
        lemma_words_before(nodes, i);
        lemma_split_len(name);
        assert(mine.len() >= 1);
        lemma_all_words_index(nodes, i, 0);
        assert(counts[i] == mine.len());
        assert forall|j: int| 0 <= j < mine.len() implies name_words(counts, words, refs, i)[j]
            == decoded(mine)[j] by {
            lemma_all_words_index(nodes, i, j);
            let p = words_before(counts, i) + j;
            assert(dict[refs[p] as int] == all[p]);
        }
        assert(name_words(counts, words, refs, i) =~= decoded(mine));
        encode_utf8_valid_utf8(nodes[i].value);
        lemma_split_text(name);
        encode_utf8_decode_utf8(nodes[i].value);
    }
    assert(Seq::new(counts.len(), |i: int| join_text(name_words(counts, words, refs, i)))
        =~= Seq::new(nodes.len(), |i: int| nodes[i].value));
}

/// The columns of a tree.
pub open spec fn columns_of(nodes: Seq<Named>) -> Columns {
    Columns {
        longitudes: longitudes(nodes),
        latitudes: latitudes(nodes),
        lessers: lessers(nodes),
        greaters: greaters(nodes),
        counts: word_counts(nodes),
    }
}

/// The names of a tree.
pub open spec fn names_of(nodes: Seq<Named>) -> Seq<Seq<char>> {
    Seq::new(nodes.len(), |i: int| nodes[i].value)
}

/// The columns and names of a tree describe the tree.
proof fn lemma_nodes_of(nodes: Seq<Named>)
    ensures
        nodes_of(columns_of(nodes), names_of(nodes)) == nodes,
{
    let made = nodes_of(columns_of(nodes), names_of(nodes));
    assert forall|i: int| 0 <= i < nodes.len() implies made[i] == nodes[i] by {
        assert(made[i].location =~= nodes[i].location);
    }
    assert(made =~= nodes);
}

/// Reading what was written gives the tree that was written, node for
/// node, and leaves what follows the encoding.
pub proof fn lemma_tree_round_trip(nodes: Seq<Named>, rest: Seq<u8>)
    requires
        breadth_first(nodes),
        encodable(nodes),
    ensures
        parse_tree(tree_bytes(nodes) + rest) == Ok::<(Seq<Named>, Seq<u8>), Error>((nodes, rest)),
{
    let dict = word_list(nodes);
    let refs = word_refs(nodes);
    let t1 = refs_bytes(refs) + rest;
    let t0 = dictionary_bytes(dict) + t1;
    let bytes = tree_bytes(nodes) + rest;
    assert(bytes == columns_bytes(nodes) + t0) by {
        assert(bytes =~= columns_bytes(nodes) + t0);
    }
    assert(parse_columns(bytes) == Ok::<(Columns, Seq<u8>), Error>((columns_of(nodes), t0))) by {
        lemma_columns_round_trip(nodes, t0);
    }
    assert(parse_dictionary(t0) == Ok::<(Seq<Seq<char>>, Seq<u8>), Error>((decoded(dict), t1)))
        by {
        lemma_word_list_valid(nodes);
        lemma_dictionary_round_trip(dict, t1);
    }
    assert(parse_refs(t1) == Ok::<(Seq<u32>, Seq<u8>), Error>((refs, rest))) by {
        lemma_word_list_valid(nodes);
        lemma_refs_round_trip(refs, rest);
    }
    assert(parse_names(columns_of(nodes).counts, decoded(dict), refs) == Ok::<
        Seq<Seq<char>>,
        Error,
    >(names_of(nodes))) by {
        lemma_names_round_trip(nodes);
    }
    lemma_nodes_of(nodes);
}

/// What the writer makes of a tree the reader makes into the same tree:
/// the same locations, names and child references, node for node.
pub proof fn lemma_written_tree_reads_back(nodes: Seq<Node<i64, String>>, rest: Seq<u8>)
    requires
        breadth_first(nodes),
        encodable(super::encoding::texts(nodes)),
    ensures
        parse_tree(tree_bytes(super::encoding::texts(nodes)) + rest) == Ok::<
            (Seq<Named>, Seq<u8>),
            Error,
        >((super::encoding::texts(nodes), rest)),
{
    super::restore::lemma_layout_of_texts(nodes);
    lemma_tree_round_trip(super::encoding::texts(nodes), rest);
}

} // verus!
