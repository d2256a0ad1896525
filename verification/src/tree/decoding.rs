//! What a sequence of bytes is read as: a tree of names, or the first
//! reason why it is none.

use super::encoding::Named;
use super::{breadth_first, Node};
use crate::error::Error;
use crate::read::{parse_magnitude, parse_magnitude_monotonic, parse_sign_magnitude, parse_u32};
use crate::words::join_text;
use vstd::prelude::*;
use vstd::utf8::{decode_utf8, valid_utf8};

verus! {

/// What was read, with the bytes that are left.
pub open spec fn advance<T>(parsed: Result<(T, nat), Error>, bytes: Seq<u8>) -> Result<
    (T, Seq<u8>),
    Error,
> {
    match parsed {
        Ok((value, used)) => Ok((value, bytes.skip(used as int))),
        Err(e) => Err(e),
    }
}

/// The sequences of the first part of the encoding.
pub struct Columns {
    pub longitudes: Seq<i64>,
    pub latitudes: Seq<i64>,
    pub lessers: Seq<u32>,
    pub greaters: Seq<u32>,
    pub counts: Seq<u32>,
}

/// The first part: the number of nodes, then as many coordinates, child
/// references and word counts.
#[verifier::opaque]
pub open spec fn parse_columns(bytes: Seq<u8>) -> Result<(Columns, Seq<u8>), Error> {
    match advance(parse_u32(bytes), bytes) {
        Err(e) => Err(e),
        Ok((n, b1)) => match advance(parse_sign_magnitude(b1, n as nat), b1) {
            Err(e) => Err(e),
            Ok((longitudes, b2)) => match advance(parse_sign_magnitude(b2, n as nat), b2) {
                Err(e) => Err(e),
                Ok((latitudes, b3)) => match advance(parse_magnitude_monotonic(b3, n as nat), b3) {
                    Err(e) => Err(e),
                    Ok((lessers, b4)) => match advance(
                        parse_magnitude_monotonic(b4, n as nat),
                        b4,
                    ) {
                        Err(e) => Err(e),
                        Ok((greaters, b5)) => match advance(parse_magnitude(b5, n as nat), b5) {
                            Err(e) => Err(e),
                            Ok((counts, b6)) => Ok(
                                (Columns { longitudes, latitudes, lessers, greaters, counts }, b6),
                            ),
                        },
                    },
                },
            },
        },
    }
}

/// Words of the given lengths, one after the other. Each must be UTF-8.
pub open spec fn parse_words(bytes: Seq<u8>, lens: Seq<u32>) -> Result<
    (Seq<Seq<char>>, Seq<u8>),
    Error,
>
    decreases lens.len(),
{
    if lens.len() == 0 {
        Ok((Seq::empty(), bytes))
    } else if bytes.len() < lens[0] {
        Err(Error::UnexpectedEnd)
    } else if !valid_utf8(bytes.take(lens[0] as int)) {
        Err(Error::InvalidWord)
    } else {
        match parse_words(bytes.skip(lens[0] as int), lens.skip(1)) {
            Ok((words, rest)) => Ok((seq![decode_utf8(bytes.take(lens[0] as int))] + words, rest)),
            Err(e) => Err(e),
        }
    }
}

/// The second part: the number of words, their lengths, the words.
#[verifier::opaque]
pub open spec fn parse_dictionary(bytes: Seq<u8>) -> Result<(Seq<Seq<char>>, Seq<u8>), Error> {
    match advance(parse_u32(bytes), bytes) {
        Err(e) => Err(e),
        Ok((m, b1)) => match advance(parse_magnitude(b1, m as nat), b1) {
            Err(e) => Err(e),
            Ok((lens, b2)) => parse_words(b2, lens),
        },
    }
}

/// The third part: the number of word references, the references.
#[verifier::opaque]
pub open spec fn parse_refs(bytes: Seq<u8>) -> Result<(Seq<u32>, Seq<u8>), Error> {
    match advance(parse_u32(bytes), bytes) {
        Err(e) => Err(e),
        Ok((r, b1)) => advance(parse_magnitude(b1, r as nat), b1),
    }
}

/// How many words the first `i` names have together.
pub open spec fn words_before(counts: Seq<u32>, i: int) -> nat
    decreases i,
{
    if i <= 0 {
        0
    } else {
        words_before(counts, i - 1) + counts[i - 1] as nat
    }
}

/// There is a reference for every word of every name, and a word for
/// each of those references.
pub open spec fn refs_valid(counts: Seq<u32>, words: nat, refs: Seq<u32>) -> bool {
    &&& words_before(counts, counts.len() as int) <= refs.len()
    &&& forall|p: int|
        0 <= p < words_before(counts, counts.len() as int) ==> (#[trigger] refs[p]) < words
}

/// The words of the `i`-th name.
pub open spec fn name_words(
    counts: Seq<u32>,
    words: Seq<Seq<char>>,
    refs: Seq<u32>,
    i: int,
) -> Seq<Seq<char>> {
    Seq::new(counts[i] as nat, |j: int| words[refs[words_before(counts, i) + j] as int])
}

/// The names: for each the words that its references point to, joined by
/// spaces.
#[verifier::opaque]
pub open spec fn parse_names(counts: Seq<u32>, words: Seq<Seq<char>>, refs: Seq<u32>) -> Result<
    Seq<Seq<char>>,
    Error,
> {
    if refs_valid(counts, words.len(), refs) {
        Ok(Seq::new(counts.len(), |i: int| join_text(name_words(counts, words, refs, i))))
    } else {
        Err(Error::InvalidWordIndex)
    }
}

/// The nodes that the columns and the names describe.
pub open spec fn nodes_of(columns: Columns, names: Seq<Seq<char>>) -> Seq<Named> {
    Seq::new(
        names.len(),
        |i: int|
            Node {
                location: [columns.longitudes[i], columns.latitudes[i]],
                value: names[i],
                lesser_index: columns.lessers[i],
                greater_index: columns.greaters[i],
            },
    )
}

/// What the bytes are read as: the nodes of a tree and the bytes behind
/// its encoding, or the first error. The child references must lay the
/// nodes out breadth-first; that is checked last.
pub open spec fn parse_tree(bytes: Seq<u8>) -> Result<(Seq<Named>, Seq<u8>), Error> {
    match parse_columns(bytes) {
        Err(e) => Err(e),
        Ok((columns, b1)) => match parse_dictionary(b1) {
            Err(e) => Err(e),
            Ok((words, b2)) => match parse_refs(b2) {
                Err(e) => Err(e),
                Ok((refs, b3)) => match parse_names(columns.counts, words, refs) {
                    Err(e) => Err(e),
                    Ok(names) => if breadth_first(nodes_of(columns, names)) {
                        Ok((nodes_of(columns, names), b3))
                    } else {
                        Err(Error::InvalidLink)
                    },
                },
            },
        },
    }
}

} // verus!
