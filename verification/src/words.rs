//! Names as lists of words: a name is cut at every space, and the words
//! joined by single spaces give the name again.

use vstd::prelude::*;
use vstd::utf8::{
    decode_utf8, decode_utf8_split, is_char_boundary, is_char_boundary_iff_not_is_continuation_byte,
    valid_utf8, valid_utf8_split,
};

verus! {

/// The byte that separates the words of a name.
pub const SPACE: u8 = 0x20;

/// The position of the first space; the length if there is none.
pub open spec fn first_space(bytes: Seq<u8>) -> int
    decreases bytes.len(),
{
    if bytes.len() == 0 || bytes[0] == SPACE {
        0
    } else {
        1 + first_space(bytes.skip(1))
    }
}

pub proof fn lemma_first_space(bytes: Seq<u8>)
    ensures
        0 <= first_space(bytes) <= bytes.len(),
        forall|j: int| 0 <= j < first_space(bytes) ==> bytes[j] != SPACE,
        first_space(bytes) < bytes.len() ==> bytes[first_space(bytes)] == SPACE,
    decreases bytes.len(),
{
    if !(bytes.len() == 0 || bytes[0] == SPACE) {
        let rest = bytes.skip(1);
        lemma_first_space(rest);
        assert forall|j: int| 0 <= j < first_space(bytes) implies bytes[j] != SPACE by {
            if j > 0 {
                assert(rest[j - 1] == bytes[j]);
            }
        }
    }
}

/// The words of a name: what stands between its spaces. A name without a
/// space is one word, the empty name too.
pub open spec fn split(bytes: Seq<u8>) -> Seq<Seq<u8>>
    decreases bytes.len(),
{
    let at = first_space(bytes);
    if 0 <= at < bytes.len() {
        seq![bytes.take(at)] + split(bytes.skip(at + 1))
    } else {
        seq![bytes]
    }
}

/// The words joined by single spaces.
pub open spec fn join_text(words: Seq<Seq<char>>) -> Seq<char>
    decreases words.len(),
{
    if words.len() == 0 {
        Seq::empty()
    } else if words.len() == 1 {
        words[0]
    } else {
        words[0] + seq![' '] + join_text(words.skip(1))
    }
}

/// The words as text.
pub open spec fn decoded(words: Seq<Seq<u8>>) -> Seq<Seq<char>> {
    Seq::new(words.len(), |i: int| decode_utf8(words[i]))
}

pub proof fn lemma_split_len(bytes: Seq<u8>)
    ensures
        1 <= split(bytes).len() <= bytes.len() + 1,
    decreases bytes.len(),
{
    lemma_first_space(bytes);
    let at = first_space(bytes);
    if 0 <= at < bytes.len() {
        lemma_split_len(bytes.skip(at + 1));
    }
}

/// Adding a word at the end of a list adds a space and the word to the
/// joined text.
pub proof fn lemma_join_push(words: Seq<Seq<char>>, word: Seq<char>)
    ensures
        join_text(words.push(word)) == if words.len() == 0 {
            word
        } else {
            join_text(words) + seq![' '] + word
        },
    decreases words.len(),
{
    let longer = words.push(word);
    if words.len() == 0 {
    } else if words.len() == 1 {
        assert(longer.skip(1) =~= seq![word]);
        assert(longer.skip(1)[0] == word);
        assert(join_text(longer.skip(1)) == word);
    } else {
        lemma_join_push(words.skip(1), word);
        assert(longer.skip(1) =~= words.skip(1).push(word));
        assert(join_text(longer) =~= join_text(words) + seq![' '] + word);
    }
}

/// Cutting text at a space cuts between two characters.
proof fn lemma_cut_at_space(bytes: Seq<u8>, at: int)
    requires
        valid_utf8(bytes),
        0 <= at < bytes.len(),
        bytes[at] == SPACE,
    ensures
        valid_utf8(bytes.take(at)),
        valid_utf8(bytes.skip(at + 1)),
        decode_utf8(bytes) == decode_utf8(bytes.take(at)) + seq![' '] + decode_utf8(
            bytes.skip(at + 1),
        ),
{
    is_char_boundary_iff_not_is_continuation_byte(bytes, at);
    assert(is_char_boundary(bytes, at));
    valid_utf8_split(bytes, at);
    decode_utf8_split(bytes, at);
    let head = bytes.subrange(0, at);
    let tail = bytes.subrange(at, bytes.len() as int);
    assert(head =~= bytes.take(at));
    assert(tail[0] == SPACE);
    assert(vstd::utf8::pop_first_scalar(tail) =~= bytes.skip(at + 1));
    assert(valid_utf8(tail));
    assert(0x20u8 & 0x7F == 0x20u8) by (bit_vector);
    assert(vstd::utf8::decode_first_scalar(tail) == 0x20u32);
    assert(0x20u32 as char == ' ');
    assert(decode_utf8(tail) == seq![' '] + decode_utf8(bytes.skip(at + 1)));
    assert(decode_utf8(bytes) =~= decode_utf8(bytes.take(at)) + seq![' '] + decode_utf8(
        bytes.skip(at + 1),
    ));
}

/// The words of valid text are valid text, and joined by spaces they are
/// the text again.
pub proof fn lemma_split_text(bytes: Seq<u8>)
    requires
        valid_utf8(bytes),
    ensures
        forall|i: int| 0 <= i < split(bytes).len() ==> valid_utf8(#[trigger] split(bytes)[i]),
        join_text(decoded(split(bytes))) == decode_utf8(bytes),
    decreases bytes.len(),
{
    lemma_first_space(bytes);
    let at = first_space(bytes);
    if 0 <= at < bytes.len() {
        let rest = bytes.skip(at + 1);
        lemma_cut_at_space(bytes, at);
        lemma_split_text(rest);
        lemma_split_len(rest);
        let words = split(bytes);
        assert(words[0] == bytes.take(at));
        assert forall|i: int| 0 <= i < words.len() implies valid_utf8(#[trigger] words[i]) by {
            if i > 0 {
                assert(words[i] == split(rest)[i - 1]);
            }
        }
        assert(decoded(words).skip(1) =~= decoded(split(rest)));
        assert(decoded(words)[0] == decode_utf8(bytes.take(at)));
    } else {
        assert(decoded(split(bytes))[0] == decode_utf8(bytes));
    }
}

/// The end of the word that starts at `start`: the position of the next
/// space, or the end of the name.
pub fn word_end(bytes: &[u8], start: usize) -> (end: usize)
    requires
        start <= bytes@.len(),
    ensures
        start <= end <= bytes@.len(),
        end == start + first_space(bytes@.skip(start as int)),
{
    let mut end = start;
    while end < bytes.len() && bytes[end] != SPACE
        invariant
            start <= end <= bytes@.len(),
            first_space(bytes@.skip(start as int)) == (end - start) + first_space(
                bytes@.skip(end as int),
            ),
        decreases bytes@.len() - end,
    {
        proof {
            assert(bytes@.skip(end as int).skip(1) =~= bytes@.skip(end + 1));
        }
        end += 1;
    }
    end
}

} // verus!
