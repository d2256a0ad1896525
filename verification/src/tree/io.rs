//! Writing a tree of names to a sink of bytes and reading it back.

use super::encoding::{
    all_words, columns_bytes, dictionary_bytes, encodable, greaters, latitudes, lessers, longitudes,
    refs_bytes, refs_of, texts, tree_bytes, word_counts, word_lens, word_list, word_refs, Named,
};
use super::{Node, Tree2D};
use crate::dictionary::{
    concat, dictionary_of, find_word, lemma_concat_push, lemma_dictionary, spelled,
    strictly_sorted,
};
use crate::error::Error;
use crate::words::{first_space, lemma_split_len, split, word_end};
use crate::write::Write;
use vstd::prelude::*;
use vstd::slice::slice_subrange;

verus! {

/// The sink has taken `bytes`, or it has failed.
pub open spec fn wrote<W: Write>(
    before: W,
    after: W,
    r: Result<(), Error>,
    bytes: Seq<u8>,
) -> bool {
    match r {
        Ok(()) => after.written() == before.written() + bytes && after.dependable()
            == before.dependable(),
        Err(e) => e == Error::Failed && !before.dependable(),
    }
}

/// The words of a name are what lies between its spaces: the word from
/// `start` ends at the next space, and the rest of the name follows it.
proof fn lemma_split_from(name: Seq<u8>, start: int, end: int)
    requires
        0 <= start <= end <= name.len(),
        end == start + first_space(name.skip(start)),
    ensures
        end < name.len() ==> split(name.skip(start)) == seq![name.subrange(start, end)] + split(
            name.skip(end + 1),
        ),
        end == name.len() ==> split(name.skip(start)) == seq![name.subrange(start, end)],
{
    let rest = name.skip(start);
    let at = end - start;
    assert(rest.take(at) =~= name.subrange(start, end));
    if end < name.len() {
        assert(rest.skip(at + 1) =~= name.skip(end + 1));
    } else {
        assert(rest =~= name.subrange(start, end));
    }
}

/// Appends the words of `name` to the list and counts them; gives up if
/// there are more than `budget`.
fn collect_words<'a>(all: &mut Vec<&'a [u8]>, name: &'a [u8], budget: u32) -> (count: Option<u32>)
    ensures
        match count {
            Some(c) => {
                &&& c == split(name@).len()
                &&& c <= budget
                &&& spelled(final(all)@) == spelled(old(all)@) + split(name@)
            },
            None => split(name@).len() > budget,
        },
{
    let ghost given = spelled(all@);
    let ghost mut done: Seq<Seq<u8>> = Seq::empty();
    let mut start: usize = 0;
    let mut count: u32 = 0;
    let mut more = true;
    proof {
        assert(name@.skip(0) =~= name@);
        assert(done + split(name@) =~= split(name@));
        assert(given + done =~= given);
    }
    while more
        invariant
            start <= name@.len(),
            count == done.len(),
            count <= budget,
            more ==> split(name@) == done + split(name@.skip(start as int)),
            !more ==> split(name@) == done,
            spelled(all@) == given + done,
        decreases
                (if more {
                    name@.len() - start + 1
                } else {
                    0
                }),
    {
        if count == budget {
            proof {
                lemma_split_len(name@.skip(start as int));
            }
            return None;
        }
        let end = word_end(name, start);
        let word = slice_subrange(name, start, end);
        let ghost held = spelled(all@);
        all.push(word);
        count += 1;
        proof {
            lemma_split_from(name@, start as int, end as int);
            let rest = if end < name@.len() {
                split(name@.skip(end + 1))
            } else {
                Seq::empty()
            };
            assert(done + (seq![word@] + rest) =~= done.push(word@) + rest);
            assert(spelled(all@) =~= held.push(word@));
            assert(spelled(all@) =~= given + done.push(word@));
            done = done.push(word@);
            assert(done + Seq::<Seq<u8>>::empty() =~= done);
        }
        if end == name.len() {
            more = false;
        } else {
            start = end + 1;
        }
    }
    Some(count)
}

pub proof fn lemma_all_words_grow(nodes: Seq<Named>, i: int)
    requires
        0 <= i <= nodes.len(),
    ensures
        all_words(nodes.take(i)).len() <= all_words(nodes).len(),
    decreases nodes.len() - i,
{
    if i < nodes.len() {
        lemma_all_words_grow(nodes, i + 1);
        assert(nodes.take(i + 1).drop_last() =~= nodes.take(i));
    } else {
        assert(nodes.take(i) =~= nodes);
    }
}

/// The lists that the encoding of a tree of names is made of, besides the
/// coordinates and child references: the dictionary, the number of words
/// of each name, and every word of every name as its place in the
/// dictionary. Nothing if the encoding cannot count the tree.
fn index_words<'a>(nodes: &'a Vec<Node<i64, String>>) -> (r: Option<
    (Vec<&'a [u8]>, Vec<u32>, Vec<u32>),
>)
    requires
        nodes@.len() <= u32::MAX,
    ensures
        match r {
            Some((dict, counts, refs)) => {
                &&& encodable(texts(nodes@))
                &&& spelled(dict@) == word_list(texts(nodes@))
                &&& counts@ == word_counts(texts(nodes@))
                &&& refs@ == word_refs(texts(nodes@))
            },
            None => !encodable(texts(nodes@)),
        },
{
    let ghost named = texts(nodes@);
    let mut all: Vec<&'a [u8]> = Vec::new();
    let mut counts: Vec<u32> = Vec::new();
    let mut total: u32 = 0;
    let mut i: usize = 0;
    proof {
        assert(spelled(all@) =~= all_words(named.take(0)));
        assert(counts@ =~= word_counts(named).take(0));
    }
    while i < nodes.len()
        invariant
            i <= nodes@.len(),
            named == texts(nodes@),
            spelled(all@) == all_words(named.take(i as int)),
            counts@ == word_counts(named).take(i as int),
            total == all_words(named.take(i as int)).len(),
        decreases nodes@.len() - i,
    {
        let name: &'a [u8] = nodes[i].value.as_str().as_bytes();
        let ghost before = all_words(named.take(i as int));
        proof {
            assert(named.take(i + 1).drop_last() =~= named.take(i as int));
            assert(named.take(i + 1).last() == named[i as int]);
            assert(name@ == vstd::utf8::encode_utf8(named[i as int].value));
            assert(all_words(named.take(i + 1)) == before + split(name@));
            lemma_all_words_grow(named, i + 1);
        }
        match collect_words(&mut all, name, u32::MAX - total) {
            Some(count) => {
                counts.push(count);
                total = total + count;
            },
            None => {
                return None;
            },
        }
        i += 1;
        proof {
            assert(counts@ =~= word_counts(named).take(i as int));
        }
    }
    proof {
        assert(named.take(nodes@.len() as int) =~= named);
        assert(word_counts(named).take(nodes@.len() as int) =~= word_counts(named));
        lemma_dictionary(all_words(named));
    }
    let dict = dictionary_of(&all);
    let mut w: usize = 0;
    while w < dict.len()
        invariant
            w <= dict@.len(),
            named == texts(nodes@),
            spelled(dict@) == word_list(named),
            forall|j: int| 0 <= j < w ==> (#[trigger] word_list(named)[j]).len() <= u32::MAX,
        decreases dict@.len() - w,
    {
        if dict[w].len() > u32::MAX as usize {
            proof {
                assert(word_list(named)[w as int] == dict@[w as int]@);
                assert(word_list(named)[w as int].len() > u32::MAX);
            }
            return None;
        }
        proof {
            assert(word_list(named)[w as int] == dict@[w as int]@);
        }
        w += 1;
    }
    let mut refs: Vec<u32> = Vec::new();
    let mut j: usize = 0;
    while j < all.len()
        invariant
            j <= all@.len(),
            spelled(all@) == all_words(named),
            spelled(dict@) == word_list(named),
            strictly_sorted(spelled(dict@)),
            dict@.len() <= u32::MAX,
            refs@ == refs_of(word_list(named), all_words(named)).take(j as int),
        decreases all@.len() - j,
    {
        let (at, _found) = find_word(&dict, all[j]);
        refs.push(at as u32);
        proof {
            assert(spelled(all@)[j as int] == all@[j as int]@);
            assert(refs@ =~= refs_of(word_list(named), all_words(named)).take(j + 1));
        }
        j += 1;
    }
    proof {
        assert(refs@ =~= word_refs(named));
    }
    Some((dict, counts, refs))
}

/// Writes the first part of the encoding.
fn write_columns<W: Write>(nodes: &Vec<Node<i64, String>>, counts: &Vec<u32>, writer: &mut W) -> (r:
    Result<(), Error>)
    requires
        nodes@.len() <= u32::MAX,
        counts@ == word_counts(texts(nodes@)),
    ensures
        wrote(*old(writer), *final(writer), r, columns_bytes(texts(nodes@))),
{
    let ghost named = texts(nodes@);
    let ghost from = writer.written();
    let mut lons: Vec<i64> = Vec::new();
    let mut lats: Vec<i64> = Vec::new();
    let mut less: Vec<u32> = Vec::new();
    let mut more: Vec<u32> = Vec::new();
    let mut i: usize = 0;
    while i < nodes.len()
        invariant
            i <= nodes@.len(),
            named == texts(nodes@),
            lons@ == longitudes(named).take(i as int),
            lats@ == latitudes(named).take(i as int),
            less@ == lessers(named).take(i as int),
            more@ == greaters(named).take(i as int),
        decreases nodes@.len() - i,
    {
        let node = &nodes[i];
        lons.push(node.location[0]);
        lats.push(node.location[1]);
        less.push(node.lesser_index);
        more.push(node.greater_index);
        i += 1;
        proof {
            assert(lons@ =~= longitudes(named).take(i as int));
            assert(lats@ =~= latitudes(named).take(i as int));
            assert(less@ =~= lessers(named).take(i as int));
            assert(more@ =~= greaters(named).take(i as int));
        }
    }
    proof {
        assert(longitudes(named).take(nodes@.len() as int) =~= longitudes(named));
        assert(latitudes(named).take(nodes@.len() as int) =~= latitudes(named));
        assert(lessers(named).take(nodes@.len() as int) =~= lessers(named));
        assert(greaters(named).take(nodes@.len() as int) =~= greaters(named));
    }
    match writer.write_u32(nodes.len() as u32) {
        Ok(()) => {},
        Err(e) => {
            return Err(e);
        },
    }
    match writer.write_sign_magnitude(lons.as_slice()) {
        Ok(()) => {},
        Err(e) => {
            return Err(e);
        },
    }
    match writer.write_sign_magnitude(lats.as_slice()) {
        Ok(()) => {},
        Err(e) => {
            return Err(e);
        },
    }
    match writer.write_magnitude_monotonic(less.as_slice()) {
        Ok(()) => {},
        Err(e) => {
            return Err(e);
        },
    }
    match writer.write_magnitude_monotonic(more.as_slice()) {
        Ok(()) => {},
        Err(e) => {
            return Err(e);
        },
    }
    let r = writer.write_magnitude(counts.as_slice());
    proof {
        if r is Ok {
            assert(writer.written() =~= from + columns_bytes(named));
        }
    }
    r
}

/// Writes the second part of the encoding.
fn write_dictionary<W: Write>(dict: &Vec<&[u8]>, writer: &mut W) -> (r: Result<(), Error>)
    requires
        dict@.len() <= u32::MAX,
        forall|i: int| 0 <= i < dict@.len() ==> (#[trigger] dict@[i])@.len() <= u32::MAX,
    ensures
        wrote(*old(writer), *final(writer), r, dictionary_bytes(spelled(dict@))),
{
    let ghost all = spelled(dict@);
    let ghost from = writer.written();
    let mut lens: Vec<u32> = Vec::new();
    let mut i: usize = 0;
    while i < dict.len()
        invariant
            i <= dict@.len(),
            all == spelled(dict@),
            forall|i: int| 0 <= i < dict@.len() ==> (#[trigger] dict@[i])@.len() <= u32::MAX,
            lens@ == word_lens(all).take(i as int),
        decreases dict@.len() - i,
    {
        lens.push(dict[i].len() as u32);
        i += 1;
        proof {
            assert(lens@ =~= word_lens(all).take(i as int));
        }
    }
    proof {
        assert(word_lens(all).take(dict@.len() as int) =~= word_lens(all));
    }
    match writer.write_u32(dict.len() as u32) {
        Ok(()) => {},
        Err(e) => {
            return Err(e);
        },
    }
    match writer.write_magnitude(lens.as_slice()) {
        Ok(()) => {},
        Err(e) => {
            return Err(e);
        },
    }
    let ghost head = writer.written();
    let mut i: usize = 0;
    proof {
        assert(all.take(0) =~= Seq::<Seq<u8>>::empty());
        assert(head + concat(all.take(0)) =~= head);
    }
    while i < dict.len()
        invariant
            i <= dict@.len(),
            all == spelled(dict@),
            writer.written() == head + concat(all.take(i as int)),
            writer.dependable() == old(writer).dependable(),
        decreases dict@.len() - i,
    {
        match writer.write_bytes(dict[i]) {
            Ok(()) => {},
            Err(e) => {
                return Err(e);
            },
        }
        proof {
            assert(all.take(i + 1) =~= all.take(i as int).push(dict@[i as int]@));
            lemma_concat_push(all.take(i as int), dict@[i as int]@);
            assert(head + concat(all.take(i as int)) + dict@[i as int]@ =~= head + concat(
                all.take(i + 1),
            ));
        }
        i += 1;
    }
    proof {
        assert(all.take(dict@.len() as int) =~= all);
        assert(writer.written() =~= from + dictionary_bytes(all));
    }
    Ok(())
}

/// Writes the third part of the encoding.
fn write_refs<W: Write>(refs: &Vec<u32>, writer: &mut W) -> (r: Result<(), Error>)
    requires
        refs@.len() <= u32::MAX,
    ensures
        wrote(*old(writer), *final(writer), r, refs_bytes(refs@)),
{
    let ghost from = writer.written();
    match writer.write_u32(refs.len() as u32) {
        Ok(()) => {},
        Err(e) => {
            return Err(e);
        },
    }
    let r = writer.write_magnitude(refs.as_slice());
    proof {
        if r is Ok {
            assert(writer.written() =~= from + refs_bytes(refs@));
        }
    }
    r
}

impl Tree2D<i64, String> {
    /// Writes the tree.
    ///
    /// A tree with more words than the encoding can count is refused,
    /// with nothing written.
    pub fn write<W: Write>(&self, writer: &mut W) -> (r: Result<(), Error>)
        ensures
            self.wf(),
            match r {
                Ok(()) => {
                    &&& encodable(texts(self@))
                    &&& final(writer).written() == old(writer).written() + tree_bytes(
                        texts(self@),
                    )
                    &&& final(writer).dependable() == old(writer).dependable()
                },
                Err(e) => {
                    ||| {
                        &&& e == Error::TooLarge
                        &&& !encodable(texts(self@))
                        &&& final(writer).written() == old(writer).written()
                        &&& final(writer).dependable() == old(writer).dependable()
                    }
                    ||| e == Error::Failed && !old(writer).dependable()
                },
            },
    {
        proof {
            use_type_invariant(self);
        }
        let ghost named = texts(self.nodes@);
        let ghost from = writer.written();
        let (dict, counts, refs) = match index_words(&self.nodes) {
            Some(lists) => lists,
            None => {
                return Err(Error::TooLarge);
            },
        };
        proof {
            lemma_dictionary(all_words(named));
            assert forall|i: int| 0 <= i < dict@.len() implies (#[trigger] dict@[i])@.len()
                <= u32::MAX by {
                assert(word_list(named)[i] == dict@[i]@);
            }
        }
        match write_columns(&self.nodes, &counts, writer) {
            Ok(()) => {},
            Err(e) => {
                return Err(e);
            },
        }
        match write_dictionary(&dict, writer) {
            Ok(()) => {},
            Err(e) => {
                return Err(e);
            },
        }
        let r = write_refs(&refs, writer);
        proof {
            if r is Ok {
                assert(writer.written() =~= from + tree_bytes(named));
            }
        }
        r
    }
}

} // verus!
