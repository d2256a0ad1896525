//! Reading a tree of names from a source of bytes.

use super::decoding::{
    name_words, nodes_of, parse_columns, parse_dictionary, parse_names, parse_refs, parse_tree,
    parse_words, refs_valid, words_before, Columns,
};
use super::encoding::{texts, Named};
use super::{breadth_first, is_breadth_first, Node, Tree2D};
use crate::error::Error;
use crate::read::Read;
use crate::words::{join_text, lemma_join_push};
use vstd::prelude::*;
use vstd::string::StringExecFns;
use vstd::utf8::{decode_utf8, valid_utf8};

verus! {

/// `String::from_utf8`: the string that the bytes spell if they are
/// UTF-8, and nothing if they are not.
#[verifier::external_body]
fn text_of(bytes: Vec<u8>) -> (text: Option<String>)
    ensures
        text is Some <==> valid_utf8(bytes@),
        text matches Some(s) ==> s@ == decode_utf8(bytes@),
{
    match String::from_utf8(bytes) {
        Ok(s) => Some(s),
        Err(_) => None,
    }
}

/// The strings as text.
pub open spec fn strings(words: Seq<String>) -> Seq<Seq<char>> {
    Seq::new(words.len(), |i: int| words[i]@)
}

/// Words already read, then what the rest is read as.
pub open spec fn after_words(
    done: Seq<Seq<char>>,
    rest: Result<(Seq<Seq<char>>, Seq<u8>), Error>,
) -> Result<(Seq<Seq<char>>, Seq<u8>), Error> {
    match rest {
        Ok((words, bytes)) => Ok((done + words, bytes)),
        Err(e) => Err(e),
    }
}

pub proof fn lemma_words_before_grows(counts: Seq<u32>, i: int, j: int)
    requires
        0 <= i <= j,
    ensures
        words_before(counts, i) <= words_before(counts, j),
    decreases j - i,
{
    if i < j {
        lemma_words_before_grows(counts, i, j - 1);
    }
}

/// Reads the first part of the encoding.
fn read_columns<R: Read>(reader: &mut R) -> (r: Result<
    (Vec<i64>, Vec<i64>, Vec<u32>, Vec<u32>, Vec<u32>),
    Error,
>)
    ensures
        match r {
            Ok((lons, lats, less, more, counts)) => {
                &&& parse_columns(old(reader).remaining()) == Ok::<(Columns, Seq<u8>), Error>(
                    (
                        (Columns {
                            longitudes: lons@,
                            latitudes: lats@,
                            lessers: less@,
                            greaters: more@,
                            counts: counts@,
                        }),
                        final(reader).remaining(),
                    ),
                )
                &&& lons@.len() == counts@.len()
                &&& lats@.len() == counts@.len()
                &&& less@.len() == counts@.len()
                &&& more@.len() == counts@.len()
                &&& counts@.len() <= u32::MAX
                &&& final(reader).dependable() == old(reader).dependable()
            },
            Err(e) => {
                ||| parse_columns(old(reader).remaining()) == Err::<(Columns, Seq<u8>), Error>(e)
                ||| e == Error::Failed && !old(reader).dependable()
            },
        },
{
    reveal(parse_columns);
    let n = match reader.read_u32() {
        Ok(n) => n as usize,
        Err(e) => {
            return Err(e);
        },
    };
    let lons = match reader.read_sign_magnitude(n) {
        Ok(values) => values,
        Err(e) => {
            return Err(e);
        },
    };
    let lats = match reader.read_sign_magnitude(n) {
        Ok(values) => values,
        Err(e) => {
            return Err(e);
        },
    };
    let less = match reader.read_magnitude_monotonic(n) {
        Ok(values) => values,
        Err(e) => {
            return Err(e);
        },
    };
    let more = match reader.read_magnitude_monotonic(n) {
        Ok(values) => values,
        Err(e) => {
            return Err(e);
        },
    };
    let counts = match reader.read_magnitude(n) {
        Ok(values) => values,
        Err(e) => {
            return Err(e);
        },
    };
    Ok((lons, lats, less, more, counts))
}

/// Reads the second part of the encoding.
fn read_dictionary<R: Read>(reader: &mut R) -> (r: Result<Vec<String>, Error>)
    ensures
        match r {
            Ok(words) => {
                &&& parse_dictionary(old(reader).remaining()) == Ok::<
                    (Seq<Seq<char>>, Seq<u8>),
                    Error,
                >((strings(words@), final(reader).remaining()))
                &&& final(reader).dependable() == old(reader).dependable()
            },
            Err(e) => {
                ||| parse_dictionary(old(reader).remaining()) == Err::<
                    (Seq<Seq<char>>, Seq<u8>),
                    Error,
                >(e)
                ||| e == Error::Failed && !old(reader).dependable()
            },
        },
{
    reveal(parse_dictionary);
    let ghost bytes = reader.remaining();
    let m = match reader.read_u32() {
        Ok(m) => m as usize,
        Err(e) => {
            return Err(e);
        },
    };
    let lens = match reader.read_magnitude(m) {
        Ok(values) => values,
        Err(e) => {
            return Err(e);
        },
    };
    let ghost body = reader.remaining();
    let mut words: Vec<String> = Vec::new();
    let mut i: usize = 0;
    proof {
        assert(lens@.skip(0) =~= lens@);
        assert(strings(words@) + parse_words(body, lens@)->Ok_0.0 =~= parse_words(
            body,
            lens@,
        )->Ok_0.0);
    }
    while i < lens.len()
        invariant
            i <= lens@.len(),
            parse_dictionary(bytes) == parse_words(body, lens@),
            bytes == old(reader).remaining(),
            parse_words(body, lens@) == after_words(
                strings(words@),
                parse_words(reader.remaining(), lens@.skip(i as int)),
            ),
            reader.dependable() == old(reader).dependable(),
        decreases lens@.len() - i,
    {
        let ghost now = reader.remaining();
        let ghost done = strings(words@);
        let len = lens[i] as usize;
        let mut buf: Vec<u8> = vec![0u8; len];
        proof {
            assert(lens@.skip(i as int)[0] == lens@[i as int]);
            assert(lens@.skip(i as int).skip(1) =~= lens@.skip(i + 1));
        }
        match reader.read_bytes(buf.as_mut_slice()) {
            Ok(()) => {},
            Err(e) => {
                return Err(e);
            },
        }
        match text_of(buf) {
            Some(word) => {
                words.push(word);
                proof {
                    let next = parse_words(now.skip(len as int), lens@.skip(i + 1));
                    assert(strings(words@) =~= done.push(word@));
                    if next is Ok {
                        assert(done + (seq![word@] + next->Ok_0.0) =~= done.push(word@)
                            + next->Ok_0.0);
                    }
                }
            },
            None => {
                return Err(Error::InvalidWord);
            },
        }
        i += 1;
    }
    proof {
        assert(strings(words@) + Seq::<Seq<char>>::empty() =~= strings(words@));
    }
    Ok(words)
}

/// Reads the third part of the encoding.
fn read_refs<R: Read>(reader: &mut R) -> (r: Result<Vec<u32>, Error>)
    ensures
        match r {
            Ok(refs) => {
                &&& parse_refs(old(reader).remaining()) == Ok::<(Seq<u32>, Seq<u8>), Error>(
                    (refs@, final(reader).remaining()),
                )
                &&& final(reader).dependable() == old(reader).dependable()
            },
            Err(e) => {
                ||| parse_refs(old(reader).remaining()) == Err::<(Seq<u32>, Seq<u8>), Error>(e)
                ||| e == Error::Failed && !old(reader).dependable()
            },
        },
{
    reveal(parse_refs);
    let count = match reader.read_u32() {
        Ok(count) => count as usize,
        Err(e) => {
            return Err(e);
        },
    };
    reader.read_magnitude(count)
}

/// Makes the nodes: each with its coordinates and child references, and
/// with the name that its word references spell.
fn assemble(
    lons: &Vec<i64>,
    lats: &Vec<i64>,
    less: &Vec<u32>,
    more: &Vec<u32>,
    counts: &Vec<u32>,
    words: &Vec<String>,
    refs: &Vec<u32>,
) -> (r: Result<Vec<Node<i64, String>>, Error>)
    requires
        lons@.len() == counts@.len(),
        lats@.len() == counts@.len(),
        less@.len() == counts@.len(),
        more@.len() == counts@.len(),
    ensures
        match r {
            Ok(nodes) => {
                &&& parse_names(counts@, strings(words@), refs@) is Ok
                &&& texts(nodes@) == nodes_of(
                    (Columns {
                        longitudes: lons@,
                        latitudes: lats@,
                        lessers: less@,
                        greaters: more@,
                        counts: counts@,
                    }),
                    parse_names(counts@, strings(words@), refs@)->Ok_0,
                )
            },
            Err(e) => parse_names(counts@, strings(words@), refs@) == Err::<Seq<Seq<char>>, Error>(
                e,
            ),
        },
{
    reveal(parse_names);
    let ghost texts_of = strings(words@);
    let ghost columns = Columns {
        longitudes: lons@,
        latitudes: lats@,
        lessers: less@,
        greaters: more@,
        counts: counts@,
    };
    let n = counts.len();
    let mut nodes: Vec<Node<i64, String>> = Vec::new();
    let mut pos: usize = 0;
    let mut i: usize = 0;
    while i < n
        invariant
            i <= n,
            n == counts@.len(),
            lons@.len() == n,
            lats@.len() == n,
            less@.len() == n,
            more@.len() == n,
            texts_of == strings(words@),
            pos == words_before(counts@, i as int),
            pos <= refs@.len(),
            forall|p: int| 0 <= p < pos ==> (#[trigger] refs@[p]) < words@.len(),
            nodes@.len() == i,
            forall|k: int|
                0 <= k < i ==> {
                    &&& (#[trigger] nodes@[k]).location == [lons@[k], lats@[k]]
                    &&& nodes@[k].value@ == join_text(name_words(counts@, texts_of, refs@, k))
                    &&& nodes@[k].lesser_index == less@[k]
                    &&& nodes@[k].greater_index == more@[k]
                },
        decreases n - i,
    {
        let mut name = String::new();
        let ghost mut parts: Seq<Seq<char>> = Seq::empty();
        let count = counts[i];
        let mut j: u32 = 0;
        let ghost start = pos as int;
        proof {
            lemma_words_before_grows(counts@, i + 1, n as int);
            assert(parts =~= name_words(counts@, texts_of, refs@, i as int).take(0));
        }
        while j < count
            invariant
                j <= count,
                i < n,
                count == counts@[i as int],
                start == words_before(counts@, i as int),
                pos == start + j,
                pos <= refs@.len(),
                texts_of == strings(words@),
                words_before(counts@, i + 1) <= words_before(counts@, n as int),
                n == counts@.len(),
                forall|p: int| 0 <= p < pos ==> (#[trigger] refs@[p]) < words@.len(),
                parts == name_words(counts@, texts_of, refs@, i as int).take(j as int),
                name@ == join_text(parts),
            decreases count - j,
        {
            if pos >= refs.len() {
                proof {
                    reveal(parse_names);
                    assert(!refs_valid(counts@, texts_of.len(), refs@));
                }
                return Err(Error::InvalidWordIndex);
            }
            let at = refs[pos] as usize;
            if at >= words.len() {
                proof {
                    reveal(parse_names);
                    assert(refs@[pos as int] >= texts_of.len());
                    assert(!refs_valid(counts@, texts_of.len(), refs@));
                }
                return Err(Error::InvalidWordIndex);
            }
            if j > 0 {
                proof {
                    reveal_strlit(" ");
                }
                name.append(" ");
                assert(name@ =~= join_text(parts) + seq![' ']);
            }
            name.append(words[at].as_str());
            proof {
                lemma_join_push(parts, words@[at as int]@);
                assert(texts_of[at as int] == words@[at as int]@);
                assert(parts.push(words@[at as int]@) =~= name_words(
                    counts@,
                    texts_of,
                    refs@,
                    i as int,
                ).take(j + 1));
                parts = parts.push(words@[at as int]@);
            }
            pos += 1;
            j += 1;
        }
        proof {
            assert(name_words(counts@, texts_of, refs@, i as int).take(count as int)
                =~= name_words(counts@, texts_of, refs@, i as int));
        }
        nodes.push(
            Node {
                location: [lons[i], lats[i]],
                value: name,
                lesser_index: less[i],
                greater_index: more[i],
            },
        );
        i += 1;
    }
    proof {
        assert(refs_valid(counts@, texts_of.len(), refs@));
        let names = parse_names(counts@, texts_of, refs@)->Ok_0;
        assert(texts(nodes@) =~= nodes_of(columns, names));
    }
    Ok(nodes)
}

/// The layout of a tree does not depend on what its values are.
pub proof fn lemma_layout_of_texts(nodes: Seq<Node<i64, String>>)
    ensures
        breadth_first(texts(nodes)) == breadth_first(nodes),
{
    let named = texts(nodes);
    assert forall|i: int| 0 <= i <= nodes.len() implies super::links_before(named, i)
        == super::links_before(nodes, i) by {
        lemma_links_of_texts(nodes, i);
    }
    assert forall|i: int| 0 <= i < nodes.len() implies super::placed(named, i) == super::placed(
        nodes,
        i,
    ) by {
        lemma_links_of_texts(nodes, i);
    }
    if breadth_first(nodes) {
        assert forall|i: int| 0 <= i < named.len() implies #[trigger] super::placed(named, i) by {
            assert(super::placed(nodes, i));
        }
    }
    if breadth_first(named) {
        assert forall|i: int| 0 <= i < nodes.len() implies #[trigger] super::placed(nodes, i) by {
            assert(super::placed(named, i));
        }
    }
}

proof fn lemma_links_of_texts(nodes: Seq<Node<i64, String>>, i: int)
    requires
        0 <= i <= nodes.len(),
    ensures
        super::links_before(texts(nodes), i) == super::links_before(nodes, i),
    decreases i,
{
    if i > 0 {
        lemma_links_of_texts(nodes, i - 1);
    }
}

impl Tree2D<i64, String> {
    /// Reads a tree from where the source stands, and leaves the source
    /// behind the tree's encoding.
    ///
    /// The encoding is refused unless its child references lay the nodes
    /// out breadth-first, so that every search in the tree ends.
    pub fn read_from<R: Read>(reader: &mut R) -> (r: Result<Self, Error>)
        ensures
            match r {
                Ok(tree) => {
                    &&& parse_tree(old(reader).remaining()) == Ok::<(Seq<Named>, Seq<u8>), Error>(
                        (texts(tree@), final(reader).remaining()),
                    )
                    &&& tree.wf()
                    &&& final(reader).dependable() == old(reader).dependable()
                },
                Err(e) => {
                    ||| parse_tree(old(reader).remaining()) == Err::<(Seq<Named>, Seq<u8>), Error>(
                        e,
                    )
                    ||| e == Error::Failed && !old(reader).dependable()
                },
            },
    {
        let (lons, lats, less, more, counts) = match read_columns(reader) {
            Ok(columns) => columns,
            Err(e) => {
                return Err(e);
            },
        };
        let words = match read_dictionary(reader) {
            Ok(words) => words,
            Err(e) => {
                return Err(e);
            },
        };
        let refs = match read_refs(reader) {
            Ok(refs) => refs,
            Err(e) => {
                return Err(e);
            },
        };
        let nodes = match assemble(&lons, &lats, &less, &more, &counts, &words, &refs) {
            Ok(nodes) => nodes,
            Err(e) => {
                return Err(e);
            },
        };
        if !is_breadth_first(&nodes) {
            proof {
                lemma_layout_of_texts(nodes@);
            }
            return Err(Error::InvalidLink);
        }
        proof {
            lemma_layout_of_texts(nodes@);
        }
        Ok(Tree2D { nodes })
    }

    /// Reads a tree from the source.
    pub fn read<R: Read>(reader: R) -> (r: Result<Self, Error>)
        ensures
            match r {
                Ok(tree) => {
                    &&& parse_tree(reader.remaining()) is Ok
                    &&& parse_tree(reader.remaining())->Ok_0.0 == texts(tree@)
                    &&& tree.wf()
                },
                Err(e) => {
                    ||| parse_tree(reader.remaining()) == Err::<(Seq<Named>, Seq<u8>), Error>(e)
                    ||| e == Error::Failed && !reader.dependable()
                },
            },
    {
        let mut reader = reader;
        Self::read_from(&mut reader)
    }
}

} // verus!
