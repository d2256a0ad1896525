//! Filing the named points of a map extract: which tags make a point a
//! country, a settlement or something else, which of its names is kept,
//! and the three trees that the points are sorted into.

use crate::dictionary::{lex_less, order_words, Order};
use crate::tree::{balanced, kd_ordered, points, Tree2D};
use rayon::slice::ParallelSliceMut;
use vstd::prelude::*;
use vstd::utf8::{encode_utf8, encode_utf8_decode_utf8};

verus! {

/// What a named point is filed as.
#[derive(Debug, Clone, Copy, PartialEq, Eq, Structural)]
pub enum Kind {
    Country,
    Settlement,
    Other,
}

/// The key and the value of a tag, as text.
pub type Tag = (Seq<char>, Seq<char>);

/// The tags as text.
pub open spec fn tag_texts(tags: Seq<(&str, &str)>) -> Seq<Tag> {
    Seq::new(tags.len(), |i: int| (tags[i].0@, tags[i].1@))
}

/// The values of `place` that make a point a settlement.
pub open spec fn is_settlement(value: Seq<char>) -> bool {
    ||| value == "city"@
    ||| value == "town"@
    ||| value == "village"@
    ||| value == "hamlet"@
    ||| value == "isolated_dwelling"@
    ||| value == "farm"@
    ||| value == "allotments"@
}

/// What the tags file a point as: the last `place` tag that names a
/// settlement or a country decides; without one the point is something
/// else.
pub open spec fn kind_of(tags: Seq<Tag>) -> Kind
    decreases tags.len(),
{
    if tags.len() == 0 {
        Kind::Other
    } else if tags.last().0 == "place"@ && is_settlement(tags.last().1) {
        Kind::Settlement
    } else if tags.last().0 == "place"@ && tags.last().1 == "country"@ {
        Kind::Country
    } else {
        kind_of(tags.drop_last())
    }
}

/// The position of the last tag with the key; `-1` if there is none.
pub open spec fn last_with(tags: Seq<Tag>, key: Seq<char>) -> int
    decreases tags.len(),
{
    if tags.len() == 0 {
        -1
    } else if tags.last().0 == key {
        tags.len() - 1
    } else {
        last_with(tags.drop_last(), key)
    }
}

/// The position of the tag that names the point: the last `name:en`, or
/// without one the last `name`; `-1` if the point has no name.
pub open spec fn name_at(tags: Seq<Tag>) -> int {
    if last_with(tags, "name:en"@) >= 0 {
        last_with(tags, "name:en"@)
    } else {
        last_with(tags, "name"@)
    }
}

/// Whether two strings are the same text.
pub fn same_text(a: &str, b: &str) -> (same: bool)
    ensures
        same == (a@ == b@),
{
    proof {
        encode_utf8_decode_utf8(a@);
        encode_utf8_decode_utf8(b@);
    }
    let o = order_words(a.as_bytes(), b.as_bytes());
    o == Order::Same
}

/// Whether a value of `place` makes a point a settlement.
pub fn names_settlement(value: &str) -> (yes: bool)
    ensures
        yes == is_settlement(value@),
{
    same_text(value, "city") || same_text(value, "town") || same_text(value, "village")
        || same_text(value, "hamlet") || same_text(value, "isolated_dwelling") || same_text(
        value,
        "farm",
    ) || same_text(value, "allotments")
}

/// What the tags file a point as, and its name. A point without a name is
/// not filed.
pub fn classify<'a>(tags: &Vec<(&'a str, &'a str)>) -> (r: Option<(Kind, &'a str)>)
    ensures
        match r {
            Some((kind, name)) => {
                &&& kind == kind_of(tag_texts(tags@))
                &&& 0 <= name_at(tag_texts(tags@)) < tags@.len()
                &&& name == tags@[name_at(tag_texts(tags@))].1
            },
            None => name_at(tag_texts(tags@)) < 0,
        },
{
    let ghost all = tag_texts(tags@);
    let mut name: Option<&'a str> = None;
    let mut name_en: Option<&'a str> = None;
    let mut kind = Kind::Other;
    let mut i: usize = 0;
    proof {
        assert(all.take(0) =~= Seq::<Tag>::empty());
    }
    while i < tags.len()
        invariant
            i <= tags@.len(),
            all == tag_texts(tags@),
            kind == kind_of(all.take(i as int)),
            match name {
                Some(text) => 0 <= last_with(all.take(i as int), "name"@) < i && text
                    == tags@[last_with(all.take(i as int), "name"@)].1,
                None => last_with(all.take(i as int), "name"@) < 0,
            },
            match name_en {
                Some(text) => 0 <= last_with(all.take(i as int), "name:en"@) < i && text
                    == tags@[last_with(all.take(i as int), "name:en"@)].1,
                None => last_with(all.take(i as int), "name:en"@) < 0,
            },
        decreases tags@.len() - i,
    {
        let (key, value) = tags[i];
        proof {
            assert(all.take(i + 1).drop_last() =~= all.take(i as int));
            assert(all.take(i + 1).last() == (key@, value@));
        }
        if same_text(key, "name") {
            name = Some(value);
        } else if same_text(key, "name:en") {
            name_en = Some(value);
        } else if same_text(key, "place") {
            if names_settlement(value) {
                kind = Kind::Settlement;
            } else if same_text(value, "country") {
                kind = Kind::Country;
            }
        }
        proof {
            reveal_strlit("name");
            reveal_strlit("name:en");
            reveal_strlit("place");
            assert("name"@.len() == 4 && "name:en"@.len() == 7 && "place"@.len() == 5);
        }
        i += 1;
    }
    proof {
        assert(all.take(tags@.len() as int) =~= all);
    }
    match name_en {
        Some(text) => Some((kind, text)),
        None => match name {
            Some(text) => Some((kind, text)),
            None => None,
        },
    }
}

/// One point comes before another: by the first coordinate, then by the
/// second, then by the bytes of the name.
pub open spec fn point_before(a: ([i64; 2], String), b: ([i64; 2], String)) -> bool {
    if a.0[0] != b.0[0] {
        a.0[0] < b.0[0]
    } else if a.0[1] != b.0[1] {
        a.0[1] < b.0[1]
    } else {
        lex_less(encode_utf8(a.1@), encode_utf8(b.1@))
    }
}

/// rayon's `par_sort_unstable` on a list of points. It reorders the list
/// in place so that no point stands before one that comes before it in
/// the order of tuples: coordinates first, then the names byte by byte.
#[verifier::external_body]
fn sort_points(list: &mut Vec<([i64; 2], String)>)
    ensures
        final(list)@.len() == old(list)@.len(),
        final(list)@.to_multiset() == old(list)@.to_multiset(),
        forall|i: int, j: int|
            0 <= i < j < final(list)@.len() ==> !point_before(
                #[trigger] final(list)@[j],
                #[trigger] final(list)@[i],
            ),
{
    list.par_sort_unstable();
}

/// The tree of a list of points, built from the sorted list.
pub fn sorted_tree(list: Vec<([i64; 2], String)>) -> (tree: Tree2D<i64, String>)
    requires
        list@.len() < u32::MAX,
    ensures
        tree.wf(),
        tree@.len() == list@.len(),
        points(tree@).to_multiset() == list@.to_multiset(),
        kd_ordered(tree@),
        balanced(tree@),
{
    let mut list = list;
    sort_points(&mut list);
    Tree2D::from_nodes(list)
}

/// The named points of a map extract, filed by kind.
pub struct ImportedNodes {
    pub countries: Tree2D<i64, String>,
    pub settlements: Tree2D<i64, String>,
    pub other: Tree2D<i64, String>,
}

impl ImportedNodes {
    /// The three trees of three lists of points.
    pub fn from_points(
        other: Vec<([i64; 2], String)>,
        settlements: Vec<([i64; 2], String)>,
        countries: Vec<([i64; 2], String)>,
    ) -> (imported: Self)
        requires
            other@.len() < u32::MAX,
            settlements@.len() < u32::MAX,
            countries@.len() < u32::MAX,
        ensures
            points(imported.other@).to_multiset() == other@.to_multiset(),
            points(imported.settlements@).to_multiset() == settlements@.to_multiset(),
            points(imported.countries@).to_multiset() == countries@.to_multiset(),
            kd_ordered(imported.other@) && balanced(imported.other@) && imported.other.wf(),
            kd_ordered(imported.settlements@) && balanced(imported.settlements@)
                && imported.settlements.wf(),
            kd_ordered(imported.countries@) && balanced(imported.countries@)
                && imported.countries.wf(),
    {
        ImportedNodes {
            other: sorted_tree(other),
            settlements: sorted_tree(settlements),
            countries: sorted_tree(countries),
        }
    }
}

} // verus!
