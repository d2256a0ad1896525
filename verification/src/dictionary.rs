//! The dictionary of an encoded tree: every word once, in the order of
//! their bytes.

use vstd::prelude::*;

verus! {

/// `a` comes before `b` in the order of their bytes: at the first byte in
/// which they differ `a` has the lesser, or `a` ends there and `b` goes on.
pub open spec fn lex_less(a: Seq<u8>, b: Seq<u8>) -> bool
    decreases a.len(),
{
    if b.len() == 0 {
        false
    } else if a.len() == 0 {
        true
    } else if a[0] != b[0] {
        a[0] < b[0]
    } else {
        lex_less(a.skip(1), b.skip(1))
    }
}

/// Every word comes before the ones behind it; so none occurs twice.
pub open spec fn strictly_sorted(dict: Seq<Seq<u8>>) -> bool {
    forall|i: int, j: int|
        0 <= i < j < dict.len() ==> lex_less(#[trigger] dict[i], #[trigger] dict[j])
}

/// How many words of the dictionary come before `word`. In a sorted
/// dictionary this is where the word stands, or where it belongs.
pub open spec fn place(dict: Seq<Seq<u8>>, word: Seq<u8>) -> int
    decreases dict.len(),
{
    if dict.len() == 0 {
        0
    } else {
        place(dict.drop_last(), word) + if lex_less(dict.last(), word) {
            1int
        } else {
            0int
        }
    }
}

/// The dictionary holds the word.
pub open spec fn has_word(dict: Seq<Seq<u8>>, word: Seq<u8>) -> bool {
    0 <= place(dict, word) < dict.len() && dict[place(dict, word)] == word
}

/// The dictionary with the word in it.
pub open spec fn with_word(dict: Seq<Seq<u8>>, word: Seq<u8>) -> Seq<Seq<u8>> {
    if has_word(dict, word) {
        dict
    } else {
        dict.insert(place(dict, word), word)
    }
}

/// The dictionary of the words: each of them once, sorted.
pub open spec fn dictionary(words: Seq<Seq<u8>>) -> Seq<Seq<u8>>
    decreases words.len(),
{
    if words.len() == 0 {
        Seq::empty()
    } else {
        with_word(dictionary(words.drop_last()), words.last())
    }
}

/// The words of the dictionary one after the other.
pub open spec fn concat(dict: Seq<Seq<u8>>) -> Seq<u8>
    decreases dict.len(),
{
    if dict.len() == 0 {
        Seq::empty()
    } else {
        concat(dict.drop_last()) + dict.last()
    }
}

/// No word comes before itself.
pub proof fn lemma_lex_irreflexive(a: Seq<u8>)
    ensures
        !lex_less(a, a),
    decreases a.len(),
{
    if a.len() > 0 {
        lemma_lex_irreflexive(a.skip(1));
    }
}

/// Of two different words one comes before the other.
pub proof fn lemma_lex_total(a: Seq<u8>, b: Seq<u8>)
    ensures
        lex_less(a, b) || lex_less(b, a) || a == b,
        !(lex_less(a, b) && lex_less(b, a)),
    decreases a.len(),
{
    if a.len() > 0 && b.len() > 0 && a[0] == b[0] {
        lemma_lex_total(a.skip(1), b.skip(1));
        if a.skip(1) == b.skip(1) {
            assert(a =~= seq![a[0]] + a.skip(1));
            assert(b =~= seq![b[0]] + b.skip(1));
        }
    } else if a.len() == 0 && b.len() == 0 {
        assert(a =~= b);
    }
}

pub proof fn lemma_lex_transitive(a: Seq<u8>, b: Seq<u8>, c: Seq<u8>)
    requires
        lex_less(a, b),
        lex_less(b, c),
    ensures
        lex_less(a, c),
    decreases a.len(),
{
    if a.len() > 0 && a[0] == b[0] && b[0] == c[0] {
        lemma_lex_transitive(a.skip(1), b.skip(1), c.skip(1));
    }
}

/// In a sorted dictionary the place of a word has all lesser words before
/// it and no lesser word from it on.
pub proof fn lemma_place_splits(dict: Seq<Seq<u8>>, word: Seq<u8>)
    requires
        strictly_sorted(dict),
    ensures
        0 <= place(dict, word) <= dict.len(),
        forall|j: int| 0 <= j < place(dict, word) ==> lex_less(#[trigger] dict[j], word),
        forall|j: int| place(dict, word) <= j < dict.len() ==> !lex_less(#[trigger] dict[j], word),
    decreases dict.len(),
{
    if dict.len() > 0 {
        let shorter = dict.drop_last();
        assert forall|i: int, j: int| 0 <= i < j < shorter.len() implies lex_less(
            #[trigger] shorter[i],
            #[trigger] shorter[j],
        ) by {
            assert(lex_less(dict[i], dict[j]));
        }
        lemma_place_splits(shorter, word);
        let at = place(shorter, word);
        if lex_less(dict.last(), word) {
            assert forall|j: int| 0 <= j < shorter.len() implies lex_less(
                #[trigger] shorter[j],
                word,
            ) by {
                assert(lex_less(dict[j], dict[dict.len() - 1]));
                lemma_lex_transitive(dict[j], dict.last(), word);
            }
            if at < shorter.len() {
                assert(lex_less(shorter[at], word));
            }
            assert forall|j: int| 0 <= j < place(dict, word) implies lex_less(
                #[trigger] dict[j],
                word,
            ) by {
                if j < shorter.len() {
                    assert(lex_less(shorter[j], word));
                }
            }
        } else {
            assert forall|j: int| 0 <= j < place(dict, word) implies lex_less(
                #[trigger] dict[j],
                word,
            ) by {
                assert(lex_less(shorter[j], word));
            }
            assert forall|j: int| place(dict, word) <= j < dict.len() implies !lex_less(
                #[trigger] dict[j],
                word,
            ) by {
                if j < shorter.len() {
                    assert(!lex_less(shorter[j], word));
                }
            }
        }
    }
}

/// In a sorted dictionary a position with all lesser words before it and
/// none from it on is the place of the word.
pub proof fn lemma_place_is_boundary(dict: Seq<Seq<u8>>, word: Seq<u8>, at: int)
    requires
        0 <= at <= dict.len(),
        forall|j: int| 0 <= j < at ==> lex_less(#[trigger] dict[j], word),
        forall|j: int| at <= j < dict.len() ==> !lex_less(#[trigger] dict[j], word),
    ensures
        place(dict, word) == at,
    decreases dict.len(),
{
    if dict.len() > 0 {
        let shorter = dict.drop_last();
        assert(forall|j: int| 0 <= j < shorter.len() ==> shorter[j] == dict[j]);
        if at == dict.len() {
            assert(lex_less(dict[dict.len() - 1], word));
            lemma_place_is_boundary(shorter, word, at - 1);
        } else {
            assert(!lex_less(dict[dict.len() - 1], word));
            lemma_place_is_boundary(shorter, word, at);
        }
    }
}

/// A word of a sorted dictionary stands at its place.
pub proof fn lemma_place_of_member(dict: Seq<Seq<u8>>, i: int)
    requires
        strictly_sorted(dict),
        0 <= i < dict.len(),
    ensures
        place(dict, dict[i]) == i,
        has_word(dict, dict[i]),
{
    let word = dict[i];
    assert forall|j: int| i <= j < dict.len() implies !lex_less(#[trigger] dict[j], word) by {
        if j == i {
            lemma_lex_irreflexive(word);
        } else {
            assert(lex_less(dict[i], dict[j]));
            lemma_lex_total(dict[i], dict[j]);
        }
    }
    assert forall|j: int| 0 <= j < i implies lex_less(#[trigger] dict[j], word) by {
        assert(lex_less(dict[j], dict[i]));
    }
    lemma_place_is_boundary(dict, word, i);
}

/// Adding a word keeps a dictionary sorted; afterwards it holds the word
/// and what it held before, and nothing else.
pub proof fn lemma_with_word(dict: Seq<Seq<u8>>, word: Seq<u8>)
    requires
        strictly_sorted(dict),
    ensures
        strictly_sorted(with_word(dict, word)),
        has_word(with_word(dict, word), word),
        dict.len() <= with_word(dict, word).len() <= dict.len() + 1,
        forall|other: Seq<u8>|
            has_word(with_word(dict, word), other) <==> (other == word || has_word(dict, other)),
{
    let at = place(dict, word);
    let new = with_word(dict, word);
    lemma_place_splits(dict, word);
    if !has_word(dict, word) {
        assert forall|i: int, j: int| 0 <= i < j < new.len() implies lex_less(
            #[trigger] new[i],
            #[trigger] new[j],
        ) by {
            if j < at {
                assert(lex_less(dict[i], dict[j]));
            } else if i > at {
                assert(lex_less(dict[i - 1], dict[j - 1]));
            } else if i == at {
                assert(!lex_less(dict[j - 1], word));
                lemma_lex_total(dict[j - 1], word);
                if dict[j - 1] == word {
                    if j - 1 > at {
                        assert(lex_less(dict[at], dict[j - 1]));
                        assert(!lex_less(dict[at], word));
                    }
                }
            } else if j == at {
                assert(lex_less(dict[i], word));
            } else {
                assert(lex_less(dict[i], dict[j - 1]));
            }
        }
        assert(new[at] == word);
        lemma_place_of_member(new, at);
    }
    assert forall|other: Seq<u8>|
        has_word(new, other) <==> (other == word || has_word(dict, other)) by {
        lemma_place_splits(new, other);
        lemma_place_splits(dict, other);
        if has_word(new, other) && other != word {
            let p = place(new, other);
            if !has_word(dict, word) {
                let q = if p < at {
                    p
                } else {
                    p - 1
                };
                assert(dict[q] == other);
                lemma_place_of_member(dict, q);
            }
        }
        if has_word(dict, other) {
            let q = place(dict, other);
            if !has_word(dict, word) {
                let p = if q < at {
                    q
                } else {
                    q + 1
                };
                assert(new[p] == other);
                lemma_place_of_member(new, p);
            }
        }
    }
}

/// The dictionary of a list of words is sorted and holds exactly those
/// words.
pub proof fn lemma_dictionary(words: Seq<Seq<u8>>)
    ensures
        strictly_sorted(dictionary(words)),
        forall|word: Seq<u8>| has_word(dictionary(words), word) <==> words.contains(word),
        dictionary(words).len() <= words.len(),
    decreases words.len(),
{
    if words.len() > 0 {
        let before = words.drop_last();
        lemma_dictionary(before);
        lemma_with_word(dictionary(before), words.last());
        assert forall|word: Seq<u8>| has_word(dictionary(words), word) <==> words.contains(
            word,
        ) by {
            if words.contains(word) {
                let i = choose|i: int| 0 <= i < words.len() && words[i] == word;
                if i < before.len() {
                    assert(before[i] == word);
                    assert(before.contains(word));
                }
            }
            if before.contains(word) {
                let i = choose|i: int| 0 <= i < before.len() && before[i] == word;
                assert(words[i] == word);
            }
            assert(words[words.len() - 1] == words.last());
        }
    } else {
        assert forall|word: Seq<u8>| !has_word(dictionary(words), word) by {}
    }
}

pub proof fn lemma_concat_push(dict: Seq<Seq<u8>>, word: Seq<u8>)
    ensures
        concat(dict.push(word)) == concat(dict) + word,
{
    assert(dict.push(word).drop_last() =~= dict);
}

/// A sorted dictionary holds a word exactly when the word is among its
/// entries.
pub proof fn lemma_has_word(dict: Seq<Seq<u8>>, word: Seq<u8>)
    requires
        strictly_sorted(dict),
    ensures
        has_word(dict, word) <==> dict.contains(word),
{
    if dict.contains(word) {
        let i = choose|i: int| 0 <= i < dict.len() && dict[i] == word;
        lemma_place_of_member(dict, i);
    }
}

/// Two sorted dictionaries with the same words are the same dictionary.
pub proof fn lemma_sorted_unique(a: Seq<Seq<u8>>, b: Seq<Seq<u8>>)
    requires
        strictly_sorted(a),
        strictly_sorted(b),
        forall|word: Seq<u8>| a.contains(word) <==> b.contains(word),
    ensures
        a == b,
    decreases a.len(),
{
    if a.len() == 0 {
        if b.len() > 0 {
            assert(b.contains(b[0]));
        }
        assert(a =~= b);
    } else {
        let top = a.last();
        assert(a.contains(top));
        assert(b.contains(top));
        let at = choose|i: int| 0 <= i < b.len() && b[i] == top;
        if at < b.len() - 1 {
            let over = b.last();
            assert(b.contains(over));
            assert(lex_less(b[at], b[b.len() - 1]));
            let i = choose|i: int| 0 <= i < a.len() && a[i] == over;
            if i < a.len() - 1 {
                assert(lex_less(a[i], a[a.len() - 1]));
            }
            lemma_lex_total(over, top);
            lemma_lex_irreflexive(top);
        }
        let a1 = a.drop_last();
        let b1 = b.drop_last();
        assert forall|word: Seq<u8>| a1.contains(word) <==> b1.contains(word) by {
            lemma_lex_irreflexive(top);
            if a1.contains(word) {
                let i = choose|i: int| 0 <= i < a1.len() && a1[i] == word;
                assert(lex_less(a[i], a[a.len() - 1]));
                assert(a.contains(word));
                let j = choose|j: int| 0 <= j < b.len() && b[j] == word;
                assert(b1[j] == word);
            }
            if b1.contains(word) {
                let j = choose|j: int| 0 <= j < b1.len() && b1[j] == word;
                assert(lex_less(b[j], b[b.len() - 1]));
                assert(b.contains(word));
                let i = choose|i: int| 0 <= i < a.len() && a[i] == word;
                assert(a1[i] == word);
            }
        }
        assert(strictly_sorted(a1)) by {
            assert forall|i: int, j: int| 0 <= i < j < a1.len() implies lex_less(
                #[trigger] a1[i],
                #[trigger] a1[j],
            ) by {
                assert(lex_less(a[i], a[j]));
            }
        }
        assert(strictly_sorted(b1)) by {
            assert forall|i: int, j: int| 0 <= i < j < b1.len() implies lex_less(
                #[trigger] b1[i],
                #[trigger] b1[j],
            ) by {
                assert(lex_less(b[i], b[j]));
            }
        }
        lemma_sorted_unique(a1, b1);
        assert(a =~= a1.push(top));
        assert(b =~= b1.push(top));
    }
}

/// The dictionary depends on which words there are, not on their order or
/// on how often they occur.
pub proof fn lemma_dictionary_of_same_words(one: Seq<Seq<u8>>, other: Seq<Seq<u8>>)
    requires
        forall|word: Seq<u8>| one.contains(word) <==> other.contains(word),
    ensures
        dictionary(one) == dictionary(other),
{
    lemma_dictionary(one);
    lemma_dictionary(other);
    assert forall|word: Seq<u8>| dictionary(one).contains(word) <==> dictionary(other).contains(
        word,
    ) by {
        lemma_has_word(dictionary(one), word);
        lemma_has_word(dictionary(other), word);
        assert(has_word(dictionary(one), word) <==> one.contains(word));
        assert(has_word(dictionary(other), word) <==> other.contains(word));
    }
    lemma_sorted_unique(dictionary(one), dictionary(other));
}

/// How one word stands to another in the order of their bytes.
#[derive(Debug, Clone, Copy, PartialEq, Eq, Structural)]
pub enum Order {
    Before,
    Same,
    After,
}

/// How `a` stands to `b`.
pub fn order_words(a: &[u8], b: &[u8]) -> (o: Order)
    ensures
        o == Order::Before <==> lex_less(a@, b@),
        o == Order::Same <==> a@ == b@,
        o == Order::After <==> lex_less(b@, a@),
{
    proof {
        lemma_lex_total(a@, b@);
        lemma_lex_irreflexive(a@);
    }
    let mut i: usize = 0;
    proof {
        assert(a@.skip(0) =~= a@);
        assert(b@.skip(0) =~= b@);
    }
    while i < a.len() && i < b.len()
        invariant
            i <= a@.len(),
            i <= b@.len(),
            lex_less(a@, b@) == lex_less(a@.skip(i as int), b@.skip(i as int)),
            lex_less(b@, a@) == lex_less(b@.skip(i as int), a@.skip(i as int)),
        decreases a@.len() - i,
    {
        proof {
            assert(a@.skip(i as int).skip(1) =~= a@.skip(i + 1));
            assert(b@.skip(i as int).skip(1) =~= b@.skip(i + 1));
        }
        if a[i] < b[i] {
            return Order::Before;
        }
        if a[i] > b[i] {
            return Order::After;
        }
        i += 1;
    }
    if a.len() < b.len() {
        Order::Before
    } else if a.len() > b.len() {
        Order::After
    } else {
        proof {
            lemma_lex_irreflexive(a@.skip(i as int));
            assert(!lex_less(a@, b@) && !lex_less(b@, a@));
        }
        Order::Same
    }
}

/// The words as the byte sequences they are.
pub open spec fn spelled(words: Seq<&[u8]>) -> Seq<Seq<u8>> {
    Seq::new(words.len(), |i: int| words[i]@)
}

/// The place of `word` in the dictionary, and whether it stands there.
pub fn find_word(dict: &Vec<&[u8]>, word: &[u8]) -> (r: (usize, bool))
    requires
        strictly_sorted(spelled(dict@)),
    ensures
        r.0 == place(spelled(dict@), word@),
        r.1 == has_word(spelled(dict@), word@),
        r.0 <= dict@.len(),
{
    let ghost all = spelled(dict@);
    let mut lo: usize = 0;
    let mut hi: usize = dict.len();
    while lo < hi
        invariant
            lo <= hi <= dict@.len(),
            all == spelled(dict@),
            strictly_sorted(all),
            forall|j: int| 0 <= j < lo ==> lex_less(#[trigger] all[j], word@),
            forall|j: int| hi <= j < all.len() ==> !lex_less(#[trigger] all[j], word@),
        decreases hi - lo,
    {
        let mid = lo + (hi - lo) / 2;
        let o = order_words(dict[mid], word);
        assert(all[mid as int] == dict@[mid as int]@);
        match o {
            Order::Before => {
                proof {
                    assert forall|j: int| 0 <= j < mid + 1 implies lex_less(
                        #[trigger] all[j],
                        word@,
                    ) by {
                        if j < mid {
                            assert(lex_less(all[j], all[mid as int]));
                            lemma_lex_transitive(all[j], all[mid as int], word@);
                        }
                    }
                }
                lo = mid + 1;
            },
            _ => {
                proof {
                    assert forall|j: int| mid <= j < all.len() implies !lex_less(
                        #[trigger] all[j],
                        word@,
                    ) by {
                        lemma_lex_total(all[mid as int], word@);
                        lemma_lex_irreflexive(word@);
                        if j > mid {
                            assert(lex_less(all[mid as int], all[j]));
                            if lex_less(all[j], word@) {
                                lemma_lex_transitive(all[mid as int], all[j], word@);
                            }
                        }
                    }
                }
                hi = mid;
            },
        }
    }
    proof {
        lemma_place_is_boundary(all, word@, lo as int);
    }
    if lo < dict.len() {
        let o = order_words(dict[lo], word);
        assert(all[lo as int] == dict@[lo as int]@);
        (lo, o == Order::Same)
    } else {
        (lo, false)
    }
}

/// No word comes before one that stands before it; words may repeat.
pub open spec fn ordered(words: Seq<Seq<u8>>) -> bool {
    forall|i: int, j: int|
        0 <= i < j < words.len() ==> !lex_less(#[trigger] words[j], #[trigger] words[i])
}

/// If `c` does not come before `b`, nor `b` before `a`, then `c` does not
/// come before `a`.
pub proof fn lemma_not_before_transitive(a: Seq<u8>, b: Seq<u8>, c: Seq<u8>)
    requires
        !lex_less(b, a),
        !lex_less(c, b),
    ensures
        !lex_less(c, a),
{
    lemma_lex_total(a, b);
    lemma_lex_total(b, c);
    if lex_less(c, a) {
        if a == b {
        } else if b == c {
        } else {
            lemma_lex_transitive(c, a, b);
        }
    }
}

/// Two ordered lists as one ordered list.
fn merge<'a>(one: &Vec<&'a [u8]>, other: &Vec<&'a [u8]>) -> (out: Vec<&'a [u8]>)
    requires
        ordered(spelled(one@)),
        ordered(spelled(other@)),
        one@.len() + other@.len() <= usize::MAX,
    ensures
        ordered(spelled(out@)),
        out@.len() == one@.len() + other@.len(),
        forall|word: Seq<u8>|
            spelled(out@).contains(word) <==> spelled(one@).contains(word) || spelled(
                other@,
            ).contains(word),
{
    let ghost a = spelled(one@);
    let ghost b = spelled(other@);
    let mut out: Vec<&'a [u8]> = Vec::new();
    let mut i: usize = 0;
    let mut j: usize = 0;
    while i < one.len() || j < other.len()
        invariant
            i <= one@.len(),
            j <= other@.len(),
            a == spelled(one@),
            b == spelled(other@),
            ordered(a),
            ordered(b),
            out@.len() == i + j,
            ordered(spelled(out@)),
            forall|p: int|
                0 <= p < out@.len() && i < a.len() ==> !lex_less(
                    a[i as int],
                    #[trigger] spelled(out@)[p],
                ),
            forall|p: int|
                0 <= p < out@.len() && j < b.len() ==> !lex_less(
                    b[j as int],
                    #[trigger] spelled(out@)[p],
                ),
            forall|word: Seq<u8>|
                spelled(out@).contains(word) <==> a.take(i as int).contains(word) || b.take(
                    j as int,
                ).contains(word),
        decreases one@.len() - i + other@.len() - j,
    {
        let ghost before = spelled(out@);
        let from_one = if i < one.len() && j < other.len() {
            match order_words(one[i], other[j]) {
                Order::After => false,
                _ => true,
            }
        } else {
            i < one.len()
        };
        let word: &'a [u8] = if from_one {
            one[i]
        } else {
            other[j]
        };
        proof {
            if i < a.len() {
                assert(a[i as int] == one@[i as int]@);
            }
            if j < b.len() {
                assert(b[j as int] == other@[j as int]@);
            }
            if i < a.len() && j < b.len() {
                lemma_lex_total(a[i as int], b[j as int]);
            }
        }
        out.push(word);
        proof {
            let after = spelled(out@);
            assert(after =~= before.push(word@));
            assert forall|p: int, q: int| 0 <= p < q < after.len() implies !lex_less(
                #[trigger] after[q],
                #[trigger] after[p],
            ) by {
                if q < before.len() {
                    assert(!lex_less(before[q], before[p]));
                } else {
                    assert(after[p] == before[p]);
                }
            }
            let i2 = if from_one {
                i + 1
            } else {
                i as int
            };
            let j2 = if from_one {
                j as int
            } else {
                j + 1
            };
            assert forall|p: int| 0 <= p < after.len() && i2 < a.len() implies !lex_less(
                a[i2],
                #[trigger] after[p],
            ) by {
                if from_one {
                    assert(!lex_less(a[i2], a[i as int]));
                    if p < before.len() {
                        assert(after[p] == before[p]);
                        lemma_not_before_transitive(before[p], a[i as int], a[i2]);
                    }
                } else if p < before.len() {
                    assert(after[p] == before[p]);
                }
            }
            assert forall|p: int| 0 <= p < after.len() && j2 < b.len() implies !lex_less(
                b[j2],
                #[trigger] after[p],
            ) by {
                if !from_one {
                    assert(!lex_less(b[j2], b[j as int]));
                    if p < before.len() {
                        assert(after[p] == before[p]);
                        lemma_not_before_transitive(before[p], b[j as int], b[j2]);
                    }
                } else if p < before.len() {
                    assert(after[p] == before[p]);
                }
            }
            assert forall|w: Seq<u8>|
                after.contains(w) <==> a.take(i2).contains(w) || b.take(j2).contains(w) by {
                lemma_contains_push(before, word@, w);
                if from_one {
                    assert(a.take(i2) =~= a.take(i as int).push(word@));
                    lemma_contains_push(a.take(i as int), word@, w);
                } else {
                    assert(b.take(j2) =~= b.take(j as int).push(word@));
                    lemma_contains_push(b.take(j as int), word@, w);
                }
            }
        }
        if from_one {
            i += 1;
        } else {
            j += 1;
        }
    }
    proof {
        assert(a.take(i as int) =~= a);
        assert(b.take(j as int) =~= b);
    }
    out
}

/// A list with one more element holds what it held and that element.
pub proof fn lemma_contains_push<A>(list: Seq<A>, last: A, x: A)
    ensures
        list.push(last).contains(x) <==> list.contains(x) || x == last,
{
    let longer = list.push(last);
    if list.contains(x) {
        let i = choose|i: int| 0 <= i < list.len() && list[i] == x;
        assert(longer[i] == x);
    }
    if x == last {
        assert(longer[list.len() as int] == x);
    }
    if longer.contains(x) {
        let i = choose|i: int| 0 <= i < longer.len() && longer[i] == x;
        if i < list.len() {
            assert(list[i] == x);
        }
    }
}

/// The words of `words[lo..hi]` in order, by merging the two halves in
/// order.
fn sort_words<'a>(words: &Vec<&'a [u8]>, lo: usize, hi: usize) -> (out: Vec<&'a [u8]>)
    requires
        lo <= hi <= words@.len(),
    ensures
        ordered(spelled(out@)),
        out@.len() == hi - lo,
        forall|word: Seq<u8>|
            spelled(out@).contains(word) <==> spelled(words@).subrange(
                lo as int,
                hi as int,
            ).contains(word),
    decreases hi - lo,
{
    let ghost all = spelled(words@);
    if hi - lo <= 1 {
        let mut out: Vec<&'a [u8]> = Vec::new();
        if lo < hi {
            out.push(words[lo]);
        }
        proof {
            assert(spelled(out@) =~= all.subrange(lo as int, hi as int));
        }
        out
    } else {
        let mid = lo + (hi - lo) / 2;
        let left = sort_words(words, lo, mid);
        let right = sort_words(words, mid, hi);
        let out = merge(&left, &right);
        proof {
            let whole = all.subrange(lo as int, hi as int);
            let first = all.subrange(lo as int, mid as int);
            let second = all.subrange(mid as int, hi as int);
            assert(whole =~= first + second);
            assert forall|word: Seq<u8>|
                spelled(out@).contains(word) <==> whole.contains(word) by {
                if first.contains(word) {
                    let p = choose|p: int| 0 <= p < first.len() && first[p] == word;
                    assert(whole[p] == word);
                }
                if second.contains(word) {
                    let p = choose|p: int| 0 <= p < second.len() && second[p] == word;
                    assert(whole[first.len() + p] == word);
                }
                if whole.contains(word) {
                    let p = choose|p: int| 0 <= p < whole.len() && whole[p] == word;
                    if p < first.len() {
                        assert(first[p] == word);
                    } else {
                        assert(second[p - first.len()] == word);
                    }
                }
            }
        }
        out
    }
}

/// An ordered list without its repeats.
fn without_repeats<'a>(words: Vec<&'a [u8]>) -> (out: Vec<&'a [u8]>)
    requires
        ordered(spelled(words@)),
    ensures
        strictly_sorted(spelled(out@)),
        forall|word: Seq<u8>| spelled(out@).contains(word) <==> spelled(words@).contains(word),
{
    let ghost all = spelled(words@);
    let mut out: Vec<&'a [u8]> = Vec::new();
    let mut i: usize = 0;
    while i < words.len()
        invariant
            i <= words@.len(),
            all == spelled(words@),
            ordered(all),
            strictly_sorted(spelled(out@)),
            out@.len() <= i,
            i > 0 ==> out@.len() > 0 && spelled(out@).last() == all[i - 1],
            forall|word: Seq<u8>|
                spelled(out@).contains(word) <==> all.take(i as int).contains(word),
        decreases words@.len() - i,
    {
        let ghost before = spelled(out@);
        let word = words[i];
        proof {
            assert(all[i as int] == word@);
            assert(all.take(i + 1) =~= all.take(i as int).push(word@));
        }
        let fresh = if out.len() == 0 {
            true
        } else {
            match order_words(out[out.len() - 1], word) {
                Order::Same => false,
                _ => true,
            }
        };
        if fresh {
            out.push(word);
            proof {
                let after = spelled(out@);
                assert(after =~= before.push(word@));
                assert forall|p: int, q: int| 0 <= p < q < after.len() implies lex_less(
                    #[trigger] after[p],
                    #[trigger] after[q],
                ) by {
                    if q < before.len() {
                        assert(lex_less(before[p], before[q]));
                    } else {
                        let top = before[before.len() - 1];
                        assert(top == all[i - 1]);
                        assert(!lex_less(all[i as int], all[i - 1]));
                        lemma_lex_total(top, word@);
                        if p < before.len() - 1 {
                            assert(lex_less(before[p], before[before.len() - 1]));
                            lemma_lex_transitive(before[p], top, word@);
                        }
                    }
                }
                assert forall|w: Seq<u8>|
                    after.contains(w) <==> all.take(i + 1).contains(w) by {
                    lemma_contains_push(before, word@, w);
                    lemma_contains_push(all.take(i as int), word@, w);
                }
            }
        } else {
            proof {
                assert forall|w: Seq<u8>|
                    before.contains(w) <==> all.take(i + 1).contains(w) by {
                    lemma_contains_push(all.take(i as int), word@, w);
                    assert(before[before.len() - 1] == word@);
                }
            }
        }
        i += 1;
    }
    proof {
        assert(all.take(words@.len() as int) =~= all);
    }
    out
}

/// The dictionary of the words: each of them once, sorted.
pub fn dictionary_of<'a>(words: &Vec<&'a [u8]>) -> (dict: Vec<&'a [u8]>)
    ensures
        spelled(dict@) == dictionary(spelled(words@)),
{
    let ordered_words = sort_words(words, 0, words.len());
    let dict = without_repeats(ordered_words);
    proof {
        let all = spelled(words@);
        assert(all.subrange(0, all.len() as int) =~= all);
        lemma_dictionary(all);
        assert forall|word: Seq<u8>|
            spelled(dict@).contains(word) <==> dictionary(all).contains(word) by {
            lemma_has_word(dictionary(all), word);
            assert(has_word(dictionary(all), word) <==> all.contains(word));
        }
        lemma_sorted_unique(spelled(dict@), dictionary(all));
    }
    dict
}

} // verus!
