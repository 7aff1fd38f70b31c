//! The abstract index: what the hash table stands for, independent of its buckets.
//!
//! An index maps each word to its postings, the documents that hold the word in
//! the order they were first seen, each with the number of times the word occurs
//! in it.
use vstd::prelude::*;

verus! {

/// A document name with the number of occurrences of the owning word in it.
pub type Posting = (Seq<char>, int);

/// The postings of one word, in order of first occurrence.
pub type Postings = Seq<Posting>;

/// The whole index: every indexed word with its postings.
pub type IndexModel = Map<Seq<char>, Postings>;

/// Whether some posting of `p` names document `d`.
pub open spec fn has_doc(p: Postings, d: Seq<char>) -> bool {
    exists|i: int| 0 <= i < p.len() && p[i].0 == d
}

/// The position of document `d` among the postings `p` (meaningful where `has_doc(p, d)`).
pub open spec fn doc_slot(p: Postings, d: Seq<char>) -> int {
    choose|i: int| 0 <= i < p.len() && p[i].0 == d
}

/// No two postings name the same document, and every count is positive.
pub open spec fn postings_wf(p: Postings) -> bool {
    &&& forall|i: int, j: int| 0 <= i < p.len() && 0 <= j < p.len() && i != j ==> p[i].0 != p[j].0
    &&& forall|i: int| 0 <= i < p.len() ==> p[i].1 >= 1
}

/// Every word of the index has at least one posting, and well-formed postings.
pub open spec fn model_wf(m: IndexModel) -> bool {
    forall|w: Seq<char>| #[trigger] m.contains_key(w) ==> m[w].len() >= 1 && postings_wf(m[w])
}

/// The postings after one more occurrence of the word in document `d`: the count
/// of `d` goes up by one, or `d` is appended with a count of one.
pub open spec fn with_occurrence(p: Postings, d: Seq<char>) -> Postings {
    if has_doc(p, d) {
        let i = doc_slot(p, d);
        p.update(i, (d, p[i].1 + 1))
    } else {
        p.push((d, 1))
    }
}

/// The postings of `w`, empty where the word is not indexed.
pub open spec fn postings_of(m: IndexModel, w: Seq<char>) -> Postings {
    if m.contains_key(w) {
        m[w]
    } else {
        Seq::empty()
    }
}

/// The index after one occurrence of word `w` in document `d`.
pub open spec fn add_to(m: IndexModel, w: Seq<char>, d: Seq<char>) -> IndexModel {
    m.insert(w, with_occurrence(postings_of(m, w), d))
}

/// The number of documents that hold `w`, or `None` where `w` is not indexed.
pub open spec fn doc_freq_of(m: IndexModel, w: Seq<char>) -> Option<int> {
    if m.contains_key(w) {
        Some(m[w].len() as int)
    } else {
        None
    }
}

/// The number of occurrences of `w` in `d`, or `None` where either is unknown.
pub open spec fn term_freq_of(m: IndexModel, w: Seq<char>, d: Seq<char>) -> Option<int> {
    if m.contains_key(w) && has_doc(m[w], d) {
        Some(m[w][doc_slot(m[w], d)].1)
    } else {
        None
    }
}

/// Every counter of the index is at most `k`: the number of words, each
/// document frequency and each term frequency.
pub open spec fn counts_within(m: IndexModel, words: nat, k: int) -> bool {
    &&& words <= k
    &&& forall|w: Seq<char>| #[trigger] m.contains_key(w) ==> m[w].len() <= k && (forall|i: int|
        0 <= i < m[w].len() ==> m[w][i].1 <= k)
}

/// The counter that one occurrence of `w` in `d` increments still has room.
pub open spec fn add_fits(m: IndexModel, words: nat, w: Seq<char>, d: Seq<char>) -> bool {
    if !m.contains_key(w) {
        words < u32::MAX
    } else if has_doc(m[w], d) {
        m[w][doc_slot(m[w], d)].1 < i32::MAX
    } else {
        m[w].len() < i32::MAX
    }
}

proof fn lemma_with_occurrence_wf(p: Postings, d: Seq<char>)
    requires
        postings_wf(p),
    ensures
        postings_wf(with_occurrence(p, d)),
        with_occurrence(p, d).len() >= 1,
{
    if has_doc(p, d) {
        let i = doc_slot(p, d);
        let q = with_occurrence(p, d);
        assert forall|a: int, b: int| 0 <= a < q.len() && 0 <= b < q.len() && a != b implies q[a].0
            != q[b].0 by {
            assert(q[a].0 == p[a].0);
            assert(q[b].0 == p[b].0);
        }
    }
}

/// One more occurrence keeps the index well formed.
pub proof fn lemma_add_keeps_wf(m: IndexModel, w: Seq<char>, d: Seq<char>)
    requires
        model_wf(m),
    ensures
        model_wf(add_to(m, w, d)),
{
    lemma_with_occurrence_wf(postings_of(m, w), d);
}

/// Where every counter is below `k`, so is every counter that may be
/// incremented: one more occurrence fits.
pub proof fn lemma_room_to_add(m: IndexModel, words: nat, k: int, w: Seq<char>, d: Seq<char>)
    requires
        counts_within(m, words, k),
        k < i32::MAX,
    ensures
        add_fits(m, words, w, d),
{
    if m.contains_key(w) && has_doc(m[w], d) {
        let i = doc_slot(m[w], d);
        assert(m[w][i].1 <= k);
    }
}

/// One more occurrence raises each counter by at most one.
pub proof fn lemma_add_counts(m: IndexModel, words: nat, k: int, w: Seq<char>, d: Seq<char>)
    requires
        counts_within(m, words, k),
    ensures
        counts_within(add_to(m, w, d), if m.contains_key(w) { words } else { words + 1 }, k + 1),
{
    let m2 = add_to(m, w, d);
    let p = postings_of(m, w);
    assert forall|v: Seq<char>| #[trigger] m2.contains_key(v) implies m2[v].len() <= k + 1 && (
    forall|i: int| 0 <= i < m2[v].len() ==> m2[v][i].1 <= k + 1) by {
        if v == w {
            if has_doc(p, d) {
                assert forall|i: int| 0 <= i < m2[v].len() implies m2[v][i].1 <= k + 1 by {
                    assert(p[i].1 <= k);
                }
            } else {
                assert forall|i: int| 0 <= i < m2[v].len() implies m2[v][i].1 <= k + 1 by {
                    if i < p.len() {
                        assert(p[i].1 <= k);
                    }
                }
            }
        }
    }
}

/// Adding a word twice for the same document, to an index that lacks the word,
/// leaves one document for it, which holds the word twice.
pub proof fn lemma_add_twice_same_doc(m: IndexModel, w: Seq<char>, d: Seq<char>)
    requires
        !m.contains_key(w),
    ensures
        term_freq_of(add_to(add_to(m, w, d), w, d), w, d) == Some(2int),
        doc_freq_of(add_to(add_to(m, w, d), w, d), w) == Some(1int),
{
    let m1 = add_to(m, w, d);
    assert(!has_doc(Seq::<Posting>::empty(), d));
    assert(m1[w] == seq![(d, 1int)]);
    assert(m1[w][0].0 == d);
    assert(has_doc(m1[w], d));
    assert(doc_slot(m1[w], d) == 0);
    let m2 = add_to(m1, w, d);
    assert(m2[w] == seq![(d, 2int)]);
    assert(m2[w][0].0 == d);
    assert(has_doc(m2[w], d));
}

/// Adding a word for two different documents, to an index that lacks the word,
/// gives it a document frequency of two.
pub proof fn lemma_add_two_docs(m: IndexModel, w: Seq<char>, d1: Seq<char>, d2: Seq<char>)
    requires
        !m.contains_key(w),
        d1 != d2,
    ensures
        doc_freq_of(add_to(add_to(m, w, d1), w, d2), w) == Some(2int),
{
    let m1 = add_to(m, w, d1);
    assert(!has_doc(Seq::<Posting>::empty(), d1));
    assert(m1[w] == seq![(d1, 1int)]);
    assert(m1[w][0].0 == d1);
    assert(!has_doc(m1[w], d2));
}

/// Once a word is removed, its document frequency is unknown.
pub proof fn lemma_removed_word_unknown(m: IndexModel, w: Seq<char>)
    ensures
        doc_freq_of(m.remove(w), w) is None,
{
}

} // verus!
