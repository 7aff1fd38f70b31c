//! The open-chained hash table that maps each word to the documents that hold it.
use vstd::prelude::*;

use crate::model::{
    add_fits, add_to, doc_freq_of, doc_slot, has_doc, model_wf, postings_wf, term_freq_of,
    with_occurrence, IndexModel, Posting, Postings,
};

verus! {

/// Two to the sixty-fourth: the modulus of the hash accumulator's arithmetic.
pub open spec fn word_modulus() -> nat {
    0x1_0000_0000_0000_0000
}

/// The hash accumulator after consuming `s`: it starts at 1, and the characters
/// at even positions multiply it by their code point, those at odd positions add
/// theirs, all modulo 2^64.
pub open spec fn hash_acc(s: Seq<char>) -> nat
    decreases s.len(),
{
    if s.len() == 0 {
        1
    } else {
        let prev = hash_acc(s.drop_last());
        let c = s.last() as u32 as nat;
        if (s.len() - 1) % 2 == 0 {
            (prev * c) % word_modulus()
        } else {
            (prev + c) % word_modulus()
        }
    }
}

/// The bucket that a word falls in, for a table of `buckets` chains.
pub open spec fn bucket_of(word: Seq<char>, buckets: nat) -> nat {
    hash_acc(word) % buckets
}

/// A word's bucket is one of the table's chains.
pub proof fn lemma_bucket_in_range(word: Seq<char>, buckets: nat)
    requires
        buckets > 0,
    ensures
        bucket_of(word, buckets) < buckets,
{
}

proof fn lemma_hash_acc_bounded(s: Seq<char>)
    ensures
        hash_acc(s) < word_modulus(),
    decreases s.len(),
{
    if s.len() > 0 {
        lemma_hash_acc_bounded(s.drop_last());
    }
}

/// The number of word entries over all chains of `t`.
pub open spec fn chain_total(t: Seq<Seq<WordNode>>) -> nat
    decreases t.len(),
{
    if t.len() == 0 {
        0
    } else {
        chain_total(t.drop_last()) + t.last().len()
    }
}

proof fn lemma_chain_total_update(t: Seq<Seq<WordNode>>, i: int, v: Seq<WordNode>)
    requires
        0 <= i < t.len(),
    ensures
        chain_total(t.update(i, v)) == chain_total(t) - t[i].len() + v.len(),
    decreases t.len(),
{
    let u = t.update(i, v);
    if i == t.len() - 1 {
        assert(u.drop_last() == t.drop_last());
    } else {
        assert(u.drop_last() == t.drop_last().update(i, v));
        lemma_chain_total_update(t.drop_last(), i, v);
    }
}

/// What `get_term_freq` returns for a word that is not indexed.
pub const WORD_NOT_FOUND: &'static str = "Word not found in hashmap";

/// What `get_term_freq` returns for an indexed word that the document lacks.
pub const DOC_NOT_FOUND: &'static str = "Document not found for given word";

/// One document that holds a word, with the number of times it does.
#[derive(Debug)]
pub struct DocNode {
    document_name: String,
    term_freq: i32,
}

impl View for DocNode {
    type V = Posting;

    closed spec fn view(&self) -> Posting {
        (self.document_name@, self.term_freq as int)
    }
}

impl DocNode {
    /// A document seen for the first time: one occurrence.
    pub fn new(doc: String) -> (r: DocNode)
        ensures
            r@ == (doc@, 1int),
    {
        DocNode { document_name: doc, term_freq: 1 }
    }
}

/// One indexed word, with the documents that hold it.
#[derive(Debug)]
pub struct WordNode {
    word: String,
    doc_freq: i32,
    documents: Vec<DocNode>,
}

impl WordNode {
    /// The indexed word.
    pub closed spec fn spec_word(&self) -> Seq<char> {
        self.word@
    }

    /// The documents of the word, in order of first occurrence.
    pub closed spec fn postings(&self) -> Postings {
        self.documents@.map_values(|d: DocNode| d@)
    }

    /// The document frequency is the number of documents, which are distinct,
    /// at least one, and each hold the word at least once.
    pub closed spec fn wf(&self) -> bool {
        &&& self.doc_freq as int == self.documents@.len()
        &&& self.documents@.len() >= 1
        &&& postings_wf(self.postings())
    }

    /// A word seen for the first time, in document `doc`.
    pub fn new(word: String, doc: String) -> (r: WordNode)
        ensures
            r.wf(),
            r.spec_word() == word@,
            r.postings() == seq![(doc@, 1int)],
    {
        let mut node = WordNode { word, doc_freq: 1, documents: Vec::with_capacity(4) };
        node.documents.push(DocNode::new(doc));
        proof {
            assert(node.postings() =~= seq![(doc@, 1int)]);
        }
        node
    }

    /// One more occurrence of the word in document `doc`.
    fn record(&mut self, doc: String)
        requires
            old(self).wf(),
            has_doc(old(self).postings(), doc@) ==> old(self).postings()[doc_slot(
                old(self).postings(),
                doc@,
            )].1 < i32::MAX,
            !has_doc(old(self).postings(), doc@) ==> old(self).postings().len() < i32::MAX,
        ensures
            final(self).wf(),
            final(self).spec_word() == old(self).spec_word(),
            final(self).postings() == with_occurrence(old(self).postings(), doc@),
    {
        let ghost p = self.postings();
        let n = self.documents.len();
        let mut k: usize = 0;
        while k < n
            invariant
                self.wf(),
                self.postings() == p,
                p == old(self).postings(),
                self.word@ == old(self).word@,
                n == self.documents@.len(),
                0 <= k <= n,
                forall|i: int| 0 <= i < k ==> p[i].0 != doc@,
                has_doc(p, doc@) ==> p[doc_slot(p, doc@)].1 < i32::MAX,
            decreases n - k,
        {
            if self.documents[k].document_name == doc {
                proof {
                    assert(p[k as int].0 == doc@);
                    assert(has_doc(p, doc@));
                    let i = doc_slot(p, doc@);
                    if i != k {
                        assert(p[i].0 != p[k as int].0);
                    }
                }
                self.documents[k].term_freq = self.documents[k].term_freq + 1;
                proof {
                    assert(self.postings() =~= with_occurrence(p, doc@));
                    let q = self.postings();
                    assert forall|a: int, b: int|
                        0 <= a < q.len() && 0 <= b < q.len() && a != b implies q[a].0 != q[b].0 by {
                        assert(q[a].0 == p[a].0);
                        assert(q[b].0 == p[b].0);
                    }
                }
                return;
            }
            k = k + 1;
        }
        self.documents.push(DocNode::new(doc));
        self.doc_freq = self.doc_freq + 1;
        proof {
            assert(self.postings() =~= with_occurrence(p, doc@));
        }
    }
}

/// Whether `w` has an entry in the chain of `t` that its hash selects.
pub open spec fn table_has(t: Seq<Seq<WordNode>>, buckets: nat, w: Seq<char>) -> bool {
    let b = bucket_of(w, buckets) as int;
    0 <= b < t.len() && exists|j: int| 0 <= j < t[b].len() && t[b][j].spec_word() == w
}

/// The position of `w` in its chain (meaningful where `table_has` holds).
pub open spec fn table_slot(t: Seq<Seq<WordNode>>, buckets: nat, w: Seq<char>) -> int {
    let b = bucket_of(w, buckets) as int;
    choose|j: int| 0 <= j < t[b].len() && t[b][j].spec_word() == w
}

/// What chains `t` over `buckets` buckets stand for: each word with an entry in
/// the chain that its hash selects maps to that entry's postings.
pub open spec fn table_view(t: Seq<Seq<WordNode>>, buckets: nat) -> IndexModel {
    Map::new(
        |w: Seq<char>| table_has(t, buckets, w),
        |w: Seq<char>| t[bucket_of(w, buckets) as int][table_slot(t, buckets, w)].postings(),
    )
}

/// Every entry sits in the chain that its word's hash selects, no chain holds
/// a word twice, and every entry is well formed.
pub open spec fn table_wf(t: Seq<Seq<WordNode>>, buckets: nat) -> bool {
    &&& buckets > 0
    &&& t.len() == buckets
    &&& forall|b: int, j: int|
        0 <= b < t.len() && 0 <= j < t[b].len() ==> bucket_of(#[trigger] t[b][j].spec_word(), buckets)
            == b && t[b][j].wf()
    &&& forall|b: int, i: int, j: int|
        0 <= b < t.len() && 0 <= i < t[b].len() && 0 <= j < t[b].len() && i != j
            ==> #[trigger] t[b][i].spec_word() != #[trigger] t[b][j].spec_word()
}

proof fn lemma_table_view_model_wf(t: Seq<Seq<WordNode>>, buckets: nat)
    requires
        table_wf(t, buckets),
    ensures
        model_wf(table_view(t, buckets)),
{
    let m = table_view(t, buckets);
    assert forall|w: Seq<char>| #[trigger] m.contains_key(w) implies m[w].len() >= 1 && postings_wf(
        m[w],
    ) by {
        let b = bucket_of(w, buckets) as int;
        let j = table_slot(t, buckets, w);
        assert(t[b][j].wf());
    }
}

/// Replacing the entry at (`b`, `j`) by one for the same word changes that word's
/// postings alone; where `t2` holds a new entry at the end of the chain instead,
/// that word is added.
proof fn lemma_table_view_set(
    t: Seq<Seq<WordNode>>,
    buckets: nat,
    b: int,
    j: int,
    node: WordNode,
    t2: Seq<Seq<WordNode>>,
)
    requires
        table_wf(t, buckets),
        0 <= b < t.len(),
        0 <= j <= t[b].len(),
        bucket_of(node.spec_word(), buckets) == b,
        j < t[b].len() ==> t[b][j].spec_word() == node.spec_word(),
        j == t[b].len() ==> !table_has(t, buckets, node.spec_word()),
        j < t[b].len() ==> t2 == t.update(b, t[b].update(j, node)),
        j == t[b].len() ==> t2 == t.update(b, t[b].push(node)),
        node.wf(),
    ensures
        table_wf(t2, buckets),
        table_view(t2, buckets) == table_view(t, buckets).insert(
            node.spec_word(),
            node.postings(),
        ),
{
    let w = node.spec_word();
    assert(t2[b].len() >= t[b].len());
    assert forall|c: int, i: int, k: int|
        0 <= c < t2.len() && 0 <= i < t2[c].len() && 0 <= k < t2[c].len() && i != k implies #[trigger] t2[c][i].spec_word()
        != #[trigger] t2[c][k].spec_word() by {
        if c == b {
            if i == j {
                if k < t[b].len() {
                    assert(t[b][k].spec_word() != t[b][j].spec_word() || j == t[b].len());
                    if j == t[b].len() {
                        assert(t[b][k].spec_word() == t2[c][k].spec_word());
                        assert(bucket_of(t[b][k].spec_word(), buckets) == b);
                    }
                }
            } else if k == j {
                if i < t[b].len() {
                    if j == t[b].len() {
                        assert(t[b][i].spec_word() == t2[c][i].spec_word());
                        assert(bucket_of(t[b][i].spec_word(), buckets) == b);
                    }
                }
            } else {
                assert(t2[c][i] == t[c][i]);
                assert(t2[c][k] == t[c][k]);
            }
        } else {
            assert(t2[c] == t[c]);
        }
    }
    assert forall|c: int, i: int| 0 <= c < t2.len() && 0 <= i < t2[c].len() implies bucket_of(
        #[trigger] t2[c][i].spec_word(),
        buckets,
    ) == c && t2[c][i].wf() by {
        if c == b && i == j {
        } else if c == b {
            assert(t2[c][i] == t[c][i]);
        } else {
            assert(t2[c] == t[c]);
        }
    }
    let m = table_view(t, buckets);
    let m2 = table_view(t2, buckets);
    assert forall|v: Seq<char>| #[trigger] m2.contains_key(v) <==> m.insert(w, node.postings()).contains_key(v) by {
        let c = bucket_of(v, buckets) as int;
        if v != w {
            if table_has(t2, buckets, v) {
                let k = choose|k: int| 0 <= k < t2[c].len() && t2[c][k].spec_word() == v;
                if c == b {
                    assert(k != j);
                    assert(t[c][k] == t2[c][k]);
                } else {
                    assert(t[c] == t2[c]);
                }
            }
            if table_has(t, buckets, v) {
                let k = choose|k: int| 0 <= k < t[c].len() && t[c][k].spec_word() == v;
                if c == b {
                    assert(t2[c][k] == t[c][k]);
                } else {
                    assert(t[c] == t2[c]);
                }
            }
        } else {
            assert(t2[b][j].spec_word() == w);
        }
    }
    assert(m2.dom() =~= m.insert(w, node.postings()).dom());
    assert forall|v: Seq<char>| #[trigger] m2.contains_key(v) implies m2[v] == m.insert(
        w,
        node.postings(),
    )[v] by {
        let c = bucket_of(v, buckets) as int;
        let k2 = table_slot(t2, buckets, v);
        if v != w {
            let k = table_slot(t, buckets, v);
            if c == b {
                assert(t2[c][k] == t[c][k]);
                assert(k2 != j);
                assert(t2[c][k2] == t[c][k2]);
            } else {
                assert(t[c] == t2[c]);
            }
        } else {
            assert(t2[b][j].spec_word() == w);
        }
    }
    assert(m2 =~= m.insert(w, node.postings()));
}

/// Taking out the entry at (`b`, `j`) removes its word alone.
proof fn lemma_table_view_remove(t: Seq<Seq<WordNode>>, buckets: nat, b: int, j: int, t2: Seq<Seq<WordNode>>)
    requires
        table_wf(t, buckets),
        0 <= b < t.len(),
        0 <= j < t[b].len(),
        t2 == t.update(b, t[b].remove(j)),
    ensures
        table_wf(t2, buckets),
        table_view(t2, buckets) == table_view(t, buckets).remove(t[b][j].spec_word()),
{
    let w = t[b][j].spec_word();
    let r = t[b].remove(j);
    assert forall|i: int| 0 <= i < r.len() implies r[i] == t[b][if i < j { i } else { i + 1 }] by {}
    assert forall|c: int, i: int, k: int|
        0 <= c < t2.len() && 0 <= i < t2[c].len() && 0 <= k < t2[c].len() && i != k implies #[trigger] t2[c][i].spec_word()
        != #[trigger] t2[c][k].spec_word() by {
        if c == b {
            let ii = if i < j { i } else { i + 1 };
            let kk = if k < j { k } else { k + 1 };
            assert(t2[c][i] == t[b][ii]);
            assert(t2[c][k] == t[b][kk]);
        } else {
            assert(t2[c] == t[c]);
        }
    }
    assert forall|c: int, i: int| 0 <= c < t2.len() && 0 <= i < t2[c].len() implies bucket_of(
        #[trigger] t2[c][i].spec_word(),
        buckets,
    ) == c && t2[c][i].wf() by {
        if c == b {
            let ii = if i < j { i } else { i + 1 };
            assert(t2[c][i] == t[b][ii]);
        } else {
            assert(t2[c] == t[c]);
        }
    }
    let m = table_view(t, buckets);
    let m2 = table_view(t2, buckets);
    assert forall|v: Seq<char>| #[trigger] m2.contains_key(v) <==> m.remove(w).contains_key(v) by {
        let c = bucket_of(v, buckets) as int;
        if table_has(t2, buckets, v) {
            let k = choose|k: int| 0 <= k < t2[c].len() && t2[c][k].spec_word() == v;
            if c == b {
                let kk = if k < j { k } else { k + 1 };
                assert(t2[c][k] == t[b][kk]);
                assert(kk != j);
            } else {
                assert(t[c] == t2[c]);
            }
        }
        if v != w && table_has(t, buckets, v) {
            let k = choose|k: int| 0 <= k < t[c].len() && t[c][k].spec_word() == v;
            if c == b {
                assert(k != j);
                let k2 = if k < j { k } else { k - 1 };
                assert(t2[c][k2] == t[c][k]);
            } else {
                assert(t[c] == t2[c]);
            }
        }
    }
    assert(m2.dom() =~= m.remove(w).dom());
    assert forall|v: Seq<char>| #[trigger] m2.contains_key(v) implies m2[v] == m.remove(w)[v] by {
        let c = bucket_of(v, buckets) as int;
        let k2 = table_slot(t2, buckets, v);
        let k = table_slot(t, buckets, v);
        if c == b {
            let kk = if k2 < j { k2 } else { k2 + 1 };
            assert(t2[c][k2] == t[b][kk]);
            assert(t[b][kk].spec_word() == v);
            assert(kk == k);
        } else {
            assert(t[c] == t2[c]);
        }
    }
    assert(m2 =~= m.remove(w));
}

/// The inverted index: a fixed number of chains, each holding the entries of
/// the words whose hash selects it.
#[derive(Debug)]
pub struct Hashmap {
    buckets: usize,
    words: u32,
    table: Vec<Vec<WordNode>>,
}

impl View for Hashmap {
    type V = IndexModel;

    closed spec fn view(&self) -> IndexModel {
        table_view(self.chains(), self.buckets as nat)
    }
}

impl Hashmap {
    /// The chains, each as the sequence of its entries.
    pub closed spec fn chains(&self) -> Seq<Seq<WordNode>> {
        self.table@.map_values(|v: Vec<WordNode>| v@)
    }

    /// The number of chains, fixed at construction.
    pub closed spec fn bucket_count(&self) -> nat {
        self.buckets as nat
    }

    /// The number of distinct words indexed.
    pub closed spec fn spec_word_count(&self) -> nat {
        self.words as nat
    }

    /// The chains are laid out by hash, and the word count counts their entries.
    pub closed spec fn wf(&self) -> bool {
        &&& table_wf(self.chains(), self.buckets as nat)
        &&& self.words as nat == chain_total(self.chains())
    }

    /// A well-formed table stands for a well-formed index.
    pub proof fn lemma_model_wf(&self)
        requires
            self.wf(),
        ensures
            model_wf(self@),
    {
        lemma_table_view_model_wf(self.chains(), self.buckets as nat);
    }

    /// An empty index of `buckets` chains.
    pub fn new(buckets: usize) -> (r: Box<Hashmap>)
        requires
            buckets > 0,
        ensures
            r.wf(),
            r@ == IndexModel::empty(),
            r.bucket_count() == buckets,
            r.spec_word_count() == 0,
    {
        let mut map = Box::new(Hashmap { buckets, words: 0, table: Vec::with_capacity(buckets) });
        let mut i: usize = 0;
        while i < buckets
            invariant
                map.buckets == buckets,
                map.words == 0,
                map.table@.len() == i,
                i <= buckets,
                forall|b: int| 0 <= b < i ==> (#[trigger] map.table@[b])@.len() == 0,
            decreases buckets - i,
        {
            map.table.push(Vec::with_capacity(4));
            i = i + 1;
        }
        proof {
            lemma_chain_total_empty(map.chains());
            assert(map@ =~= IndexModel::empty());
        }
        map
    }

    /// The chain that `word` falls in: the hash of its characters, modulo the
    /// number of chains.
    pub fn hash(&self, word: &String) -> (r: usize)
        requires
            self.wf(),
        ensures
            r as nat == bucket_of(word@, self.bucket_count()),
            r < self.bucket_count(),
    {
        let mut acc: u64 = 1;
        let mut multiply: bool = true;
        for c in it: word.chars()
            invariant
                it.seq() == word@,
                acc as nat == hash_acc(word@.subrange(0, it.index() as int)),
                multiply == (it.index() % 2 == 0),
        {
            let ghost i = it.index();
            let code: u64 = (c as u32) as u64;
            proof {
                assert(c == word@[i]);
                let s = word@.subrange(0, i + 1);
                assert(s.last() == c);
                assert(s.drop_last() == word@.subrange(0, i as int));
                lemma_hash_acc_bounded(s.drop_last());
            }
            if multiply {
                acc = acc.wrapping_mul(code);
                multiply = false;
            } else {
                acc = acc.wrapping_add(code);
                multiply = true;
            }
        }
        proof {
            assert(word@.subrange(0, word@.len() as int) == word@);
        }
        (acc % (self.buckets as u64)) as usize
    }
    /// Where `word` would stand: its chain, and its position there if indexed.
    fn locate(&self, word: &String) -> (r: (usize, Option<usize>))
        requires
            self.wf(),
        ensures
            r.0 as nat == bucket_of(word@, self.bucket_count()),
            r.0 < self.chains().len(),
            match r.1 {
                Some(j) => {
                    &&& j < self.chains()[r.0 as int].len()
                    &&& self.chains()[r.0 as int][j as int].spec_word() == word@
                    &&& self@.contains_key(word@)
                    &&& self@[word@] == self.chains()[r.0 as int][j as int].postings()
                },
                None => !self@.contains_key(word@),
            },
    {
        let index = self.hash(word);
        let ghost t = self.chains();
        let ghost b = index as int;
        let n = self.table[index].len();
        let mut j: usize = 0;
        while j < n
            invariant
                self.wf(),
                t == self.chains(),
                b == index,
                0 <= b < t.len(),
                b == bucket_of(word@, self.bucket_count()),
                n == t[b].len(),
                0 <= j <= n,
                forall|i: int| 0 <= i < j ==> t[b][i].spec_word() != word@,
            decreases n - j,
        {
            if self.table[index][j].word == *word {
                proof {
                    assert(t[b][j as int].spec_word() == word@);
                    assert(table_has(t, self.buckets as nat, word@));
                    let k = table_slot(t, self.buckets as nat, word@);
                    if k != j {
                        assert(t[b][k].spec_word() != t[b][j as int].spec_word());
                    }
                }
                return (index, Some(j));
            }
            j = j + 1;
        }
        (index, None)
    }

    /// Records one occurrence of `word` in document `doc`.
    pub fn add(&mut self, word: String, doc: String)
        requires
            old(self).wf(),
            add_fits(old(self)@, old(self).spec_word_count(), word@, doc@),
        ensures
            final(self).wf(),
            final(self)@ == add_to(old(self)@, word@, doc@),
            final(self).bucket_count() == old(self).bucket_count(),
            final(self).spec_word_count() == old(self).spec_word_count() + if old(self)@.contains_key(word@) {
                0nat
            } else {
                1nat
            },
    {
        let (index, found) = self.locate(&word);
        let ghost t = self.chains();
        let ghost b = index as int;
        match found {
            Some(j) => {
                self.table[index][j].record(doc);
                proof {
                    let node = self.table@[b]@[j as int];
                    assert(self.chains() =~= t.update(b, t[b].update(j as int, node)));
                    lemma_table_view_set(t, self.buckets as nat, b, j as int, node, self.chains());
                    lemma_chain_total_update(t, b, t[b].update(j as int, node));
                }
            },
            None => {
                let node = WordNode::new(word, doc);
                let ghost gnode = node;
                self.table[index].push(node);
                self.words = self.words + 1;
                proof {
                    assert(self.chains() =~= t.update(b, t[b].push(gnode)));
                    lemma_table_view_set(t, self.buckets as nat, b, t[b].len() as int, gnode, self.chains());
                    lemma_chain_total_update(t, b, t[b].push(gnode));
                    assert(with_occurrence(Seq::empty(), doc@) == seq![(doc@, 1int)]) by {
                        assert(!has_doc(Seq::<Posting>::empty(), doc@));
                    }
                }
            },
        }
    }

    /// Takes `word` out of the index, keeping the order of the rest of its
    /// chain; `None` where the word is not indexed.
    pub fn remove(&mut self, word: String) -> (r: Option<()>)
        requires
            old(self).wf(),
        ensures
            final(self).wf(),
            final(self).bucket_count() == old(self).bucket_count(),
            r is Some <==> old(self)@.contains_key(word@),
            r is Some ==> final(self)@ == old(self)@.remove(word@) && final(self).spec_word_count()
                == old(self).spec_word_count() - 1,
            r is Some ==> exists|j: int|
                0 <= j < old(self).chains()[bucket_of(word@, old(self).bucket_count()) as int].len()
                    && final(self).chains() == old(self).chains().update(
                    bucket_of(word@, old(self).bucket_count()) as int,
                    #[trigger] old(self).chains()[bucket_of(
                        word@,
                        old(self).bucket_count(),
                    ) as int].remove(j),
                ),
            r is None ==> final(self)@ == old(self)@ && final(self).spec_word_count()
                == old(self).spec_word_count(),
    {
        let (index, found) = self.locate(&word);
        let ghost t = self.chains();
        let ghost b = index as int;
        match found {
            Some(j) => {
                proof {
                    lemma_chain_total_update(t, b, Seq::empty());
                }
                self.table[index].remove(j);
                self.words = self.words - 1;
                proof {
                    assert(self.chains() =~= t.update(b, t[b].remove(j as int)));
                    lemma_table_view_remove(t, self.buckets as nat, b, j as int, self.chains());
                    lemma_chain_total_update(t, b, t[b].remove(j as int));
                    assert(self.chains() == t.update(b, t[b].remove(j as int)));
                }
                Some(())
            },
            None => None,
        }
    }

    /// The number of documents that hold `word`, or `None` where it is not indexed.
    pub fn get_doc_freq(&self, word: &str) -> (r: Option<i32>)
        requires
            self.wf(),
        ensures
            r is Some <==> self@.contains_key(word@),
            r is Some ==> doc_freq_of(self@, word@) == Some(r->0 as int),
    {
        let key = word.to_owned();
        let (index, found) = self.locate(&key);
        match found {
            Some(j) => {
                proof {
                    assert(self.table@[index as int]@[j as int].wf());
                }
                Some(self.table[index][j].doc_freq)
            },
            None => None,
        }
    }

    /// The number of times `word` occurs in document `doc`; the error tells an
    /// unknown word from a document that lacks a known word.
    pub fn get_term_freq(&self, word: &str, doc: &str) -> (r: Result<i32, &'static str>)
        requires
            self.wf(),
        ensures
            r is Ok <==> term_freq_of(self@, word@, doc@) is Some,
            r is Ok ==> term_freq_of(self@, word@, doc@) == Some(r->Ok_0 as int),
            !self@.contains_key(word@) ==> r == Err::<i32, &'static str>(WORD_NOT_FOUND),
            self@.contains_key(word@) && !has_doc(self@[word@], doc@) ==> r == Err::<
                i32,
                &'static str,
            >(DOC_NOT_FOUND),
    {
        let key = word.to_owned();
        let name = doc.to_owned();
        let (index, found) = self.locate(&key);
        match found {
            Some(j) => {
                let node = &self.table[index][j];
                let ghost p = node.postings();
                let n = node.documents.len();
                let mut k: usize = 0;
                while k < n
                    invariant
                        node.wf(),
                        name@ == doc@,
                        p == node.postings(),
                        self@.contains_key(word@),
                        self@[word@] == p,
                        n == node.documents@.len(),
                        0 <= k <= n,
                        forall|i: int| 0 <= i < k ==> p[i].0 != doc@,
                    decreases n - k,
                {
                    proof {
                        assert(p[k as int] == node.documents@[k as int]@);
                    }
                    if node.documents[k].document_name == name {
                        proof {
                            assert(p[k as int].0 == doc@);
                            assert(has_doc(p, doc@));
                            let i = doc_slot(p, doc@);
                            if i != k {
                                assert(p[i].0 != p[k as int].0);
                            }
                        }
                        return Ok(node.documents[k].term_freq);
                    }
                    k = k + 1;
                }
                Err(DOC_NOT_FOUND)
            },
            None => Err(WORD_NOT_FOUND),
        }
    }

    /// The number of distinct words indexed.
    pub fn word_count(&self) -> (r: u32)
        ensures
            r as nat == self.spec_word_count(),
    {
        self.words
    }
}

proof fn lemma_chain_total_empty(t: Seq<Seq<WordNode>>)
    requires
        forall|b: int| 0 <= b < t.len() ==> (#[trigger] t[b]).len() == 0,
    ensures
        chain_total(t) == 0,
    decreases t.len(),
{
    if t.len() > 0 {
        lemma_chain_total_empty(t.drop_last());
    }
}
} // verus!
