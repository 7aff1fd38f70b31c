//! Building the index from a corpus, with stopword pruning, and gathering the
//! counts that score a query.
use vstd::prelude::*;

use crate::model::{
    add_to, counts_within, doc_freq_of, lemma_add_counts, lemma_room_to_add, term_freq_of,
    IndexModel,
};
use crate::structures::Hashmap;

verus! {

/// The tokens of `s`: the pieces between successive single spaces, in order.
/// Consecutive spaces give empty tokens, and there is always at least one.
pub open spec fn space_tokens(s: Seq<char>) -> Seq<Seq<char>>
    decreases s.len(),
{
    if s.len() == 0 {
        seq![Seq::empty()]
    } else {
        let prev = space_tokens(s.drop_last());
        if s.last() == ' ' {
            prev.push(Seq::empty())
        } else {
            prev.update(prev.len() - 1, prev.last().push(s.last()))
        }
    }
}

/// Relies on `str::split` with a `char` pattern, which yields the pieces
/// between successive occurrences of the character, empty ones included.
#[verifier::external_body]
fn split_on_space(s: &str) -> (r: Vec<String>)
    ensures
        r@.map_values(|t: String| t@) == space_tokens(s@),
{
    s.split(' ').map(String::from).collect()
}

/// The index after one occurrence of each token of `toks` in document `d`.
pub open spec fn add_tokens(m: IndexModel, toks: Seq<Seq<char>>, d: Seq<char>) -> IndexModel
    decreases toks.len(),
{
    if toks.len() == 0 {
        m
    } else {
        add_to(add_tokens(m, toks.drop_last(), d), toks.last(), d)
    }
}

/// A corpus as (name, content) pairs.
pub type Corpus = Seq<(Seq<char>, Seq<char>)>;

/// The index of every token of every document of `docs`, in order.
pub open spec fn ingest(docs: Corpus) -> IndexModel
    decreases docs.len(),
{
    if docs.len() == 0 {
        Map::empty()
    } else {
        add_tokens(ingest(docs.drop_last()), space_tokens(docs.last().1), docs.last().0)
    }
}

/// The number of tokens over all documents of `docs`.
pub open spec fn total_tokens(docs: Corpus) -> nat
    decreases docs.len(),
{
    if docs.len() == 0 {
        0
    } else {
        total_tokens(docs.drop_last()) + space_tokens(docs.last().1).len()
    }
}

/// The index after taking out, one candidate after the other, each candidate
/// whose document frequency is `n` at that point.
pub open spec fn prune(m: IndexModel, cands: Seq<Seq<char>>, n: int) -> IndexModel
    decreases cands.len(),
{
    if cands.len() == 0 {
        m
    } else {
        let m1 = prune(m, cands.drop_last(), n);
        let w = cands.last();
        if doc_freq_of(m1, w) == Some(n) {
            m1.remove(w)
        } else {
            m1
        }
    }
}

/// The index built from `docs`: every token ingested, then the tokens of the
/// first document that every document holds taken out.
pub open spec fn built_index(docs: Corpus) -> IndexModel {
    if docs.len() == 0 {
        Map::empty()
    } else {
        prune(ingest(docs), space_tokens(docs[0].1), docs.len() as int)
    }
}

/// The names and contents of `documents`.
pub open spec fn corpus_of(documents: Seq<(String, String)>) -> Corpus {
    documents.map_values(|p: (String, String)| (p.0@, p.1@))
}

proof fn lemma_total_tokens_prefix(docs: Corpus, i: int)
    requires
        0 <= i <= docs.len(),
    ensures
        total_tokens(docs.subrange(0, i)) <= total_tokens(docs),
    decreases docs.len(),
{
    if i < docs.len() {
        assert(docs.drop_last().subrange(0, i) == docs.subrange(0, i));
        lemma_total_tokens_prefix(docs.drop_last(), i);
    } else {
        assert(docs.subrange(0, i) == docs);
    }
}

proof fn lemma_space_tokens_nonempty(s: Seq<char>)
    ensures
        space_tokens(s).len() >= 1,
    decreases s.len(),
{
    if s.len() > 0 {
        lemma_space_tokens_nonempty(s.drop_last());
    }
}

proof fn lemma_docs_within_tokens(docs: Corpus)
    ensures
        docs.len() <= total_tokens(docs),
    decreases docs.len(),
{
    if docs.len() > 0 {
        lemma_docs_within_tokens(docs.drop_last());
        lemma_space_tokens_nonempty(docs.last().1);
    }
}

/// What pruning does to one word: it goes where it is a candidate whose
/// document frequency is `n`, and stays with its postings otherwise.
pub proof fn lemma_prune_effect(m: IndexModel, cands: Seq<Seq<char>>, n: int, w: Seq<char>)
    ensures
        prune(m, cands, n).contains_key(w) <==> (m.contains_key(w) && !(cands.contains(w)
            && doc_freq_of(m, w) == Some(n))),
        prune(m, cands, n).contains_key(w) ==> prune(m, cands, n)[w] == m[w],
    decreases cands.len(),
{
    if cands.len() > 0 {
        let c = cands.drop_last();
        lemma_prune_effect(m, c, n, w);
        if cands.contains(w) && !c.contains(w) {
            assert(cands.last() == w) by {
                let k = choose|k: int| 0 <= k < cands.len() && cands[k] == w;
                if k < cands.len() - 1 {
                    assert(c[k] == w);
                }
            }
        }
        if c.contains(w) {
            let k = choose|k: int| 0 <= k < c.len() && c[k] == w;
            assert(cands[k] == w);
        }
        if cands.last() == w {
            assert(cands[cands.len() - 1] == w);
        }
    }
}

/// After a build, a token of the first document that every document holds is
/// no longer indexed, and every other indexed word keeps its postings.
pub proof fn lemma_stopwords_pruned(docs: Corpus, w: Seq<char>)
    requires
        docs.len() > 0,
    ensures
        built_index(docs).contains_key(w) <==> (ingest(docs).contains_key(w) && !(space_tokens(
            docs[0].1,
        ).contains(w) && doc_freq_of(ingest(docs), w) == Some(docs.len() as int))),
        built_index(docs).contains_key(w) ==> built_index(docs)[w] == ingest(docs)[w],
{
    lemma_prune_effect(ingest(docs), space_tokens(docs[0].1), docs.len() as int, w);
}

/// A count held in an `i32`, as an integer.
pub open spec fn count_of(o: Option<i32>) -> Option<int> {
    match o {
        Some(v) => Some(v as int),
        None => None,
    }
}

/// What scores one query token: its document frequency, and its term frequency
/// in each tracked document, each `None` where unknown.
#[derive(Debug)]
pub struct QueryTerm {
    pub doc_freq: Option<i32>,
    pub term_freqs: Vec<Option<i32>>,
}

impl View for QueryTerm {
    type V = (Option<int>, Seq<Option<int>>);

    open spec fn view(&self) -> (Option<int>, Seq<Option<int>>) {
        (count_of(self.doc_freq), self.term_freqs@.map_values(|f: Option<i32>| count_of(f)))
    }
}

/// The counts of one token `w` over index `m` and documents `files`.
pub open spec fn token_stats(m: IndexModel, files: Seq<Seq<char>>, w: Seq<char>) -> (
    Option<int>,
    Seq<Option<int>>,
) {
    (doc_freq_of(m, w), files.map_values(|f: Seq<char>| term_freq_of(m, w, f)))
}

/// The counts of each token of query `q`, in order.
pub open spec fn query_stats(m: IndexModel, files: Seq<Seq<char>>, q: Seq<char>) -> Seq<
    (Option<int>, Seq<Option<int>>),
> {
    space_tokens(q).map_values(|w: Seq<char>| token_stats(m, files, w))
}

/// The index of a corpus, with the names of its documents in the order they
/// were ingested.
#[derive(Debug)]
pub struct Config {
    hashmap: Hashmap,
    file_list: Vec<String>,
    num_docs: i32,
}

impl Config {
    /// The index.
    pub closed spec fn spec_index(&self) -> IndexModel {
        self.hashmap@
    }

    /// The document names, in order of ingestion.
    pub closed spec fn spec_files(&self) -> Seq<Seq<char>> {
        self.file_list@.map_values(|f: String| f@)
    }

    /// The number of documents ingested.
    pub closed spec fn spec_num_docs(&self) -> int {
        self.num_docs as int
    }

    /// The index is well formed and one name is kept per document.
    pub closed spec fn wf(&self) -> bool {
        &&& self.hashmap.wf()
        &&& self.file_list@.len() == self.num_docs
    }

    /// Indexes `documents`, given as (name, content) pairs, in a table of
    /// `buckets` chains: every space-separated token of each content counts one
    /// occurrence in that document; then each token of the first document that
    /// every document holds is taken out.
    pub fn build(buckets: usize, documents: Vec<(String, String)>) -> (r: Config)
        requires
            buckets > 0,
            total_tokens(corpus_of(documents@)) < i32::MAX,
        ensures
            r.wf(),
            r.spec_index() == built_index(corpus_of(documents@)),
            r.spec_files() == corpus_of(documents@).map_values(|p: (Seq<char>, Seq<char>)| p.0),
            r.spec_num_docs() == documents@.len(),
    {
        let ghost docs = corpus_of(documents@);
        let mut hashmap = *Hashmap::new(buckets);
        let mut file_list: Vec<String> = Vec::new();
        let mut num_docs: i32 = 0;
        let mut first_tokens: Vec<String> = Vec::new();
        proof {
            lemma_docs_within_tokens(docs);
            assert(docs.subrange(0, 0) == Seq::<(Seq<char>, Seq<char>)>::empty());
        }
        let n = documents.len();
        let mut i: usize = 0;
        while i < n
            invariant
                n == documents@.len() == docs.len(),
                docs == corpus_of(documents@),
                total_tokens(docs) < i32::MAX,
                n <= total_tokens(docs),
                0 <= i <= n,
                hashmap.wf(),
                hashmap.bucket_count() == buckets,
                hashmap@ == ingest(docs.subrange(0, i as int)),
                counts_within(
                    hashmap@,
                    hashmap.spec_word_count(),
                    total_tokens(docs.subrange(0, i as int)) as int,
                ),
                num_docs == i,
                file_list@.map_values(|f: String| f@) == docs.subrange(0, i as int).map_values(
                    |p: (Seq<char>, Seq<char>)| p.0,
                ),
                i > 0 ==> first_tokens@.map_values(|t: String| t@) == space_tokens(docs[0].1),
                i == 0 ==> first_tokens@.len() == 0,
            decreases n - i,
        {
            let tokens = split_on_space(documents[i].1.as_str());
            let ghost base = hashmap@;
            let ghost prefix = docs.subrange(0, i as int);
            let ghost toks = tokens@.map_values(|t: String| t@);
            let ghost name = docs[i as int].0;
            proof {
                assert(docs.subrange(0, i + 1).drop_last() == prefix);
                lemma_total_tokens_prefix(docs, i + 1);
                assert(toks.subrange(0, 0) == Seq::<Seq<char>>::empty());
            }
            let m = tokens.len();
            let mut j: usize = 0;
            while j < m
                invariant
                    m == tokens@.len() == toks.len(),
                    toks == tokens@.map_values(|t: String| t@),
                    toks == space_tokens(docs[i as int].1),
                    name == documents@[i as int].0@,
                    i < n == documents@.len() == docs.len(),
                    docs == corpus_of(documents@),
                    total_tokens(prefix) + toks.len() < i32::MAX,
                    0 <= j <= m,
                    hashmap.wf(),
                    hashmap.bucket_count() == buckets,
                    hashmap@ == add_tokens(base, toks.subrange(0, j as int), name),
                    counts_within(
                        hashmap@,
                        hashmap.spec_word_count(),
                        total_tokens(prefix) + j,
                    ),
                decreases m - j,
            {
                let word = tokens[j].clone();
                let doc = documents[i].0.clone();
                proof {
                    lemma_room_to_add(hashmap@, hashmap.spec_word_count(), total_tokens(prefix) + j, word@, doc@);
                    lemma_add_counts(hashmap@, hashmap.spec_word_count(), total_tokens(prefix) + j, word@, doc@);
                    assert(toks.subrange(0, j + 1).drop_last() == toks.subrange(0, j as int));
                    assert(word@ == toks[j as int]);
                }
                hashmap.add(word, doc);
                j = j + 1;
            }
            proof {
                assert(toks.subrange(0, m as int) == toks);
            }
            let ghost old_files = file_list@;
            let fname = documents[i].0.clone();
            file_list.push(fname);
            num_docs = num_docs + 1;
            if i == 0 {
                first_tokens = tokens;
            }
            proof {
                let before = docs.subrange(0, i as int).map_values(|p: (Seq<char>, Seq<char>)| p.0);
                let after = docs.subrange(0, i + 1).map_values(|p: (Seq<char>, Seq<char>)| p.0);
                let names = file_list@.map_values(|f: String| f@);
                assert(file_list@ == old_files.push(fname));
                assert(old_files.map_values(|f: String| f@) == before);
                assert(before.len() == i);
                assert(old_files.len() == i);
                assert(file_list@.len() == i + 1);
                assert(names.len() == i + 1);
                assert forall|q: int| 0 <= q < after.len() implies names[q] == after[q] by {
                    if q < i {
                        assert(file_list@[q] == old_files[q]);
                        assert(names[q] == before[q]);
                    } else {
                        assert(docs[q] == (documents@[q].0@, documents@[q].1@));
                    }
                }
                assert(names =~= after);
            }
            i = i + 1;
        }
        proof {
            assert(docs.subrange(0, n as int) == docs);
        }
        let ghost ingested = hashmap@;
        let ghost cands = first_tokens@.map_values(|t: String| t@);
        let c = first_tokens.len();
        let mut k: usize = 0;
        proof {
            assert(cands.subrange(0, 0) == Seq::<Seq<char>>::empty());
        }
        while k < c
            invariant
                c == first_tokens@.len() == cands.len(),
                cands == first_tokens@.map_values(|t: String| t@),
                num_docs == n,
                hashmap.wf(),
                hashmap.bucket_count() == buckets,
                hashmap@ == prune(ingested, cands.subrange(0, k as int), n as int),
                0 <= k <= c,
            decreases c - k,
        {
            proof {
                assert(cands.subrange(0, k + 1).drop_last() == cands.subrange(0, k as int));
                assert(first_tokens@[k as int]@ == cands[k as int]);
            }
            match hashmap.get_doc_freq(first_tokens[k].as_str()) {
                Some(freq) => {
                    if freq == num_docs {
                        hashmap.remove(first_tokens[k].clone());
                    }
                },
                None => {},
            }
            k = k + 1;
        }
        proof {
            assert(cands.subrange(0, c as int) == cands);
            assert(ingested == ingest(docs));
            assert(hashmap@ == prune(ingested, cands, n as int));
            if n > 0 {
                assert(cands == space_tokens(docs[0].1));
                assert(hashmap@ == built_index(docs));
            } else {
                assert(hashmap@ == built_index(docs));
            }
            assert(file_list@.map_values(|f: String| f@) =~= docs.map_values(
                |p: (Seq<char>, Seq<char>)| p.0,
            ));
        }
        Config { hashmap, file_list, num_docs }
    }

    /// The index.
    pub fn hashmap(&self) -> (r: &Hashmap)
        requires
            self.wf(),
        ensures
            r.wf(),
            r@ == self.spec_index(),
    {
        &self.hashmap
    }

    /// The document names, in order of ingestion.
    pub fn file_names(&self) -> (r: &Vec<String>)
        ensures
            r@.map_values(|f: String| f@) == self.spec_files(),
    {
        &self.file_list
    }

    /// The number of documents ingested.
    pub fn num_docs(&self) -> (r: i32)
        ensures
            r as int == self.spec_num_docs(),
    {
        self.num_docs
    }

    /// The counts that score `query`: for each of its space-separated tokens,
    /// in order, the token's document frequency and its term frequency in each
    /// document, in order of ingestion. Reads the index and changes nothing.
    pub fn term_stats(&self, query: &str) -> (r: Vec<QueryTerm>)
        requires
            self.wf(),
        ensures
            r@.map_values(|t: QueryTerm| t@) == query_stats(
                self.spec_index(),
                self.spec_files(),
                query@,
            ),
    {
        let tokens = split_on_space(query);
        let ghost toks = tokens@.map_values(|t: String| t@);
        let ghost m = self.spec_index();
        let ghost files = self.spec_files();
        let mut out: Vec<QueryTerm> = Vec::new();
        let n = tokens.len();
        let mut i: usize = 0;
        while i < n
            invariant
                self.wf(),
                m == self.spec_index(),
                files == self.spec_files(),
                n == tokens@.len() == toks.len(),
                toks == tokens@.map_values(|t: String| t@),
                toks == space_tokens(query@),
                0 <= i <= n,
                out@.len() == i,
                forall|k: int| 0 <= k < i ==> (#[trigger] out@[k])@ == token_stats(m, files, toks[k]),
            decreases n - i,
        {
            let word = tokens[i].as_str();
            let doc_freq = self.hashmap.get_doc_freq(word);
            let mut term_freqs: Vec<Option<i32>> = Vec::new();
            let f = self.file_list.len();
            let mut j: usize = 0;
            while j < f
                invariant
                    self.wf(),
                    m == self.spec_index(),
                    files == self.spec_files(),
                    f == self.file_list@.len(),
                    word@ == toks[i as int],
                    0 <= j <= f,
                    term_freqs@.len() == j,
                    forall|k: int| 0 <= k < j ==> count_of(#[trigger] term_freqs@[k]) == term_freq_of(m, word@, files[k]),
                decreases f - j,
            {
                let found = match self.hashmap.get_term_freq(word, self.file_list[j].as_str()) {
                    Ok(freq) => Some(freq),
                    Err(_) => None,
                };
                term_freqs.push(found);
                j = j + 1;
            }
            let term = QueryTerm { doc_freq, term_freqs };
            proof {
                assert(term@.1 =~= files.map_values(|d: Seq<char>| term_freq_of(m, word@, d)));
                assert(count_of(doc_freq) == doc_freq_of(m, word@));
            }
            out.push(term);
            i = i + 1;
        }
        proof {
            assert(out@.map_values(|t: QueryTerm| t@) =~= query_stats(m, files, query@));
        }
        out
    }
}

} // verus!
