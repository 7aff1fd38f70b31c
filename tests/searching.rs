use doc_search::searching::{Config, QueryTerm};

fn corpus(docs: &[(&str, &str)]) -> Vec<(String, String)> {
    docs.iter().map(|(n, c)| (n.to_string(), c.to_string())).collect()
}

fn two_documents() -> Config {
    Config::build(16, corpus(&[("doc1", "cat dog"), ("doc2", "dog")]))
}

#[test]
fn stopwords_in_every_document_are_pruned() {
    let config = Config::build(
        16,
        corpus(&[("a", "the cat"), ("b", "dog the"), ("c", "fish the")]),
    );
    let map = config.hashmap();
    assert_eq!(map.get_doc_freq("the"), None);
    assert_eq!(map.get_doc_freq("cat"), Some(1));
    assert_eq!(map.get_doc_freq("dog"), Some(1));
    assert_eq!(map.get_doc_freq("fish"), Some(1));
    assert_eq!(config.num_docs(), 3);
}

#[test]
fn two_document_counts_before_pruning() {
    let mut map = doc_search::structures::Hashmap::new(16);
    for word in "cat dog".split(' ') {
        map.add(word.to_string(), "doc1".to_string());
    }
    map.add("dog".to_string(), "doc2".to_string());
    assert_eq!(map.get_doc_freq("dog"), Some(2));
    assert_eq!(map.get_doc_freq("cat"), Some(1));
}

#[test]
fn two_document_build() {
    let config = two_documents();
    let map = config.hashmap();
    assert_eq!(map.get_doc_freq("cat"), Some(1));
    // "dog" is in the first document and in every document.
    assert_eq!(map.get_doc_freq("dog"), None);
    assert_eq!(config.num_docs(), 2);
    assert_eq!(config.file_names(), &vec!["doc1".to_string(), "doc2".to_string()]);
}

fn stats(term: &QueryTerm) -> (Option<i32>, Vec<Option<i32>>) {
    (term.doc_freq, term.term_freqs.clone())
}

#[test]
fn query_known_token() {
    let config = two_documents();
    let terms = config.term_stats("cat");
    assert_eq!(terms.len(), 1);
    assert_eq!(stats(&terms[0]), (Some(1), vec![Some(1), None]));
}

#[test]
fn query_unknown_token() {
    let config = two_documents();
    let terms = config.term_stats("zebra");
    assert_eq!(terms.len(), 1);
    assert_eq!(stats(&terms[0]), (None, vec![None, None]));
}

#[test]
fn query_twice_gives_the_same_counts() {
    let config = two_documents();
    let first: Vec<_> = config.term_stats("cat zebra cat").iter().map(stats).collect();
    let second: Vec<_> = config.term_stats("cat zebra cat").iter().map(stats).collect();
    assert_eq!(first, second);
    assert_eq!(first.len(), 3);
    assert_eq!(first[2], (Some(1), vec![Some(1), None]));
}

#[test]
fn repeated_tokens_count_each_occurrence() {
    let config = Config::build(8, corpus(&[("x", "a b a a"), ("y", "b c")]));
    let map = config.hashmap();
    assert_eq!(map.get_term_freq("a", "x"), Ok(3));
    assert_eq!(map.get_doc_freq("b"), None);
    assert_eq!(map.get_term_freq("c", "y"), Ok(1));
}

#[test]
fn consecutive_spaces_give_empty_tokens() {
    let config = Config::build(8, corpus(&[("x", "a  b"), ("y", "c")]));
    let map = config.hashmap();
    assert_eq!(map.get_doc_freq(""), Some(1));
    assert_eq!(map.get_term_freq("", "x"), Ok(1));
    let terms = config.term_stats("a  c");
    assert_eq!(terms.len(), 3);
    assert_eq!(stats(&terms[1]), (Some(1), vec![Some(1), None]));
}

#[test]
fn empty_corpus() {
    let config = Config::build(4, Vec::new());
    assert_eq!(config.num_docs(), 0);
    assert!(config.file_names().is_empty());
    assert_eq!(config.hashmap().word_count(), 0);
}

#[test]
fn single_document_loses_all_its_words() {
    let config = Config::build(4, corpus(&[("only", "one two one")]));
    assert_eq!(config.hashmap().word_count(), 0);
    assert_eq!(config.hashmap().get_doc_freq("one"), None);
}
