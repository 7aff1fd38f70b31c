use doc_search::structures::{DocNode, Hashmap, WordNode, DOC_NOT_FOUND, WORD_NOT_FOUND};

fn s(text: &str) -> String {
    text.to_string()
}

#[test]
fn adding_twice_to_one_document() {
    let mut map = Hashmap::new(16);
    map.add(s("w"), s("d"));
    map.add(s("w"), s("d"));
    assert_eq!(map.get_term_freq("w", "d"), Ok(2));
    assert_eq!(map.get_doc_freq("w"), Some(1));
    assert_eq!(map.word_count(), 1);
}

#[test]
fn adding_to_two_documents() {
    let mut map = Hashmap::new(16);
    map.add(s("w"), s("d1"));
    map.add(s("w"), s("d2"));
    assert_eq!(map.get_doc_freq("w"), Some(2));
    assert_eq!(map.get_term_freq("w", "d1"), Ok(1));
    assert_eq!(map.get_term_freq("w", "d2"), Ok(1));
}

#[test]
fn hash_values() {
    let map = Hashmap::new(16);
    assert_eq!(map.hash(&s("abc")), 9);
    assert_eq!(map.hash(&s("abc")), 9);
    assert_eq!(map.hash(&s("")), 1);
    let wide = Hashmap::new(1000);
    assert_eq!(wide.hash(&s("zzzzzzzzzzzzzzzzzzzz")), 46);
    let prime = Hashmap::new(9973);
    assert_eq!(prime.hash(&s("zzzzzzzzzzzzzzzzzzzz")), 3743);
    let seven = Hashmap::new(7);
    assert_eq!(seven.hash(&s("é漢")), 4);
}

#[test]
fn hash_stays_below_bucket_count() {
    let map = Hashmap::new(5);
    for word in ["", "a", "the", "quick", "brown", "fox", "zzzzzzzzzzzzzzzzzzzzzzzz"] {
        assert!(map.hash(&s(word)) < 5);
    }
}

#[test]
fn removing_missing_word() {
    let mut map = Hashmap::new(8);
    map.add(s("cat"), s("d"));
    assert_eq!(map.remove(s("dog")), None);
    assert_eq!(map.word_count(), 1);
    assert_eq!(map.get_doc_freq("cat"), Some(1));
}

#[test]
fn removing_existing_word() {
    let mut map = Hashmap::new(8);
    map.add(s("cat"), s("d"));
    map.add(s("dog"), s("d"));
    assert_eq!(map.word_count(), 2);
    assert_eq!(map.remove(s("cat")), Some(()));
    assert_eq!(map.word_count(), 1);
    assert_eq!(map.get_doc_freq("cat"), None);
    assert_eq!(map.get_doc_freq("dog"), Some(1));
    assert_eq!(map.remove(s("cat")), None);
}

#[test]
fn term_freq_errors() {
    let mut map = Hashmap::new(8);
    map.add(s("cat"), s("d1"));
    assert_eq!(map.get_term_freq("dog", "d1"), Err(WORD_NOT_FOUND));
    assert_eq!(map.get_term_freq("cat", "d2"), Err(DOC_NOT_FOUND));
    assert_ne!(WORD_NOT_FOUND, DOC_NOT_FOUND);
}

#[test]
fn one_chain_holds_every_word() {
    let mut map = Hashmap::new(1);
    for word in ["a", "b", "c", "d"] {
        map.add(s(word), s("doc"));
    }
    map.add(s("c"), s("doc"));
    map.add(s("c"), s("other"));
    assert_eq!(map.word_count(), 4);
    assert_eq!(map.remove(s("b")), Some(()));
    assert_eq!(map.get_doc_freq("a"), Some(1));
    assert_eq!(map.get_doc_freq("b"), None);
    assert_eq!(map.get_doc_freq("c"), Some(2));
    assert_eq!(map.get_term_freq("c", "doc"), Ok(2));
    assert_eq!(map.get_term_freq("c", "other"), Ok(1));
    assert_eq!(map.get_doc_freq("d"), Some(1));
    assert_eq!(map.word_count(), 3);
}

#[test]
fn words_are_case_sensitive_and_empty_words_count() {
    let mut map = Hashmap::new(4);
    map.add(s("Cat"), s("d"));
    map.add(s(""), s("d"));
    assert_eq!(map.get_doc_freq("cat"), None);
    assert_eq!(map.get_doc_freq("Cat"), Some(1));
    assert_eq!(map.get_doc_freq(""), Some(1));
    assert_eq!(map.word_count(), 2);
}

#[test]
fn fresh_index_is_empty() {
    let map = Hashmap::new(3);
    assert_eq!(map.word_count(), 0);
    assert_eq!(map.get_doc_freq("x"), None);
    assert_eq!(map.get_term_freq("x", "d"), Err(WORD_NOT_FOUND));
}

#[test]
fn nodes_start_with_one_occurrence() {
    let doc = DocNode::new(s("d"));
    let word = WordNode::new(s("w"), s("d"));
    let shown = format!("{:?} {:?}", doc, word);
    assert!(shown.contains("term_freq: 1"));
    assert!(shown.contains("doc_freq: 1"));
}
