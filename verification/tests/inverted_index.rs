use systems::inverted_index::{InvertedIndex, Posting};

#[test]
fn test_tokenization_and_stop_words() {
    let index = InvertedIndex::new();
    let text = "The Quick, Brown FOX jumps OVER a lazy dog!";
    let tokens = index.tokenize(text);
    assert_eq!(tokens, vec!["quick", "brown", "fox", "jumps", "over", "lazy", "dog"]);
}

#[test]
fn test_add_document() {
    let mut engine = InvertedIndex::new();
    engine.add_document(1, "Doc 1".to_string(), "rust is fast and safe");
    assert_eq!(engine.document_count(), 1);
    assert_eq!(engine.document(1).unwrap().total_terms, 3);
    let rust_postings = engine.postings("rust").unwrap();
    assert_eq!(rust_postings.len(), 1);
    assert_eq!(rust_postings[0].doc_id, 1);
    assert_eq!(rust_postings[0].term_frequency, 1);
}

#[test]
fn test_readd_same_term_no_duplicate_postings() {
    let mut engine = InvertedIndex::new();
    engine.add_document(1, "D1".to_string(), "rust");
    engine.add_document(1, "D1 v2".to_string(), "rust rust");
    let postings = engine.postings("rust").unwrap();
    assert_eq!(postings.len(), 1);
    assert_eq!(postings[0].doc_id, 1);
    assert_eq!(postings[0].term_frequency, 2);
}

#[test]
fn test_readd_document_reindexes_without_double_counting() {
    let mut engine = InvertedIndex::new();
    engine.add_document(1, "D1".to_string(), "a a b");
    engine.add_document(1, "D1 v2".to_string(), "c");
    assert_eq!(engine.document_count(), 1);
    assert_eq!(engine.document(1).unwrap().total_terms, 1);
    assert!(engine.postings("a").is_none());
    assert!(engine.postings("b").is_none());
    let c = engine.postings("c").unwrap();
    assert_eq!(c, vec![Posting { doc_id: 1, term_frequency: 1 }]);
}

#[test]
fn inverted_index_term_counts_and_order() {
    let mut engine = InvertedIndex::new();
    engine.add_document(1, "Rust Intro".to_string(), "learn rust");
    engine.add_document(2, "Rust Deep Dive".to_string(), "rust is great, rust is fast, rust");
    engine.add_document(3, "Python".to_string(), "python is good");
    assert_eq!(engine.document(2).unwrap().total_terms, 5);
    assert_eq!(engine.document(2).unwrap().title, "Rust Deep Dive");
    assert_eq!(
        engine.postings("rust").unwrap(),
        vec![Posting { doc_id: 1, term_frequency: 1 }, Posting { doc_id: 2, term_frequency: 3 }]
    );
    assert_eq!(engine.postings("python").unwrap(), vec![Posting { doc_id: 3, term_frequency: 1 }]);
    assert!(engine.postings("is").is_none());
    // Re-adding a document moves its posting to the end of each list it is in.
    engine.add_document(1, "again".to_string(), "rust rust");
    assert_eq!(
        engine.postings("rust").unwrap(),
        vec![Posting { doc_id: 2, term_frequency: 3 }, Posting { doc_id: 1, term_frequency: 2 }]
    );
    assert!(engine.postings("learn").is_none());
    assert_eq!(engine.document_count(), 3);
}

#[test]
fn inverted_index_content_without_terms_changes_nothing() {
    let mut engine = InvertedIndex::new();
    engine.add_document(1, "D1".to_string(), "hello world");
    engine.add_document(1, "D1 v2".to_string(), "the a is !!");
    assert_eq!(engine.document(1).unwrap().title, "D1");
    assert!(engine.postings("hello").is_some());
    assert!(engine.document(2).is_none());
}

#[test]
fn inverted_index_tokenize_edges() {
    let index = InvertedIndex::new();
    assert!(index.tokenize("").is_empty());
    assert!(index.tokenize("   \t\n ").is_empty());
    assert_eq!(index.tokenize("e-mail  x,y"), vec!["email", "xy"]);
    assert_eq!(index.tokenize("ÉCOLE Straße 42"), vec!["école", "straße", "42"]);
    assert_eq!(index.tokenize("THE The tHe"), Vec::<String>::new());
}
