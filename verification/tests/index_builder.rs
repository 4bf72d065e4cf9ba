use inverted_index::index_builder::IndexBuilder;
use inverted_index::model::Posting;

fn posting(document_id: u32, term_frequency: u32) -> Posting {
    Posting {
        document_id,
        term_frequency,
    }
}

/// Adds every line of `contents` as one document, as reading a corpus file
/// does.
fn add_corpus(builder: &mut IndexBuilder, contents: &str) {
    let lines: Vec<String> = contents.lines().map(|line| line.to_owned()).collect();
    builder.create_index(&lines).unwrap();
}

fn finalization_error(builder: IndexBuilder) -> String {
    match builder.finalize() {
        Ok(_) => panic!("finalization should fail"),
        Err(error) => error,
    }
}

#[test]
fn repeated_terms_produce_one_posting_with_correct_frequency() {
    let mut builder = IndexBuilder::new();
    add_corpus(&mut builder, "rust rust rust\n");

    assert_eq!(builder.token_count(), 3);
    let index = builder.finalize().unwrap();

    assert_eq!(index.query("rust"), [posting(0, 3)]);
}

#[test]
fn multiple_files_continue_document_ids() {
    let mut builder = IndexBuilder::new();
    add_corpus(&mut builder, "alpha rust\nbeta rust\n");
    add_corpus(&mut builder, "gamma rust\n");

    assert_eq!(builder.token_count(), 6);
    let index = builder.finalize().unwrap();

    assert_eq!(
        index.query("rust"),
        [posting(0, 1), posting(1, 1), posting(2, 1)]
    );
}

#[test]
fn missing_terms_return_empty_postings() {
    let mut builder = IndexBuilder::new();
    add_corpus(&mut builder, "rust is fast\n");

    let index = builder.finalize().unwrap();

    assert!(index.query("zebra").is_empty());
}

#[test]
fn finalized_index_matches_the_in_memory_oracle() {
    let mut builder = IndexBuilder::new();
    add_corpus(&mut builder, "rust fast\nrust safe\nfast\n");

    let index = builder.finalize().unwrap();

    assert_eq!(index.document_count(), 3);
    assert_eq!(index.term_count(), 3);
    assert_eq!(index.posting_count(), 5);
    assert_eq!(index.query("fast"), [posting(0, 1), posting(2, 1)]);
    assert_eq!(index.query("rust"), [posting(0, 1), posting(1, 1)]);
    assert_eq!(index.query("safe"), [posting(1, 1)]);
}

#[test]
fn finalization_rejects_empty_terms() {
    let builder = IndexBuilder::from_parts(vec![(String::new(), vec![posting(0, 1)])], 1).unwrap();

    assert_eq!(
        finalization_error(builder),
        "cannot finalize an index containing an empty term"
    );
}

#[test]
fn finalization_rejects_empty_posting_lists() {
    let builder = IndexBuilder::from_parts(vec![("rust".to_owned(), Vec::new())], 0).unwrap();

    assert_eq!(finalization_error(builder), "term 'rust' has no postings");
}

#[test]
fn finalization_rejects_zero_frequencies() {
    let builder = IndexBuilder::from_parts(vec![("rust".to_owned(), vec![posting(0, 0)])], 1).unwrap();

    assert_eq!(
        finalization_error(builder),
        "term 'rust' has a posting with zero frequency"
    );
}

#[test]
fn finalization_rejects_unknown_document_ids() {
    let builder = IndexBuilder::from_parts(vec![("rust".to_owned(), vec![posting(1, 1)])], 1).unwrap();

    assert_eq!(
        finalization_error(builder),
        "term 'rust' contains unknown document ID 1"
    );
}

#[test]
fn finalization_rejects_unordered_document_ids() {
    let builder = IndexBuilder::from_parts(
        vec![("rust".to_owned(), vec![posting(1, 1), posting(0, 1)])],
        2,
    )
    .unwrap();

    assert_eq!(
        finalization_error(builder),
        "term 'rust' has document IDs that are not strictly increasing"
    );
}

#[test]
fn builder_parts_must_be_in_term_order() {
    assert!(IndexBuilder::from_parts(
        vec![
            ("b".to_owned(), vec![posting(0, 1)]),
            ("a".to_owned(), vec![posting(0, 1)]),
        ],
        1
    )
    .is_none());
    assert!(IndexBuilder::from_parts(
        vec![
            ("a".to_owned(), vec![posting(0, 1)]),
            ("a".to_owned(), vec![posting(0, 1)]),
        ],
        1
    )
    .is_none());
}

#[test]
fn terms_are_kept_in_byte_order() {
    let mut builder = IndexBuilder::new();
    add_corpus(&mut builder, "zeta Alpha beta alpha\n\nbeta beta\n");
    assert_eq!(builder.token_count(), 6);
    let index = builder.finalize().unwrap();
    let terms: Vec<&str> = index.terms().iter().map(|(term, _)| term.as_str()).collect();
    assert_eq!(terms, ["Alpha", "alpha", "beta", "zeta"]);
    assert_eq!(index.document_count(), 3);
    assert_eq!(index.query("beta"), [posting(0, 1), posting(2, 2)]);
    assert!(index.query("Zeta").is_empty());
}

#[test]
fn whitespace_of_every_kind_separates_tokens() {
    let mut builder = IndexBuilder::new();
    builder.add_document("one\ttwo\u{3000}three\u{a0}four  ").unwrap();
    assert_eq!(builder.token_count(), 4);
    let index = builder.finalize().unwrap();
    assert_eq!(index.term_count(), 4);
    assert_eq!(index.query("three"), [posting(0, 1)]);
}

#[test]
fn corpus_indexing_numbers_documents_by_line() {
    let mut builder = IndexBuilder::new();
    let lines = vec!["b a".to_owned(), "".to_owned(), "a a".to_owned()];
    builder.create_index(&lines).unwrap();
    assert_eq!(builder.token_count(), 4);
    let index = builder.finalize().unwrap();
    assert_eq!(index.document_count(), 3);
    assert_eq!(index.query("a"), [posting(0, 1), posting(2, 2)]);
    assert_eq!(index.query("b"), [posting(0, 1)]);
}
