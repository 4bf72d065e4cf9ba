use inverted_index::binary_file::ErrorKind;
use inverted_index::inverted_index::InvertedIndex;
use inverted_index::model::Posting;
use inverted_index::query_engine::{validate_query_term, QueryEngine, QueryError};
use inverted_index::segment_codec::build_segment;
use inverted_index::segment_reader::SegmentReader;

fn posting(document_id: u32, term_frequency: u32) -> Posting {
    Posting {
        document_id,
        term_frequency,
    }
}

fn test_segment() -> Vec<u8> {
    let index = InvertedIndex::from_finalized_postings(
        vec![
            ("rust".to_owned(), vec![posting(0, 2), posting(3, 1)]),
            ("search".to_owned(), vec![posting(1, 1)]),
        ],
        4,
    );
    build_segment(&index).unwrap()
}

fn empty_segment() -> Vec<u8> {
    build_segment(&InvertedIndex::from_finalized_postings(Vec::new(), 0)).unwrap()
}

fn query_postings(engine: &QueryEngine, term: &str) -> Vec<Posting> {
    let mut decoder = match engine.query_term(term).unwrap() {
        Some(decoder) => decoder,
        None => return Vec::new(),
    };

    let mut postings = Vec::new();
    while let Some(result) = decoder.next() {
        postings.push(result.unwrap());
    }
    postings
}

#[test]
fn query_term_finds_first_and_last_dictionary_terms() {
    let engine = QueryEngine::new(test_segment()).unwrap();

    assert_eq!(
        query_postings(&engine, "rust"),
        vec![posting(0, 2), posting(3, 1)]
    );
    assert_eq!(query_postings(&engine, "search"), vec![posting(1, 1)]);
}

#[test]
fn query_term_decodes_postings_lazily() {
    let engine = QueryEngine::new(test_segment()).unwrap();
    let mut decoder = engine.query_term("rust").unwrap().unwrap();

    assert_eq!(decoder.remaining_postings(), 2);
    assert_eq!(decoder.next(), Some(Ok(posting(0, 2))));
    assert_eq!(decoder.remaining_postings(), 1);
}

#[test]
fn query_term_reports_dictionary_comparisons() {
    let engine = QueryEngine::new(test_segment()).unwrap();

    let found = engine.query_term_with_stats("rust").unwrap();
    assert!(found.postings.is_some());
    assert!(found.dictionary_comparisons > 0);

    let missing = engine.query_term_with_stats("missing").unwrap();
    assert!(missing.postings.is_none());
    assert!(missing.dictionary_comparisons > 0);
}

#[test]
fn query_term_returns_empty_postings_for_a_missing_term() {
    let engine = QueryEngine::new(test_segment()).unwrap();

    assert!(engine.query_term("missing").unwrap().is_none());
    assert!(engine.query_term("aaa").unwrap().is_none());
    assert!(engine.query_term("zzz").unwrap().is_none());
}

#[test]
fn query_term_is_case_sensitive() {
    let engine = QueryEngine::new(test_segment()).unwrap();

    assert!(engine.query_term("Rust").unwrap().is_none());
    assert!(engine.query_term("SEARCH").unwrap().is_none());
}

#[test]
fn query_term_rejects_invalid_queries() {
    let engine = QueryEngine::new(test_segment()).unwrap();

    let empty = engine.query_term("").unwrap_err();
    let punctuation = engine.query_term("rust!").unwrap_err();
    let whitespace = engine.query_term("rus t").unwrap_err();

    assert_eq!(empty.kind(), ErrorKind::InvalidInput);
    assert_eq!(punctuation.kind(), ErrorKind::InvalidInput);
    assert_eq!(whitespace.kind(), ErrorKind::InvalidInput);
}

#[test]
fn query_term_on_an_empty_segment_returns_no_postings() {
    let engine = QueryEngine::new(empty_segment()).unwrap();
    let postings = engine.query_term("rust").unwrap();
    assert!(postings.is_none());
    let stats = engine.query_term_with_stats("rust").unwrap();
    assert!(stats.postings.is_none());
    assert_eq!(stats.dictionary_comparisons, 0);
}

#[test]
fn binary_search_counts_each_probe() {
    let engine = QueryEngine::new(test_segment()).unwrap();

    // Two terms: the first probe is "search" (index 1), the second "rust".
    assert_eq!(engine.query_term_with_stats("search").unwrap().dictionary_comparisons, 1);
    assert_eq!(engine.query_term_with_stats("rust").unwrap().dictionary_comparisons, 2);
    assert_eq!(engine.query_term_with_stats("zzz").unwrap().dictionary_comparisons, 1);
}

#[test]
fn query_validation_accepts_only_ascii_alphanumeric_words() {
    assert_eq!(validate_query_term("rust2024"), Ok(()));
    assert_eq!(validate_query_term(""), Err(QueryError::InvalidQuery));
    assert_eq!(validate_query_term("caf\u{e9}"), Err(QueryError::InvalidQuery));
    assert_eq!(
        QueryError::InvalidQuery.message(),
        "query must be one ASCII-alphanumeric word"
    );
}

#[test]
fn engine_reports_segment_metadata() {
    let engine = QueryEngine::from_reader(SegmentReader::open(test_segment()).unwrap());
    assert_eq!(engine.document_count(), 4);
    assert_eq!(engine.term_count(), 2);
}

#[test]
fn corrupt_segment_is_rejected_by_the_engine() {
    let mut bytes = test_segment();
    bytes[0] ^= 0xFF;
    let error = QueryEngine::new(bytes).err().unwrap();
    assert_eq!(error.message(), "segment checksum mismatch");
}

#[test]
fn dictionary_comparisons_stay_within_the_logarithmic_bound() {
    let terms: Vec<String> = (0..10).map(|i| format!("term{i}")).collect();
    let index = InvertedIndex::from_finalized_postings(
        terms
            .iter()
            .enumerate()
            .map(|(i, term)| (term.clone(), vec![posting(i as u32, 1)]))
            .collect(),
        10,
    );
    let engine = QueryEngine::new(build_segment(&index).unwrap()).unwrap();
    for term in terms.iter().map(String::as_str).chain(["a", "term", "term45", "zzz"]) {
        let found = engine.query_term_with_stats(term).unwrap();
        assert!(found.dictionary_comparisons >= 1);
        assert!(found.dictionary_comparisons <= 4);
    }
    let empty = QueryEngine::new(empty_segment()).unwrap();
    assert_eq!(empty.query_term_with_stats("term").unwrap().dictionary_comparisons, 0);
}
