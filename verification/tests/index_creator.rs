use inverted_index::index_creator::create_index;
use inverted_index::model::Posting;
use inverted_index::query_engine::QueryEngine;
use inverted_index::segment_reader::SegmentReader;

fn lines(text: &str) -> Vec<String> {
    text.lines().map(|line| line.to_owned()).collect()
}

#[test]
fn reports_index_creation_statistics() {
    let corpus = "rust rust search\nsearch engine\n";
    let created = create_index(&lines(corpus)).unwrap();

    assert_eq!(corpus.len(), 31);
    assert_eq!(created.index.document_count(), 2);
    assert_eq!(created.token_count, 5);
    assert_eq!(created.index.term_count(), 3);
    assert_eq!(created.index.posting_count(), 4);

    let reader = SegmentReader::open(created.segment.clone()).unwrap();
    assert_eq!(reader.document_count(), 2);
    assert_eq!(reader.term_count(), 3);
    assert_eq!(reader.get_term(0).unwrap(), "engine");
    assert_eq!(reader.get_term(1).unwrap(), "rust");
    assert_eq!(reader.get_term(2).unwrap(), "search");
    let mut decoder = reader.get_postings(1).unwrap();
    assert_eq!(
        decoder.next(),
        Some(Ok(Posting {
            document_id: 0,
            term_frequency: 2
        }))
    );
    assert_eq!(decoder.next(), None);
}

#[test]
fn invalid_corpus_is_reported_before_indexing() {
    let error = create_index(&lines("rust\n\nsearch\n")).err().unwrap();
    assert_eq!(error, "document on line 2 is empty");
    let error = create_index(&lines("rust\nsearch, engine\n")).err().unwrap();
    assert_eq!(error, "token 'search,' on line 2 is not ASCII alphanumeric");
}

#[test]
fn empty_corpus_gives_an_empty_segment() {
    let created = create_index(&Vec::new()).unwrap();
    assert_eq!(created.index.document_count(), 0);
    assert_eq!(created.segment.len(), 26 + 4);
}

#[test]
fn lookups_in_a_created_segment_find_every_line_with_the_term() {
    let corpus = "rust makes systems programming practical\n\
                  search uses an inverted index\n\
                  rust makes indexing fast rust\n";
    let created = create_index(&lines(corpus)).unwrap();
    let engine = QueryEngine::new(created.segment).unwrap();

    let collect = |term: &str| {
        let mut found = Vec::new();
        if let Some(mut decoder) = engine.query_term(term).unwrap() {
            while let Some(posting) = decoder.next() {
                let posting = posting.unwrap();
                found.push((posting.document_id, posting.term_frequency));
            }
        }
        found
    };
    assert_eq!(collect("rust"), [(0, 1), (2, 2)]);
    assert_eq!(collect("makes"), [(0, 1), (2, 1)]);
    assert_eq!(collect("index"), [(1, 1)]);
    assert_eq!(collect("indexing"), [(2, 1)]);
    assert_eq!(collect("Rust"), []);
    assert_eq!(collect("zebra"), []);
}
