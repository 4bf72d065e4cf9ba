use inverted_index::binary_file::ErrorKind;
use inverted_index::index_snapshot::{IndexSnapshot, SnapshotError};
use inverted_index::index_storage::{published_segment_metadata, IndexStorage, PublishedSegment};
use inverted_index::inverted_index::InvertedIndex;
use inverted_index::lookup_executor::LookupExecutor;
use inverted_index::manifest::{
    Manifest, SegmentMetadata, FILE_NUMBER_WIDTH, MANIFEST_FILE_PREFIX, MANIFEST_FILE_SUFFIX,
    SEGMENT_FILE_PREFIX, SEGMENT_FILE_SUFFIX,
};
use inverted_index::manifest_codec;
use inverted_index::model::{AddressedPosting, DocumentAddress, Posting, SegmentId};
use inverted_index::multi_segment_query_engine::MultiSegmentQueryEngine;
use inverted_index::query_engine::QueryError;
use inverted_index::segment_codec::build_segment;
use inverted_index::segment_reader::{SegmentReadError, SegmentReader};

fn posting(document_id: u32, term_frequency: u32) -> Posting {
    Posting {
        document_id,
        term_frequency,
    }
}

fn addressed_posting(
    segment_id: u64,
    local_document_id: u32,
    term_frequency: u32,
) -> AddressedPosting {
    AddressedPosting {
        address: DocumentAddress {
            segment_id: SegmentId::new(segment_id).unwrap(),
            local_document_id,
        },
        term_frequency,
    }
}

/// A segment whose only term is `rust`, and its manifest record.
fn write_segment(
    segment_id: u64,
    document_count: u32,
    rust_postings: Vec<Posting>,
) -> (SegmentMetadata, Vec<u8>) {
    let file_name = format!(
        "{SEGMENT_FILE_PREFIX}{segment_id:0width$}{SEGMENT_FILE_SUFFIX}",
        width = FILE_NUMBER_WIDTH
    );
    let index =
        InvertedIndex::from_finalized_postings(vec![("rust".to_owned(), rust_postings)], document_count);
    let bytes = build_segment(&index).unwrap();

    let reader = SegmentReader::open(bytes.clone()).unwrap();
    let metadata = SegmentMetadata {
        id: SegmentId::new(segment_id).unwrap(),
        file_name,
        document_count: reader.document_count(),
        term_count: reader.term_count(),
        length_bytes: bytes.len() as u64,
        checksum: reader.checksum(),
    };
    (metadata, bytes)
}

fn two_segments() -> (Manifest, Vec<Vec<u8>>) {
    let (first, first_bytes) = write_segment(1, 2, vec![posting(0, 2)]);
    let (second, second_bytes) = write_segment(2, 3, vec![posting(0, 3), posting(2, 1)]);
    (
        Manifest::new(vec![first, second]).unwrap(),
        vec![first_bytes, second_bytes],
    )
}

#[test]
fn published_manifest_refreshes_and_reopens_snapshot() {
    let mut index_storage = IndexStorage::from_highest_numbers(0, 0).unwrap();
    let mut index_snapshot = IndexSnapshot::empty();
    assert_eq!(index_snapshot.generation(), None);

    let segment_id = index_storage.reserve_segment_id().unwrap();
    let (expected_metadata, bytes) = write_segment(segment_id, 2, vec![posting(0, 2), posting(1, 1)]);
    let published = PublishedSegment {
        number: segment_id,
        file_name: expected_metadata.file_name.clone(),
        bytes: bytes.clone(),
    };
    let segment_metadata = published_segment_metadata(&published).unwrap();
    assert_eq!(segment_metadata, expected_metadata);

    let manifest = index_snapshot
        .manifest_with_segment(segment_metadata)
        .unwrap();
    let generation = index_storage.reserve_manifest_generation().unwrap();
    let manifest_name = format!(
        "{MANIFEST_FILE_PREFIX}{generation:0width$}{MANIFEST_FILE_SUFFIX}",
        width = FILE_NUMBER_WIDTH
    );
    let manifest_bytes = manifest_codec::encode(&manifest_name, &manifest).unwrap();
    index_snapshot
        .refresh(generation, manifest, vec![bytes.clone()])
        .unwrap();

    assert_eq!(index_snapshot.generation(), Some(1));
    assert_eq!(index_snapshot.segment_count(), 1);

    let reopened_manifest = manifest_codec::decode(&manifest_name, &manifest_bytes).unwrap();
    let reopened_snapshot =
        IndexSnapshot::from_manifest(generation, &reopened_manifest, &vec![bytes]).unwrap();
    assert_eq!(reopened_snapshot.generation(), Some(1));
    let postings = reopened_snapshot.query_term("rust").unwrap().collect().unwrap();
    assert_eq!(
        postings,
        vec![addressed_posting(1, 0, 2), addressed_posting(1, 1, 1)]
    );
}

#[test]
fn index_snapshot_queries_multiple_segments_in_manifest_order() {
    let (manifest, files) = two_segments();
    let index_snapshot = IndexSnapshot::from_manifest(1, &manifest, &files).unwrap();

    let result = index_snapshot.query_term_with_stats("rust").unwrap();
    let stats = result.dictionary_stats;
    let postings = result.postings.collect().unwrap();

    assert_eq!(
        postings,
        vec![
            addressed_posting(1, 0, 2),
            addressed_posting(2, 0, 3),
            addressed_posting(2, 2, 1),
        ]
    );
    assert_eq!(stats.searched_segment_count, 2);
    assert_eq!(stats.matching_segment_count, 2);
    assert!(stats.dictionary_comparisons > 0);
    assert!(stats.encoded_postings_bytes > 0);
}

#[test]
fn multi_segment_query_engine_queries_multiple_segments_in_manifest_order() {
    let (manifest, files) = two_segments();
    let engine = MultiSegmentQueryEngine::new(manifest, files).unwrap();

    let result = engine.query_term_with_stats("rust").unwrap();
    let stats = result.dictionary_stats;
    let postings = result.postings.collect().unwrap();

    assert_eq!(
        postings,
        vec![
            addressed_posting(1, 0, 2),
            addressed_posting(2, 0, 3),
            addressed_posting(2, 2, 1),
        ]
    );
    assert_eq!(stats.searched_segment_count, 2);
    assert_eq!(stats.matching_segment_count, 2);
    assert!(stats.dictionary_comparisons > 0);
    assert!(stats.encoded_postings_bytes > 0);
    assert_eq!(stats.dictionary_comparisons, 2);
    assert_eq!(stats.encoded_postings_bytes, 2 + 4);
    assert_eq!(engine.segment_count(), 2);
    assert_eq!(engine.total_document_count(), 5);
    assert_eq!(engine.total_term_entries(), 2);
}

#[test]
fn index_snapshot_missing_term_and_empty_manifest_return_empty_results() {
    let (segment, bytes) = write_segment(1, 1, vec![posting(0, 1)]);
    let manifest = Manifest::new(vec![segment]).unwrap();
    let index_snapshot = IndexSnapshot::from_manifest(1, &manifest, &vec![bytes]).unwrap();

    let missing = index_snapshot.query_term_with_stats("missing").unwrap();
    assert_eq!(missing.dictionary_stats.matching_segment_count, 0);
    assert_eq!(missing.postings.collect().unwrap().len(), 0);

    let empty = Manifest::new(Vec::new()).unwrap();
    let empty_index_snapshot = IndexSnapshot::from_manifest(2, &empty, &Vec::new()).unwrap();
    let empty_result = empty_index_snapshot.query_term_with_stats("rust").unwrap();
    assert_eq!(empty_result.dictionary_stats.searched_segment_count, 0);
    assert_eq!(empty_result.postings.collect().unwrap().len(), 0);
}

#[test]
fn multi_segment_query_engine_missing_term_and_empty_manifest_return_empty_results() {
    let (segment, bytes) = write_segment(1, 1, vec![posting(0, 1)]);
    let manifest = Manifest::new(vec![segment]).unwrap();
    let engine = MultiSegmentQueryEngine::new(manifest, vec![bytes]).unwrap();

    let missing = engine.query_term_with_stats("missing").unwrap();
    assert_eq!(missing.dictionary_stats.matching_segment_count, 0);
    assert_eq!(missing.postings.collect().unwrap().len(), 0);

    let empty = Manifest::new(Vec::new()).unwrap();
    let empty_engine = MultiSegmentQueryEngine::new(empty, Vec::new()).unwrap();
    let empty_result = empty_engine.query_term_with_stats("rust").unwrap();
    assert_eq!(empty_result.dictionary_stats.searched_segment_count, 0);
    assert_eq!(empty_result.postings.collect().unwrap().len(), 0);
}

#[test]
fn reports_snapshot_query_work_and_timings() {
    let index = InvertedIndex::from_finalized_postings(
        vec![
            ("rust".to_owned(), vec![posting(0, 2), posting(2, 1)]),
            ("search".to_owned(), vec![posting(1, 1)]),
        ],
        3,
    );
    let bytes = build_segment(&index).unwrap();
    let reader = SegmentReader::open(bytes.clone()).unwrap();
    let metadata = SegmentMetadata {
        id: SegmentId::new(1).unwrap(),
        file_name: "segment-00000000000000000001.idx".to_owned(),
        document_count: reader.document_count(),
        term_count: reader.term_count(),
        length_bytes: bytes.len() as u64,
        checksum: reader.checksum(),
    };
    let manifest = Manifest::new(vec![metadata]).unwrap();
    let index_snapshot = IndexSnapshot::from_manifest(7, &manifest, &vec![bytes]).unwrap();
    let executor = LookupExecutor::new();

    let found = executor.lookup(&index_snapshot, "rust").unwrap();
    assert_eq!(found.postings.len(), 2);
    assert_eq!(found.stats.snapshot.manifest_generation, Some(7));
    assert_eq!(found.stats.snapshot.segment_count, 1);
    assert_eq!(found.stats.snapshot.total_document_count, 3);
    assert_eq!(found.stats.snapshot.total_term_entries, 2);
    assert!(found.stats.snapshot.total_segment_bytes > 0);
    assert_eq!(found.stats.query.searched_segment_count, 1);
    assert_eq!(found.stats.query.matching_segment_count, 1);
    assert!(found.stats.query.dictionary_comparisons > 0);
    assert_eq!(found.stats.query.matched_document_count, 2);
    assert!(found.stats.query.encoded_postings_bytes > 0);
    assert!(found.stats.query.term_found());
    assert!(
        found.stats.timings.total_duration
            >= found.stats.timings.dictionary_lookup_duration
                + found.stats.timings.postings_decode_duration
    );

    let missing = executor.lookup(&index_snapshot, "missing").unwrap();
    assert!(missing.postings.is_empty());
    assert_eq!(missing.stats.query.searched_segment_count, 1);
    assert_eq!(missing.stats.query.matching_segment_count, 0);
    assert_eq!(missing.stats.query.matched_document_count, 0);
    assert_eq!(missing.stats.query.encoded_postings_bytes, 0);
    assert!(!missing.stats.query.term_found());

    let invalid = executor.lookup(&index_snapshot, "no such").unwrap_err();
    assert_eq!(
        invalid,
        "failed to query index: query must be one ASCII-alphanumeric word"
    );
}

#[test]
fn lookup_reports_the_segment_of_a_corrupt_postings_list() {
    // Segment 3's only posting has frequency zero: the postings bytes are
    // rewritten after encoding and the checksum is recomputed.
    let (metadata, mut bytes) = write_segment(3, 1, vec![posting(0, 5)]);
    let postings_start = u64::from_le_bytes(bytes[18..26].try_into().unwrap()) as usize;
    bytes[postings_start + 1] = 0;
    bytes.truncate(bytes.len() - 4);
    inverted_index::binary_file::append_checksum(&mut bytes);
    let metadata = SegmentMetadata {
        checksum: SegmentReader::open(bytes.clone()).unwrap().checksum(),
        ..metadata
    };
    let manifest = Manifest::new(vec![metadata]).unwrap();
    let snapshot = IndexSnapshot::from_manifest(1, &manifest, &vec![bytes]).unwrap();

    let error = LookupExecutor::new().lookup(&snapshot, "rust").unwrap_err();
    assert_eq!(
        error,
        "failed to decode postings in segment 3: ZeroFrequency { document_id: 0 }"
    );
}

#[test]
fn snapshot_rejects_generation_zero_and_unreadable_segments() {
    let (manifest, files) = two_segments();
    let error = IndexSnapshot::from_manifest(0, &manifest, &files).err().unwrap();
    assert_eq!(error, SnapshotError::ZeroGeneration);
    assert_eq!(error.kind(), ErrorKind::InvalidInput);

    let mut broken = files.clone();
    broken[1][0] ^= 0xFF;
    let error = IndexSnapshot::from_manifest(4, &manifest, &broken).err().unwrap();
    assert_eq!(
        error,
        SnapshotError::Segment(SegmentReadError::File(
            inverted_index::binary_file::FileError::ChecksumMismatch(
                inverted_index::binary_file::FileType::Segment
            )
        ))
    );

    let mut snapshot = IndexSnapshot::from_manifest(4, &manifest, &files).unwrap();
    assert!(snapshot.refresh(5, Manifest::new(Vec::new()).unwrap(), vec![]).is_ok());
    assert_eq!(snapshot.generation(), Some(5));
    assert_eq!(snapshot.segment_count(), 0);
    assert!(snapshot.refresh(0, Manifest::new(Vec::new()).unwrap(), vec![]).is_err());
    assert_eq!(snapshot.generation(), Some(5));
}

#[test]
fn snapshot_totals_sum_the_manifest() {
    let (manifest, files) = two_segments();
    let total_bytes = (files[0].len() + files[1].len()) as u64;
    let snapshot = IndexSnapshot::from_manifest(9, &manifest, &files).unwrap();
    assert_eq!(snapshot.total_document_count(), 5);
    assert_eq!(snapshot.total_term_entries(), 2);
    assert_eq!(snapshot.total_segment_bytes(), total_bytes);
    assert_eq!(
        snapshot.query_term("bad!").err().unwrap(),
        QueryError::InvalidQuery
    );
}

#[test]
fn manifest_with_segment_rejects_a_stale_identifier() {
    let (manifest, files) = two_segments();
    let snapshot = IndexSnapshot::from_manifest(1, &manifest, &files).unwrap();
    let (stale, _) = write_segment(2, 1, vec![posting(0, 1)]);
    assert!(snapshot.manifest_with_segment(stale).is_err());
    let (fresh, _) = write_segment(3, 1, vec![posting(0, 1)]);
    assert_eq!(snapshot.manifest_with_segment(fresh).unwrap().segment_count(), 3);
}
