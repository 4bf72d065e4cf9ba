use inverted_index::index_storage::{
    highest_file_number, numbered_files, parse_file_number, published_segment_metadata,
    CounterError, IndexStorage, IndexStorageError, PublishedSegment, INDEX_DIRECTORY,
};
use inverted_index::inverted_index::InvertedIndex;
use inverted_index::manifest::{ManifestError, SEGMENT_FILE_PREFIX, SEGMENT_FILE_SUFFIX};
use inverted_index::model::{Posting, SegmentId};
use inverted_index::segment_codec::build_segment;

fn segment_bytes(document_count: u32) -> Vec<u8> {
    let index = InvertedIndex::from_finalized_postings(
        vec![(
            "rust".to_owned(),
            vec![Posting {
                document_id: 0,
                term_frequency: 1,
            }],
        )],
        document_count,
    );
    build_segment(&index).unwrap()
}

#[test]
fn file_numbers_are_read_between_prefix_and_suffix() {
    assert_eq!(parse_file_number("segment-0000000000000042.idx", "segment-", ".idx"), Some(42));
    assert_eq!(parse_file_number("segment-7.idx", "segment-", ".idx"), Some(7));
    assert_eq!(parse_file_number("segment-.idx", "segment-", ".idx"), None);
    assert_eq!(parse_file_number("segment-4x.idx", "segment-", ".idx"), None);
    assert_eq!(parse_file_number("segment-+4.idx", "segment-", ".idx"), None);
    assert_eq!(parse_file_number("manifest-4.bin", "segment-", ".idx"), None);
    assert_eq!(
        parse_file_number("segment-18446744073709551615.idx", "segment-", ".idx"),
        Some(u64::MAX)
    );
    assert_eq!(
        parse_file_number("segment-18446744073709551616.idx", "segment-", ".idx"),
        None
    );
    assert_eq!(parse_file_number("a-1.b", "a-1", "1.b"), None);
}

#[test]
fn highest_number_ignores_foreign_names() {
    let names: Vec<String> = ["segment-3.idx", "notes.txt", "segment-12.idx", "segment-x.idx"]
        .iter()
        .map(|name| name.to_string())
        .collect();
    assert_eq!(highest_file_number(&names, "segment-", ".idx"), 12);
    assert_eq!(highest_file_number(&Vec::new(), "segment-", ".idx"), 0);
}

#[test]
fn numbered_files_come_in_number_order() {
    let names: Vec<String> = ["segment-30.idx", "segment-4.idx", "other", "segment-0010.idx"]
        .iter()
        .map(|name| name.to_string())
        .collect();
    let files = numbered_files(&names, "segment-", ".idx");
    let listed: Vec<(u64, &str)> = files
        .iter()
        .map(|file| (file.number, file.file_name.as_str()))
        .collect();
    assert_eq!(
        listed,
        [(4, "segment-4.idx"), (10, "segment-0010.idx"), (30, "segment-30.idx")]
    );
}

#[test]
fn storage_paths_use_twenty_digit_numbers() {
    let storage = IndexStorage::from_highest_numbers(0, 0).unwrap();
    assert_eq!(storage.index_directory(), INDEX_DIRECTORY);
    assert_eq!(storage.manifest_directory(), "index/manifests");
    assert_eq!(storage.segment_directory(), "index/segments");
    assert_eq!(
        storage.manifest_file_path(3),
        "index/manifests/manifest-00000000000000000003.bin"
    );
    assert_eq!(
        storage.segment_file_path(12),
        "index/segments/segment-00000000000000000012.idx"
    );
}

#[test]
fn counters_continue_after_the_highest_number_and_run_out() {
    let mut storage = IndexStorage::from_highest_numbers(4, 9).unwrap();
    assert_eq!(storage.reserve_manifest_generation(), Ok(5));
    assert_eq!(storage.reserve_manifest_generation(), Ok(6));
    assert_eq!(storage.reserve_segment_id(), Ok(10));
    assert_eq!(
        storage.reserve_segment_file_path().unwrap(),
        "index/segments/segment-00000000000000000011.idx"
    );
    assert_eq!(
        storage.reserve_manifest_file_path().unwrap(),
        "index/manifests/manifest-00000000000000000007.bin"
    );

    assert_eq!(
        IndexStorage::from_highest_numbers(u64::MAX, 0).err(),
        Some(CounterError::ManifestGenerationExhausted)
    );
    assert_eq!(
        IndexStorage::from_highest_numbers(0, u64::MAX).err(),
        Some(CounterError::SegmentIdExhausted)
    );
    let mut last = IndexStorage::from_highest_numbers(u64::MAX - 1, u64::MAX - 1).unwrap();
    assert_eq!(
        last.reserve_manifest_generation(),
        Err(CounterError::ManifestGenerationExhausted)
    );
    assert_eq!(last.reserve_segment_id(), Err(CounterError::SegmentIdExhausted));
    assert_eq!(
        CounterError::SegmentIdExhausted.message(),
        "segment ID counter exhausted"
    );
}

#[test]
fn published_segments_form_a_manifest() {
    let storage = IndexStorage::from_highest_numbers(0, 0).unwrap();
    let first = segment_bytes(2);
    let second = segment_bytes(5);
    let manifest = storage
        .manifest_from_published_segments(vec![
            PublishedSegment {
                number: 1,
                file_name: format!("{SEGMENT_FILE_PREFIX}1{SEGMENT_FILE_SUFFIX}"),
                bytes: first.clone(),
            },
            PublishedSegment {
                number: 2,
                file_name: format!("{SEGMENT_FILE_PREFIX}2{SEGMENT_FILE_SUFFIX}"),
                bytes: second.clone(),
            },
        ])
        .unwrap();
    assert_eq!(manifest.segment_count(), 2);
    assert_eq!(manifest.total_document_count(), 7);
    assert_eq!(manifest.total_term_entries(), 2);
    assert_eq!(
        manifest.total_segment_bytes(),
        (first.len() + second.len()) as u64
    );
    let record = &manifest.segments()[1];
    assert_eq!(record.id, SegmentId::new(2).unwrap());
    assert_eq!(record.length_bytes, second.len() as u64);
    assert_eq!(
        record.checksum,
        u32::from_le_bytes(second[second.len() - 4..].try_into().unwrap())
    );
}

#[test]
fn published_segment_errors_are_reported() {
    let zero = PublishedSegment {
        number: 0,
        file_name: "segment-0.idx".to_owned(),
        bytes: segment_bytes(1),
    };
    let error = published_segment_metadata(&zero).unwrap_err();
    assert_eq!(error, IndexStorageError::InvalidSegmentId(0));
    assert_eq!(error.message(), "published segment has invalid ID 0");

    let mut bytes = segment_bytes(1);
    bytes[3] ^= 1;
    let corrupt = PublishedSegment {
        number: 4,
        file_name: "segment-4.idx".to_owned(),
        bytes,
    };
    assert_eq!(
        published_segment_metadata(&corrupt).unwrap_err().message(),
        "index storage I/O error: segment checksum mismatch"
    );

    let storage = IndexStorage::from_highest_numbers(0, 0).unwrap();
    let duplicate = storage
        .manifest_from_published_segments(vec![
            PublishedSegment {
                number: 1,
                file_name: "same.idx".to_owned(),
                bytes: segment_bytes(1),
            },
            PublishedSegment {
                number: 2,
                file_name: "same.idx".to_owned(),
                bytes: segment_bytes(1),
            },
        ])
        .unwrap_err();
    assert_eq!(
        duplicate,
        IndexStorageError::Manifest(ManifestError::DuplicateFileName("same.idx".to_owned()))
    );
    assert_eq!(
        duplicate.message(),
        "invalid segment manifest: DuplicateFileName(\"same.idx\")"
    );
}
