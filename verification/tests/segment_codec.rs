use inverted_index::binary_file::{ErrorKind, FileType, CHECKSUM_LENGTH, FORMAT_VERSION};
use inverted_index::inverted_index::InvertedIndex;
use inverted_index::model::Posting;
use inverted_index::postings::EncodeError;
use inverted_index::segment_codec::{
    build_segment, write_header, SegmentEncodeError, HEADER_LENGTH, TERM_OFFSET_LENGTH,
};

const MAGIC: &[u8; 8] = b"INVIDX\0\0";

fn test_index() -> InvertedIndex {
    InvertedIndex::from_finalized_postings(
        vec![
            (
                "rust".to_owned(),
                vec![
                    Posting {
                        document_id: 0,
                        term_frequency: 2,
                    },
                    Posting {
                        document_id: 3,
                        term_frequency: 1,
                    },
                ],
            ),
            (
                "search".to_owned(),
                vec![Posting {
                    document_id: 1,
                    term_frequency: 1,
                }],
            ),
        ],
        4,
    )
}

fn empty_index() -> InvertedIndex {
    InvertedIndex::from_finalized_postings(Vec::new(), 0)
}

#[test]
fn segment_codec_header_matches_the_format_contract() {
    let bytes = build_segment(&test_index()).unwrap();

    assert_eq!(&bytes[0..8], MAGIC);
    assert_eq!(&bytes[8..10], &FORMAT_VERSION.to_le_bytes());
    assert_eq!(&bytes[10..14], &4u32.to_le_bytes());
    assert_eq!(&bytes[14..18], &2u32.to_le_bytes());
    assert_eq!(&bytes[18..26], &88u64.to_le_bytes());
}

#[test]
fn index_codec_header_matches_the_format_contract() {
    let mut bytes = Vec::new();

    write_header(&mut bytes, 3, 5, 42);

    assert_eq!(bytes.len(), HEADER_LENGTH);
    assert_eq!(&bytes[0..8], MAGIC);
    assert_eq!(&bytes[0..8], &FileType::Segment.magic());
    assert_eq!(&bytes[8..10], &FORMAT_VERSION.to_le_bytes());
    assert_eq!(&bytes[10..14], &3u32.to_le_bytes());
    assert_eq!(&bytes[14..18], &5u32.to_le_bytes());
    assert_eq!(&bytes[18..26], &42u64.to_le_bytes());
}

#[test]
fn segment_codec_segment_contains_term_records_postings_and_footer() {
    let segment = build_segment(&test_index()).unwrap();

    assert_eq!(u64::from_le_bytes(segment[26..34].try_into().unwrap()), 42);
    assert_eq!(u64::from_le_bytes(segment[34..42].try_into().unwrap()), 64);
    assert_eq!(&segment[88..94], &[0x00, 0x02, 0x03, 0x01, 0x01, 0x01]);

    let checksum_offset = segment.len() - CHECKSUM_LENGTH;
    let stored_checksum = u32::from_le_bytes(segment[checksum_offset..].try_into().unwrap());
    assert_eq!(
        stored_checksum,
        crc32fast::hash(&segment[..checksum_offset])
    );
}

#[test]
fn index_codec_segment_contains_term_records_postings_and_footer() {
    let segment = build_segment(&test_index()).unwrap();

    assert_eq!(u64::from_le_bytes(segment[18..26].try_into().unwrap()), 88);
    assert_eq!(u64::from_le_bytes(segment[26..34].try_into().unwrap()), 42);
    assert_eq!(u64::from_le_bytes(segment[34..42].try_into().unwrap()), 64);
    assert_eq!(&segment[88..94], &[0x00, 0x02, 0x03, 0x01, 0x01, 0x01]);

    let checksum_offset = segment.len() - CHECKSUM_LENGTH;
    let stored_checksum = u32::from_le_bytes(segment[checksum_offset..].try_into().unwrap());
    assert_eq!(
        stored_checksum,
        crc32fast::hash(&segment[..checksum_offset])
    );
}

#[test]
fn segment_codec_empty_segment_contains_only_header_and_footer() {
    let segment = build_segment(&empty_index()).unwrap();

    assert_eq!(segment.len(), HEADER_LENGTH + CHECKSUM_LENGTH);
    assert_eq!(u32::from_le_bytes(segment[14..18].try_into().unwrap()), 0);
    assert_eq!(
        u64::from_le_bytes(segment[18..26].try_into().unwrap()),
        HEADER_LENGTH as u64
    );
}

#[test]
fn index_codec_empty_segment_contains_only_header_and_footer() {
    let segment = build_segment(&empty_index()).unwrap();

    assert_eq!(segment.len(), HEADER_LENGTH + CHECKSUM_LENGTH);
    assert_eq!(u32::from_le_bytes(segment[14..18].try_into().unwrap()), 0);
    assert_eq!(
        u64::from_le_bytes(segment[18..26].try_into().unwrap()),
        HEADER_LENGTH as u64
    );

    let checksum_offset = segment.len() - CHECKSUM_LENGTH;
    let stored_checksum = u32::from_le_bytes(segment[checksum_offset..].try_into().unwrap());
    assert_eq!(
        stored_checksum,
        crc32fast::hash(&segment[..checksum_offset])
    );
}

fn check_term_records(segment: &[u8]) {
    assert_eq!(segment[42], 4);
    assert_eq!(&segment[43..47], b"rust");
    assert_eq!(segment[47], 2);
    assert_eq!(u64::from_le_bytes(segment[48..56].try_into().unwrap()), 0);
    assert_eq!(u64::from_le_bytes(segment[56..64].try_into().unwrap()), 4);

    assert_eq!(segment[64], 6);
    assert_eq!(&segment[65..71], b"search");
    assert_eq!(segment[71], 1);
    assert_eq!(u64::from_le_bytes(segment[72..80].try_into().unwrap()), 4);
    assert_eq!(u64::from_le_bytes(segment[80..88].try_into().unwrap()), 2);
}

#[test]
fn segment_codec_term_records_match_the_format_contract() {
    let segment = build_segment(&test_index()).unwrap();
    check_term_records(&segment);
}

#[test]
fn index_codec_term_records_match_the_format_contract() {
    let segment = build_segment(&test_index()).unwrap();
    check_term_records(&segment);
}

fn check_offsets_and_ranges(segment: &[u8]) {
    let postings_start = u64::from_le_bytes(segment[18..26].try_into().unwrap()) as usize;
    let footer_start = segment.len() - CHECKSUM_LENGTH;
    let term_record_offsets = [
        u64::from_le_bytes(segment[26..34].try_into().unwrap()) as usize,
        u64::from_le_bytes(segment[34..42].try_into().unwrap()) as usize,
    ];

    for offset in term_record_offsets {
        assert!((42..postings_start).contains(&offset));
    }

    let posting_ranges = [(0usize, 4usize), (4usize, 2usize)];
    for (relative_offset, length) in posting_ranges {
        let start = postings_start + relative_offset;
        let end = start + length;
        assert!(start >= postings_start);
        assert!(end <= footer_start);
    }
}

#[test]
fn segment_codec_stored_offsets_and_posting_ranges_stay_in_their_sections() {
    let segment = build_segment(&test_index()).unwrap();
    check_offsets_and_ranges(&segment);
}

#[test]
fn index_codec_stored_offsets_and_posting_ranges_stay_in_their_sections() {
    let segment = build_segment(&test_index()).unwrap();
    check_offsets_and_ranges(&segment);
}

#[test]
fn segment_codec_segment_encoding_is_deterministic() {
    let index = test_index();

    let first = build_segment(&index).unwrap();
    let second = build_segment(&index).unwrap();

    assert_eq!(first, second);
}

#[test]
fn index_codec_segment_encoding_is_deterministic() {
    let index = test_index();

    let first = build_segment(&index).unwrap();
    let second = build_segment(&index).unwrap();

    assert_eq!(first, second);
}

#[test]
fn term_offset_table_has_one_entry_per_term() {
    let segment = build_segment(&test_index()).unwrap();
    let postings_start = u64::from_le_bytes(segment[18..26].try_into().unwrap()) as usize;
    assert_eq!(42 - HEADER_LENGTH, 2 * TERM_OFFSET_LENGTH);
    assert_eq!(postings_start, 88);
    assert_eq!(segment.len(), 94 + CHECKSUM_LENGTH);
}

#[test]
fn terms_without_postings_are_rejected() {
    let index = InvertedIndex::from_finalized_postings(vec![("rust".to_owned(), Vec::new())], 1);
    let error = build_segment(&index).unwrap_err();
    assert_eq!(error, SegmentEncodeError::NoEncodedPostings("rust".to_owned()));
    assert_eq!(error.kind(), ErrorKind::InvalidData);
    assert_eq!(error.message(), "term 'rust' has no encoded postings");
}

#[test]
fn invalid_postings_are_rejected() {
    let index = InvertedIndex::from_finalized_postings(
        vec![(
            "rust".to_owned(),
            vec![
                Posting {
                    document_id: 2,
                    term_frequency: 1,
                },
                Posting {
                    document_id: 2,
                    term_frequency: 1,
                },
            ],
        )],
        3,
    );
    let error = build_segment(&index).unwrap_err();
    assert_eq!(
        error,
        SegmentEncodeError::CannotEncodePostings {
            term: "rust".to_owned(),
            error: EncodeError::DocumentIdsNotStrictlyIncreasing {
                previous: 2,
                current: 2,
            },
        }
    );
    assert_eq!(
        error.message(),
        "cannot encode postings for term 'rust': DocumentIdsNotStrictlyIncreasing { previous: 2, current: 2 }"
    );

    let zero = InvertedIndex::from_finalized_postings(
        vec![(
            "fast".to_owned(),
            vec![Posting {
                document_id: 7,
                term_frequency: 0,
            }],
        )],
        8,
    );
    assert_eq!(
        build_segment(&zero).unwrap_err().message(),
        "cannot encode postings for term 'fast': ZeroFrequency { document_id: 7 }"
    );
}
