use inverted_index::binary_file::{append_checksum, ErrorKind, CHECKSUM_LENGTH, FORMAT_VERSION};
use inverted_index::inverted_index::InvertedIndex;
use inverted_index::model::Posting;
use inverted_index::postings::PostingsDecoder;
use inverted_index::segment_codec::{build_segment, HEADER_LENGTH, TERM_OFFSET_LENGTH};
use inverted_index::segment_reader::{SegmentReadError, SegmentReader};
use inverted_index::segment_validation::{
    validate_segment, validate_term_record, SegmentValidationError, TermFault,
};

fn posting(document_id: u32, term_frequency: u32) -> Posting {
    Posting {
        document_id,
        term_frequency,
    }
}

fn test_index() -> InvertedIndex {
    InvertedIndex::from_finalized_postings(
        vec![
            ("rust".to_owned(), vec![posting(0, 2), posting(3, 1)]),
            ("search".to_owned(), vec![posting(1, 1)]),
        ],
        4,
    )
}

fn empty_index() -> InvertedIndex {
    InvertedIndex::from_finalized_postings(Vec::new(), 0)
}

fn segment_bytes(index: &InvertedIndex) -> Vec<u8> {
    build_segment(index).unwrap()
}

fn replace_checksum(bytes: &mut Vec<u8>) {
    bytes.truncate(bytes.len() - CHECKSUM_LENGTH);
    append_checksum(bytes);
}

fn read_segment_layout(bytes: &[u8]) -> Result<SegmentReader, SegmentReadError> {
    SegmentReader::open(bytes.to_vec())
}

fn collect_postings(mut decoder: PostingsDecoder<'_>) -> Vec<Posting> {
    let mut postings = Vec::new();
    while let Some(result) = decoder.next() {
        postings.push(result.expect("postings should decode"));
    }
    postings
}

fn opened(bytes: Vec<u8>) -> SegmentReader {
    SegmentReader::open(bytes).unwrap()
}

#[test]
fn segment_reader_valid_segment_exposes_metadata_and_regions() {
    let bytes = segment_bytes(&test_index());
    for reader in [
        SegmentReader::open(bytes.clone()).unwrap(),
        SegmentReader::open_validated(bytes.clone()).unwrap(),
    ] {
        assert_eq!(reader.document_count(), 4);
        assert_eq!(reader.term_count(), 2);
        assert_eq!(reader.term_offset_table().len(), 2 * TERM_OFFSET_LENGTH);
        assert!(!reader.term_records().is_empty());
        assert_eq!(reader.postings(), &[0x00, 0x02, 0x03, 0x01, 0x01, 0x01]);
        let checksum_offset = bytes.len() - CHECKSUM_LENGTH;
        assert_eq!(reader.checksum(), crc32fast::hash(&bytes[..checksum_offset]));
    }
}

#[test]
fn segment_reader_empty_segment_is_accepted() {
    let bytes = segment_bytes(&empty_index());
    for reader in [
        SegmentReader::open(bytes.clone()).unwrap(),
        SegmentReader::open_validated(bytes.clone()).unwrap(),
    ] {
        assert_eq!(reader.document_count(), 0);
        assert_eq!(reader.term_count(), 0);
        assert!(reader.term_offset_table().is_empty());
        assert!(reader.term_records().is_empty());
        assert!(reader.postings().is_empty());
    }
}

#[test]
fn truncated_segment_is_rejected() {
    let error = validate_segment(&[0; 10]).unwrap_err();
    assert_eq!(error.kind(), ErrorKind::UnexpectedEof);
    assert_eq!(error.message(), "segment too small");
}

#[test]
fn segment_too_small_for_header_and_checksum_is_rejected() {
    let error = read_segment_layout(&[0; 10]).err().unwrap();
    assert_eq!(error.kind(), ErrorKind::UnexpectedEof);
    assert_eq!(error.message(), "segment too small");
}

#[test]
fn segment_reader_invalid_magic_is_rejected() {
    let mut bytes = segment_bytes(&test_index());
    bytes[0] = b'X';
    replace_checksum(&mut bytes);
    let error = validate_segment(&bytes).unwrap_err();
    assert_eq!(error.kind(), ErrorKind::InvalidData);
    assert_eq!(error.message(), "invalid magic");

    let mut bytes = segment_bytes(&test_index());
    bytes[0] ^= 0xFF;
    replace_checksum(&mut bytes);
    let error = read_segment_layout(&bytes).err().unwrap();
    assert_eq!(error.kind(), ErrorKind::InvalidData);
    assert_eq!(error.message(), "invalid segment magic");
}

#[test]
fn segment_reader_unsupported_version_is_rejected() {
    let mut bytes = segment_bytes(&test_index());
    bytes[8..10].copy_from_slice(&(FORMAT_VERSION + 1).to_le_bytes());
    replace_checksum(&mut bytes);

    let error = validate_segment(&bytes).unwrap_err();
    assert_eq!(error.kind(), ErrorKind::InvalidData);
    assert_eq!(error.message(), "invalid format version");

    let error = read_segment_layout(&bytes).err().unwrap();
    assert_eq!(error.kind(), ErrorKind::InvalidData);
    assert_eq!(error.message(), "unsupported segment format version");
}

#[test]
fn segment_reader_checksum_mismatch_is_rejected() {
    let mut bytes = segment_bytes(&test_index());
    let last = bytes.len() - 1;
    bytes[last] ^= 0xFF;

    assert_eq!(validate_segment(&bytes).unwrap_err().message(), "checksum mismatch");
    assert_eq!(
        read_segment_layout(&bytes).err().unwrap().message(),
        "segment checksum mismatch"
    );
}

#[test]
fn impossible_term_offset_table_is_rejected() {
    let mut bytes = segment_bytes(&test_index());
    bytes[14..18].copy_from_slice(&u32::MAX.to_le_bytes());
    replace_checksum(&mut bytes);

    let error = validate_segment(&bytes).unwrap_err();
    assert_eq!(error.kind(), ErrorKind::InvalidData);
    assert_eq!(error.message(), "term records overlap the postings section");
}

#[test]
fn term_offset_table_outside_the_file_is_rejected() {
    let mut bytes = segment_bytes(&test_index());
    bytes[14..18].copy_from_slice(&u32::MAX.to_le_bytes());
    replace_checksum(&mut bytes);

    let error = read_segment_layout(&bytes).err().unwrap();
    assert_eq!(error.kind(), ErrorKind::InvalidData);
    assert_eq!(error.message(), "term records overlap the postings section");
}

#[test]
fn postings_offset_past_the_checksum_is_rejected() {
    let mut bytes = segment_bytes(&test_index());
    bytes[18..26].copy_from_slice(&u64::MAX.to_le_bytes());
    replace_checksum(&mut bytes);

    let error = read_segment_layout(&bytes).err().unwrap();
    assert_eq!(error.kind(), ErrorKind::InvalidData);
    assert!(
        error.message() == "postings offset exceeds addressable memory"
            || error.message() == "postings offset is past the checksum"
    );
    let error = validate_segment(&bytes).unwrap_err();
    assert!(
        error.message() == "postings offset exceeds addressable memory"
            || error.message() == "postings offset is past the checksum"
    );
}

#[test]
fn invalid_term_record_offset_is_rejected() {
    let mut bytes = segment_bytes(&test_index());
    bytes[26..34].copy_from_slice(&(HEADER_LENGTH as u64).to_le_bytes());
    replace_checksum(&mut bytes);

    let error = validate_segment(&bytes).unwrap_err();
    assert_eq!(error.kind(), ErrorKind::InvalidData);
    assert_eq!(
        error.message(),
        "term-record offset is outside the term-record section"
    );
}

#[test]
fn invalid_term_record_offset_is_rejected_when_accessed() {
    let mut bytes = segment_bytes(&test_index());
    bytes[26..34].copy_from_slice(&(HEADER_LENGTH as u64).to_le_bytes());
    replace_checksum(&mut bytes);

    let reader = opened(bytes);
    let error = reader.get_term(0).unwrap_err();
    assert_eq!(error.kind(), ErrorKind::InvalidData);
    assert_eq!(error.message(), "term-record range is invalid");
}

#[test]
fn truncated_term_record_is_rejected() {
    let mut bytes = segment_bytes(&test_index());
    bytes[42] = 127;
    replace_checksum(&mut bytes);

    let error = validate_segment(&bytes).unwrap_err();
    assert_eq!(error.kind(), ErrorKind::UnexpectedEof);
    assert_eq!(error.message(), "truncated term bytes");
}

#[test]
fn truncated_term_record_is_rejected_when_accessed() {
    let mut bytes = segment_bytes(&test_index());
    bytes[42] = 127;
    replace_checksum(&mut bytes);

    let reader = opened(bytes);
    let error = reader.get_term(0).unwrap_err();
    assert_eq!(error.kind(), ErrorKind::UnexpectedEof);
    assert_eq!(error.message(), "truncated term bytes");
}

#[test]
fn invalid_utf8_term_is_rejected() {
    let mut bytes = segment_bytes(&test_index());
    bytes[43] = 0xFF;
    replace_checksum(&mut bytes);

    let error = validate_segment(&bytes).unwrap_err();
    assert_eq!(error.kind(), ErrorKind::InvalidData);
    assert_eq!(error.message(), "term is not valid UTF-8");
}

#[test]
fn invalid_utf8_term_is_rejected_when_accessed() {
    let mut bytes = segment_bytes(&test_index());
    bytes[43] = 0xFF;
    replace_checksum(&mut bytes);

    let reader = opened(bytes);
    let error = reader.get_term(0).unwrap_err();
    assert_eq!(error.kind(), ErrorKind::InvalidData);
    assert_eq!(error.message(), "term is not valid UTF-8");
}

#[test]
fn zero_document_frequency_is_rejected() {
    let mut bytes = segment_bytes(&test_index());
    bytes[47] = 0;
    replace_checksum(&mut bytes);

    let error = validate_segment(&bytes).unwrap_err();
    assert_eq!(error.kind(), ErrorKind::InvalidData);
    assert_eq!(error.message(), "term 'rust' has no postings");
}

#[test]
fn zero_document_frequency_is_rejected_when_accessed() {
    let mut bytes = segment_bytes(&test_index());
    bytes[47] = 0;
    replace_checksum(&mut bytes);

    let reader = opened(bytes);
    let error = match reader.get_postings(0) {
        Ok(_) => panic!("zero document frequency should fail"),
        Err(error) => error,
    };
    assert_eq!(error.kind(), ErrorKind::InvalidData);
    assert_eq!(error.message(), "term 'rust' has no postings");
}

#[test]
fn posting_range_outside_postings_section_is_rejected() {
    let mut bytes = segment_bytes(&test_index());
    bytes[56..64].copy_from_slice(&u64::MAX.to_le_bytes());
    replace_checksum(&mut bytes);

    let error = validate_segment(&bytes).unwrap_err();
    assert_eq!(error.kind(), ErrorKind::InvalidData);
    assert!(error.message().contains("postings"));
}

#[test]
fn posting_range_outside_postings_section_is_rejected_when_accessed() {
    let mut bytes = segment_bytes(&test_index());
    bytes[56..64].copy_from_slice(&u64::MAX.to_le_bytes());
    replace_checksum(&mut bytes);

    let reader = opened(bytes);
    let error = match reader.get_postings(0) {
        Ok(_) => panic!("invalid postings range should fail"),
        Err(error) => error,
    };
    assert_eq!(error.kind(), ErrorKind::InvalidData);
    assert!(error.message().contains("postings"));
}

#[test]
fn unsorted_terms_are_rejected() {
    let mut bytes = segment_bytes(&test_index());
    bytes[43..47].copy_from_slice(b"zzzz");
    replace_checksum(&mut bytes);

    let error = validate_segment(&bytes).unwrap_err();
    assert_eq!(error.kind(), ErrorKind::InvalidData);
    assert_eq!(error.message(), "terms are not strictly increasing");
}

#[test]
fn term_order_is_not_eagerly_revalidated() {
    let mut bytes = segment_bytes(&test_index());
    bytes[43..47].copy_from_slice(b"zzzz");
    replace_checksum(&mut bytes);

    let reader = opened(bytes);
    assert_eq!(reader.get_term(0).unwrap(), "zzzz");
}

#[test]
fn duplicate_terms_are_rejected() {
    let index = InvertedIndex::from_finalized_postings(
        vec![
            ("alpha".to_owned(), vec![posting(0, 1)]),
            ("bravo".to_owned(), vec![posting(1, 1)]),
        ],
        2,
    );
    let mut bytes = segment_bytes(&index);
    let second_term_offset = u64::from_le_bytes(bytes[34..42].try_into().unwrap()) as usize;
    bytes[second_term_offset + 1..second_term_offset + 6].copy_from_slice(b"alpha");
    replace_checksum(&mut bytes);

    let error = validate_segment(&bytes).unwrap_err();
    assert_eq!(error.kind(), ErrorKind::InvalidData);
    assert_eq!(error.message(), "terms are not strictly increasing");
}

#[test]
fn noncanonical_term_length_is_rejected() {
    let mut bytes = segment_bytes(&test_index());
    bytes[42] = 0x80;
    bytes[43] = 0;
    replace_checksum(&mut bytes);

    let error = validate_segment(&bytes).unwrap_err();
    assert_eq!(error.kind(), ErrorKind::InvalidData);
    assert!(error.message().contains("NonCanonical"));
}

#[test]
fn noncanonical_term_length_is_rejected_when_accessed() {
    let mut bytes = segment_bytes(&test_index());
    bytes[42] = 0x80;
    bytes[43] = 0;
    replace_checksum(&mut bytes);

    let reader = opened(bytes);
    let error = reader.get_term(0).unwrap_err();
    assert_eq!(error.kind(), ErrorKind::InvalidData);
    assert!(error.message().contains("noncanonical"));
}

#[test]
fn unknown_document_id_is_rejected() {
    let mut bytes = segment_bytes(&test_index());
    bytes[10..14].copy_from_slice(&1u32.to_le_bytes());
    replace_checksum(&mut bytes);

    let error = validate_segment(&bytes).unwrap_err();
    assert_eq!(error.kind(), ErrorKind::InvalidData);
    assert!(error.message().contains("unknown document ID"));
    assert_eq!(
        error,
        SegmentValidationError::Term {
            term: "rust".to_owned(),
            fault: TermFault::UnknownDocumentId(3),
        }
    );
    assert_eq!(error.message(), "term 'rust' contains unknown document ID 3");
}

#[test]
fn truncated_segments_are_rejected_without_panicking() {
    let bytes = segment_bytes(&test_index());

    for length in 0..bytes.len() {
        assert!(
            validate_segment(&bytes[..length]).is_err(),
            "truncated segment was accepted at length {length}"
        );
    }
}

#[test]
fn truncated_segments_fail_checksum_validation_without_panicking() {
    let bytes = segment_bytes(&test_index());

    for length in 0..bytes.len() {
        assert!(
            read_segment_layout(&bytes[..length]).is_err(),
            "truncated segment was accepted at length {length}"
        );
    }
}

#[test]
fn get_term_returns_sorted_dictionary_terms() {
    let reader = opened(segment_bytes(&test_index()));

    assert_eq!(reader.get_term(0).unwrap(), "rust");
    assert_eq!(reader.get_term(1).unwrap(), "search");
}

#[test]
fn get_term_rejects_out_of_range_index() {
    let reader = opened(segment_bytes(&test_index()));

    let error = reader.get_term(2).unwrap_err();
    assert_eq!(error.kind(), ErrorKind::InvalidInput);
    assert_eq!(error.message(), "term index out of range");
}

#[test]
fn get_postings_returns_decoded_lists() {
    let reader = opened(segment_bytes(&test_index()));

    let rust_postings = collect_postings(reader.get_postings(0).unwrap());
    let search_postings = collect_postings(reader.get_postings(1).unwrap());

    assert_eq!(rust_postings, vec![posting(0, 2), posting(3, 1)]);
    assert_eq!(search_postings, vec![posting(1, 1)]);
}

#[test]
fn get_postings_rejects_out_of_range_index() {
    let reader = opened(segment_bytes(&test_index()));

    let error = match reader.get_postings(2) {
        Ok(_) => panic!("out-of-range postings lookup should fail"),
        Err(error) => error,
    };
    assert_eq!(error.kind(), ErrorKind::InvalidInput);
    assert_eq!(error.message(), "term index out of range");
}

#[test]
fn empty_segment_rejects_term_lookup() {
    let reader = opened(segment_bytes(&empty_index()));

    let error = reader.get_term(0).unwrap_err();

    assert_eq!(error.kind(), ErrorKind::InvalidInput);
    assert_eq!(error.message(), "term index out of range");
}

#[test]
fn non_alphanumeric_terms_are_rejected() {
    let mut bytes = segment_bytes(&test_index());
    bytes[44] = b'-';
    replace_checksum(&mut bytes);

    let error = validate_segment(&bytes).unwrap_err();
    assert_eq!(error.message(), "term 'r-st' is not ASCII alphanumeric");
    let reader = opened(bytes);
    assert_eq!(
        reader.get_term(0).unwrap_err().message(),
        "term 'r-st' is not ASCII alphanumeric"
    );
}

#[test]
fn validated_open_rejects_what_lazy_open_accepts() {
    let mut bytes = segment_bytes(&test_index());
    bytes[43..47].copy_from_slice(b"zzzz");
    replace_checksum(&mut bytes);

    assert!(SegmentReader::open(bytes.clone()).is_ok());
    assert_eq!(
        SegmentReader::open_validated(bytes).err().unwrap(),
        SegmentValidationError::TermsNotIncreasing
    );
}

#[test]
fn every_proper_prefix_of_a_segment_is_rejected() {
    let bytes = segment_bytes(&test_index());
    assert!(validate_segment(&bytes).is_ok());
    for length in 0..bytes.len() {
        assert!(validate_segment(&bytes[..length]).is_err());
        let mut resealed = bytes[..length].to_vec();
        if resealed.len() >= CHECKSUM_LENGTH {
            replace_checksum(&mut resealed);
            assert!(validate_segment(&resealed).is_err());
        }
    }
}

#[test]
fn a_checked_term_record_has_the_written_layout() {
    let bytes = segment_bytes(&test_index());
    let records_start = HEADER_LENGTH + 2 * TERM_OFFSET_LENGTH;
    let rust_record_end = records_start + 1 + 4 + 1 + 16;
    let search_record_end = rust_record_end + 1 + 6 + 1 + 16;
    let postings = &bytes[search_record_end..bytes.len() - CHECKSUM_LENGTH];
    assert_eq!(postings, &[0, 2, 3, 1, 1, 1]);
    let (term, range) =
        validate_term_record(&bytes, records_start, rust_record_end, 4, postings).unwrap();
    assert_eq!(term, "rust");
    assert_eq!(range, (0, 4));
    let mut expected = vec![4u8];
    expected.extend_from_slice(b"rust");
    expected.push(2);
    expected.extend_from_slice(&0u64.to_le_bytes());
    expected.extend_from_slice(&4u64.to_le_bytes());
    assert_eq!(&bytes[records_start..rust_record_end], expected.as_slice());
    let (term, range) =
        validate_term_record(&bytes, rust_record_end, search_record_end, 4, postings).unwrap();
    assert_eq!(term, "search");
    assert_eq!(range, (4, 6));
    assert!(validate_term_record(&bytes, records_start, rust_record_end, 3, postings).is_err());
}
