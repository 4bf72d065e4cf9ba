use inverted_index::binary_file::{
    append_checksum, ErrorKind, FileType, CHECKSUM_LENGTH, FORMAT_VERSION,
};
use inverted_index::manifest::{
    Manifest, SegmentMetadata, FILE_NUMBER_WIDTH, MANIFEST_FILE_PREFIX, MANIFEST_FILE_SUFFIX,
    SEGMENT_FILE_PREFIX, SEGMENT_FILE_SUFFIX,
};
use inverted_index::manifest_codec::{
    decode, encode, generation_from_file_name, ManifestCodecError,
    HEADER_LENGTH,
};
use inverted_index::model::SegmentId;
use inverted_index::varint;

fn manifest_file_name(generation: u64) -> String {
    format!(
        "{MANIFEST_FILE_PREFIX}{generation:0width$}{MANIFEST_FILE_SUFFIX}",
        width = FILE_NUMBER_WIDTH
    )
}

fn build_manifest(generation: u64, manifest: &Manifest) -> Result<Vec<u8>, ManifestCodecError> {
    encode(&manifest_file_name(generation), manifest)
}

fn decode_bytes(bytes: &[u8], expected_generation: u64) -> Result<Manifest, ManifestCodecError> {
    decode(&manifest_file_name(expected_generation), bytes)
}

fn populated_manifest() -> Manifest {
    Manifest::new(vec![segment(1, 10, 5, 100, 11), segment(2, 20, 8, 200, 22)]).unwrap()
}

fn segment(
    id: u64,
    document_count: u32,
    term_count: u32,
    length_bytes: u64,
    checksum: u32,
) -> SegmentMetadata {
    SegmentMetadata {
        id: SegmentId::new(id).unwrap(),
        file_name: segment_file_name(id),
        document_count,
        term_count,
        length_bytes,
        checksum,
    }
}

fn segment_file_name(id: u64) -> String {
    format!(
        "{SEGMENT_FILE_PREFIX}{id:0width$}{SEGMENT_FILE_SUFFIX}",
        width = FILE_NUMBER_WIDTH
    )
}

fn replace_checksum(bytes: &mut Vec<u8>) {
    bytes.truncate(bytes.len() - CHECKSUM_LENGTH);
    append_checksum(bytes);
}

fn segment_length_offsets(bytes: &[u8]) -> Vec<usize> {
    let segment_count = u32::from_le_bytes(bytes[18..22].try_into().unwrap());
    let mut offsets = Vec::with_capacity(segment_count as usize);
    let mut position = HEADER_LENGTH;

    for _ in 0..segment_count {
        position += 8;
        let (file_name_length, varint_length) = varint::decode(&bytes[position..]).unwrap();
        position += varint_length + file_name_length as usize;
        position += 4;
        position += 4;
        offsets.push(position);
        position += 8;
        position += 4;
    }

    offsets
}

#[test]
fn header_and_segment_record_match_the_format() {
    let manifest = populated_manifest();
    let bytes = build_manifest(42, &manifest).unwrap();

    assert_eq!(&bytes[0..8], b"INVMAN\0\0");
    assert_eq!(&bytes[0..8], &FileType::Manifest.magic());
    assert_eq!(&bytes[8..10], &FORMAT_VERSION.to_le_bytes());
    assert_eq!(&bytes[10..18], &42_u64.to_le_bytes());
    assert_eq!(&bytes[18..22], &2_u32.to_le_bytes());

    let first = &manifest.segments()[0];
    let mut position = HEADER_LENGTH;
    assert_eq!(
        u64::from_le_bytes(bytes[position..position + 8].try_into().unwrap()),
        first.id.value()
    );
    position += 8;

    let (file_name_length, varint_length) = varint::decode(&bytes[position..]).unwrap();
    position += varint_length;
    assert_eq!(file_name_length as usize, first.file_name.len());
    assert_eq!(
        &bytes[position..position + first.file_name.len()],
        first.file_name.as_bytes()
    );
    position += first.file_name.len();

    assert_eq!(
        u32::from_le_bytes(bytes[position..position + 4].try_into().unwrap()),
        first.document_count
    );
    position += 4;
    assert_eq!(
        u32::from_le_bytes(bytes[position..position + 4].try_into().unwrap()),
        first.term_count
    );
    position += 4;
    assert_eq!(
        u64::from_le_bytes(bytes[position..position + 8].try_into().unwrap()),
        first.length_bytes
    );
    position += 8;
    assert_eq!(
        u32::from_le_bytes(bytes[position..position + 4].try_into().unwrap()),
        first.checksum
    );

    let checksum_start = bytes.len() - CHECKSUM_LENGTH;
    let stored = u32::from_le_bytes(bytes[checksum_start..].try_into().unwrap());
    assert_eq!(stored, crc32fast::hash(&bytes[..checksum_start]));
}

#[test]
fn encoding_is_deterministic_and_round_trips() {
    let manifest = populated_manifest();
    let first = build_manifest(7, &manifest).unwrap();
    let second = build_manifest(7, &manifest).unwrap();
    assert_eq!(first, second);

    let decoded = decode_bytes(&first, 7).unwrap();

    assert_eq!(decoded.segments(), manifest.segments());
}

#[test]
fn empty_manifest_round_trips() {
    let manifest = Manifest::new(Vec::new()).unwrap();
    let bytes = build_manifest(1, &manifest).unwrap();

    assert_eq!(bytes.len(), HEADER_LENGTH + CHECKSUM_LENGTH);
    let decoded = decode_bytes(&bytes, 1).unwrap();
    assert!(decoded.segments().is_empty());
}

#[test]
fn truncated_manifests_are_rejected_without_panicking() {
    let bytes = build_manifest(1, &populated_manifest()).unwrap();

    for length in 0..bytes.len() {
        let result = decode_bytes(&bytes[..length], 1);
        assert!(
            result.is_err(),
            "truncated manifest was accepted at length {length}"
        );
    }
}

#[test]
fn checksum_and_version_errors_are_rejected() {
    let mut checksum_error = build_manifest(1, &populated_manifest()).unwrap();
    checksum_error[0] ^= 0xFF;
    assert_eq!(
        decode_bytes(&checksum_error, 1).unwrap_err().message(),
        "manifest checksum mismatch"
    );

    let mut version_error = build_manifest(1, &populated_manifest()).unwrap();
    version_error[8..10].copy_from_slice(&(FORMAT_VERSION + 1).to_le_bytes());
    replace_checksum(&mut version_error);
    assert_eq!(
        decode_bytes(&version_error, 1).unwrap_err().message(),
        "unsupported manifest format version"
    );
}

#[test]
fn noncanonical_varint_and_trailing_bytes_are_rejected() {
    let mut noncanonical = build_manifest(1, &populated_manifest()).unwrap();
    let file_name_length_offset = HEADER_LENGTH + 8;
    noncanonical[file_name_length_offset] |= 0x80;
    noncanonical.insert(file_name_length_offset + 1, 0);
    replace_checksum(&mut noncanonical);
    assert_eq!(
        decode_bytes(&noncanonical, 1).unwrap_err().message(),
        "noncanonical segment file-name length"
    );

    let mut trailing = build_manifest(1, &populated_manifest()).unwrap();
    trailing.insert(trailing.len() - CHECKSUM_LENGTH, 0);
    replace_checksum(&mut trailing);
    assert_eq!(
        decode_bytes(&trailing, 1).unwrap_err().message(),
        "trailing manifest bytes"
    );
}

#[test]
fn impossible_segment_count_and_total_overflow_are_rejected() {
    let mut impossible_count = build_manifest(1, &populated_manifest()).unwrap();
    impossible_count[18..22].copy_from_slice(&u32::MAX.to_le_bytes());
    replace_checksum(&mut impossible_count);
    assert_eq!(
        decode_bytes(&impossible_count, 1).unwrap_err().message(),
        "segment count exceeds manifest length"
    );

    let mut overflow = build_manifest(1, &populated_manifest()).unwrap();
    let length_offsets = segment_length_offsets(&overflow);
    overflow[length_offsets[0]..length_offsets[0] + 8].copy_from_slice(&u64::MAX.to_le_bytes());
    overflow[length_offsets[1]..length_offsets[1] + 8].copy_from_slice(&1_u64.to_le_bytes());
    replace_checksum(&mut overflow);
    assert_eq!(
        decode_bytes(&overflow, 1).unwrap_err().message(),
        "total segment bytes overflow"
    );
}

#[test]
fn writer_revalidates_manifest_state() {
    let duplicate_ids = Manifest::from_decoded_segments_unchecked(vec![
        segment(1, 10, 5, 100, 11),
        SegmentMetadata {
            id: SegmentId::new(1).unwrap(),
            file_name: segment_file_name(2),
            document_count: 20,
            term_count: 8,
            length_bytes: 200,
            checksum: 22,
        },
    ]);
    assert_eq!(
        build_manifest(1, &duplicate_ids).unwrap_err().kind(),
        ErrorKind::InvalidInput
    );

    let unsafe_name = Manifest::from_decoded_segments_unchecked(vec![SegmentMetadata {
        id: SegmentId::new(1).unwrap(),
        file_name: "../segment.idx".to_owned(),
        document_count: 1,
        term_count: 1,
        length_bytes: 1,
        checksum: 1,
    }]);
    assert_eq!(
        build_manifest(1, &unsafe_name).unwrap_err().kind(),
        ErrorKind::InvalidInput
    );
}

#[test]
fn generation_mismatch_is_rejected() {
    let bytes = build_manifest(3, &populated_manifest()).unwrap();
    let error = decode_bytes(&bytes, 4).unwrap_err();
    assert_eq!(error, ManifestCodecError::GenerationMismatch);
    assert_eq!(error.message(), "manifest generation does not match file name");
    assert_eq!(error.kind(), ErrorKind::InvalidData);
}

#[test]
fn generation_is_read_from_the_file_name() {
    assert_eq!(generation_from_file_name(&manifest_file_name(12)), Ok(12));
    assert_eq!(
        generation_from_file_name("manifest-00000000000000000000.bin"),
        Err(ManifestCodecError::ZeroGeneration)
    );
    assert_eq!(
        generation_from_file_name("manifest-99999999999999999999.bin"),
        Err(ManifestCodecError::GenerationOverflow)
    );
    assert_eq!(
        generation_from_file_name("manifest-12.bin"),
        Err(ManifestCodecError::InvalidGeneration)
    );
    assert_eq!(
        generation_from_file_name("manifest-0000000000000000001x.bin"),
        Err(ManifestCodecError::InvalidGeneration)
    );
    assert_eq!(
        generation_from_file_name("segment-00000000000000000001.idx"),
        Err(ManifestCodecError::InvalidFileName)
    );
    assert_eq!(
        build_manifest(0, &populated_manifest()).unwrap_err(),
        ManifestCodecError::ZeroGeneration
    );
}

#[test]
fn short_and_foreign_files_are_rejected() {
    let error = decode_bytes(&[0u8; 13], 1).unwrap_err();
    assert_eq!(error.message(), "manifest too small");
    assert_eq!(error.kind(), ErrorKind::UnexpectedEof);

    let mut foreign = build_manifest(1, &populated_manifest()).unwrap();
    foreign[3] = b'I';
    replace_checksum(&mut foreign);
    assert_eq!(
        decode_bytes(&foreign, 1).unwrap_err().message(),
        "invalid manifest magic"
    );
}

#[test]
fn zero_segment_id_is_rejected() {
    let mut bytes = build_manifest(1, &populated_manifest()).unwrap();
    bytes[HEADER_LENGTH..HEADER_LENGTH + 8].copy_from_slice(&0_u64.to_le_bytes());
    replace_checksum(&mut bytes);
    assert_eq!(
        decode_bytes(&bytes, 1).unwrap_err(),
        ManifestCodecError::ZeroSegmentId
    );
}

#[test]
fn invalid_manifest_message_names_the_rule() {
    let unsafe_name = Manifest::from_decoded_segments_unchecked(vec![SegmentMetadata {
        id: SegmentId::new(1).unwrap(),
        file_name: "../segment.idx".to_owned(),
        document_count: 1,
        term_count: 1,
        length_bytes: 1,
        checksum: 1,
    }]);
    assert_eq!(
        build_manifest(1, &unsafe_name).unwrap_err().message(),
        "invalid manifest: UnsafeFileName(\"../segment.idx\")"
    );
}

#[test]
fn invalid_manifest_message_escapes_the_file_name() {
    let unsafe_name = Manifest::from_decoded_segments_unchecked(vec![SegmentMetadata {
        id: SegmentId::new(1).unwrap(),
        file_name: "a\u{200b}\"/b".to_owned(),
        document_count: 1,
        term_count: 1,
        length_bytes: 1,
        checksum: 1,
    }]);
    assert_eq!(
        build_manifest(1, &unsafe_name).unwrap_err().message(),
        "invalid manifest: UnsafeFileName(\"a\\u{200b}\\\"/b\")"
    );
}
