use inverted_index::binary_file::{
    append_checksum, check_file, start_file, Decoder, ErrorKind, FieldError, FieldProblem,
    FileError, FileType,
};
use inverted_index::bytes_order::{compare_bytes, Comparison};
use inverted_index::dictionary::find_entry;
use inverted_index::text::{format_decimal, join2, join3};
use inverted_index::wire::{
    push_u16_le, push_u32_le, push_u64_le, read_u16_le, read_u32_le, read_u64_le,
};

#[test]
fn checksum_is_crc32_of_everything_before_it() {
    let mut bytes = start_file(FileType::Segment);
    bytes.extend_from_slice(b"payload");
    let payload = bytes.clone();
    append_checksum(&mut bytes);
    assert_eq!(bytes.len(), payload.len() + 4);
    assert_eq!(&bytes[..payload.len()], &payload[..]);
    assert_eq!(
        u32::from_le_bytes(bytes[payload.len()..].try_into().unwrap()),
        crc32fast::hash(&payload)
    );
    assert_eq!(check_file(FileType::Segment, &bytes), Ok(crc32fast::hash(&payload)));
    assert_ne!(crc32fast::hash(&payload), 0);
}

#[test]
fn framing_errors_come_in_order() {
    let mut bytes = start_file(FileType::Manifest);
    append_checksum(&mut bytes);
    assert!(check_file(FileType::Manifest, &bytes).is_ok());
    assert_eq!(
        check_file(FileType::Segment, &bytes),
        Err(FileError::InvalidMagic(FileType::Segment))
    );
    assert_eq!(
        check_file(FileType::Manifest, &bytes[..13]),
        Err(FileError::TooSmall(FileType::Manifest))
    );
    let mut tampered = bytes.clone();
    tampered[9] = 7;
    assert_eq!(
        check_file(FileType::Manifest, &tampered),
        Err(FileError::ChecksumMismatch(FileType::Manifest))
    );
    tampered.truncate(tampered.len() - 4);
    append_checksum(&mut tampered);
    let error = check_file(FileType::Manifest, &tampered).unwrap_err();
    assert_eq!(error, FileError::UnsupportedVersion(FileType::Manifest));
    assert_eq!(error.message(), "unsupported manifest format version");
    assert_eq!(error.kind(), ErrorKind::InvalidData);
    assert_eq!(FileError::TooSmall(FileType::Segment).kind(), ErrorKind::UnexpectedEof);
}

#[test]
fn decoder_reads_fields_and_names_the_failing_one() {
    let bytes = [1u8, 0, 2, 0, 0, 0, 0xAC, 0x02, 9];
    let mut decoder = Decoder::new(&bytes);
    assert_eq!(decoder.length(), 9);
    assert_eq!(decoder.read_u16("version"), Ok(1));
    assert_eq!(decoder.read_u32("count"), Ok(2));
    assert_eq!(decoder.read_varint("length"), Ok(300));
    assert_eq!(decoder.remaining(), 1);
    let error = decoder.read_u64("offset").unwrap_err();
    assert_eq!(
        error,
        FieldError {
            problem: FieldProblem::Truncated,
            field: "offset".to_owned()
        }
    );
    assert_eq!(error.message(), "truncated offset");
    assert_eq!(error.kind(), ErrorKind::UnexpectedEof);
    assert_eq!(decoder.read_exact(1, "tail"), Ok(&[9u8][..]));
    assert!(decoder.is_finished());

    let noncanonical = [0x80u8, 0x00];
    let error = Decoder::new(&noncanonical).read_varint("term length").unwrap_err();
    assert_eq!(error.message(), "noncanonical term length");
    assert_eq!(error.kind(), ErrorKind::InvalidData);
    let overflow = [0xFFu8, 0xFF, 0xFF, 0xFF, 0x7F];
    assert_eq!(
        Decoder::new(&overflow).read_varint("count").unwrap_err().message(),
        "count overflow"
    );
}

#[test]
fn little_endian_integers_round_trip() {
    let mut out = Vec::new();
    push_u16_le(&mut out, 0x1234);
    push_u32_le(&mut out, 0xDEADBEEF);
    push_u64_le(&mut out, 0x0102030405060708);
    assert_eq!(&out[..2], &[0x34, 0x12]);
    assert_eq!(read_u16_le(&out, 0), 0x1234);
    assert_eq!(read_u32_le(&out, 2), 0xDEADBEEF);
    assert_eq!(read_u64_le(&out, 6), 0x0102030405060708);
}

#[test]
fn byte_order_is_lexicographic() {
    assert_eq!(compare_bytes(b"abc", b"abd"), Comparison::Less);
    assert_eq!(compare_bytes(b"ab", b"abc"), Comparison::Less);
    assert_eq!(compare_bytes(b"b", b"abc"), Comparison::Greater);
    assert_eq!(compare_bytes(b"", b""), Comparison::Equal);
    assert_eq!(compare_bytes(b"Z", b"a"), Comparison::Less);
}

#[test]
fn dictionary_lookup_finds_entries_or_their_place() {
    let entries = vec![
        ("beta".to_owned(), 1),
        ("delta".to_owned(), 2),
        ("gamma".to_owned(), 3),
    ];
    assert_eq!(find_entry(&entries, "delta"), Ok(1));
    assert_eq!(find_entry(&entries, "alpha"), Err(0));
    assert_eq!(find_entry(&entries, "epsilon"), Err(2));
    assert_eq!(find_entry(&entries, "zeta"), Err(3));
}

#[test]
fn decimal_text_is_zero_padded() {
    assert_eq!(format_decimal(0, 0), "0");
    assert_eq!(format_decimal(42, 0), "42");
    assert_eq!(format_decimal(42, 5), "00042");
    assert_eq!(format_decimal(u64::MAX, 3), "18446744073709551615");
    assert_eq!(join2("a", "b"), "ab");
    assert_eq!(join3("a", "", "c"), "ac");
}

#[test]
fn generic_codec_round_trips() {
    let mut bytes = start_file(FileType::Manifest);
    bytes.extend_from_slice(b"payload");
    append_checksum(&mut bytes);

    let checksum = check_file(FileType::Manifest, &bytes).unwrap();
    let payload = &bytes[..bytes.len() - 4];
    let mut decoder = Decoder::new(payload);
    decoder.read_exact(10, "file header").unwrap();
    let remaining = decoder.remaining();
    let value = decoder.read_exact(remaining, "test payload").unwrap();

    assert_eq!(value, b"payload");
    assert_ne!(checksum, 0);
}
