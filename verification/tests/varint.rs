use inverted_index::varint::{decode, encode, encoded_length, DecodeError};

#[test]
fn encode_known_values() {
    let cases = [
        (0, vec![0x00]),
        (1, vec![0x01]),
        (127, vec![0x7F]),
        (128, vec![0x80, 0x01]),
        (300, vec![0xAC, 0x02]),
        (16_383, vec![0xFF, 0x7F]),
        (16_384, vec![0x80, 0x80, 0x01]),
        (u32::MAX, vec![0xFF, 0xFF, 0xFF, 0xFF, 0x0F]),
    ];

    for (value, expected) in cases {
        let mut output = Vec::new();
        encode(value, &mut output);
        assert_eq!(output, expected, "incorrect encoding for {value}");
    }
}

#[test]
fn varint_encode_appends_to_existing_output() {
    let mut output = vec![0xAA];

    encode(300, &mut output);

    assert_eq!(output, [0xAA, 0xAC, 0x02]);
}

#[test]
fn decode_known_values() {
    let cases: &[(&[u8], u32, usize)] = &[
        (&[0x00], 0, 1),
        (&[0x01], 1, 1),
        (&[0x7F], 127, 1),
        (&[0x80, 0x01], 128, 2),
        (&[0xAC, 0x02], 300, 2),
        (&[0xFF, 0x7F], 16_383, 2),
        (&[0x80, 0x80, 0x01], 16_384, 3),
        (&[0xFF, 0xFF, 0xFF, 0xFF, 0x0F], u32::MAX, 5),
    ];

    for (input, expected_value, expected_bytes) in cases {
        let result = decode(input);
        assert_eq!(result, Ok((*expected_value, *expected_bytes)));
    }
}

#[test]
fn decode_stops_after_one_varint() {
    let input = [0xAC, 0x02, 0x01];

    assert_eq!(decode(&input), Ok((300, 2)));
}

#[test]
fn decode_rejects_truncated_values() {
    assert_eq!(decode(&[]), Err(DecodeError::Truncated));
    assert_eq!(decode(&[0x80]), Err(DecodeError::Truncated));
    assert_eq!(
        decode(&[0xFF, 0xFF, 0xFF, 0xFF]),
        Err(DecodeError::Truncated)
    );
}

#[test]
fn decode_rejects_overflow() {
    assert_eq!(
        decode(&[0xFF, 0xFF, 0xFF, 0xFF, 0x10]),
        Err(DecodeError::Overflow)
    );
    assert_eq!(
        decode(&[0x80, 0x80, 0x80, 0x80, 0x80, 0x00]),
        Err(DecodeError::Overflow)
    );
}

#[test]
fn decode_rejects_non_canonical_values() {
    assert_eq!(decode(&[0x80, 0x00]), Err(DecodeError::NonCanonical));
    assert_eq!(decode(&[0x81, 0x00]), Err(DecodeError::NonCanonical));
}

#[test]
fn encoded_length_matches_the_encoding() {
    for value in [0u32, 1, 127, 128, 16_383, 16_384, 2_097_151, 2_097_152, u32::MAX] {
        let mut output = Vec::new();
        encode(value, &mut output);
        assert_eq!(encoded_length(value), output.len());
    }
}

#[test]
fn varint_round_trips_with_trailing_bytes() {
    for value in [0u32, 5, 200, 70_000, 300_000_000, u32::MAX] {
        let mut output = Vec::new();
        encode(value, &mut output);
        let length = output.len();
        output.extend_from_slice(&[0x99, 0x01]);
        assert_eq!(decode(&output), Ok((value, length)));
    }
}

#[test]
fn encoded_bytes_are_base_128_digits() {
    for value in [0u32, 1, 127, 128, 300, 16_383, 16_384, 2_097_152, 268_435_456, u32::MAX] {
        let mut bytes = Vec::new();
        encode(value, &mut bytes);
        assert!(!bytes.is_empty() && bytes.len() <= 5);
        let last = bytes.len() - 1;
        for byte in &bytes[..last] {
            assert_ne!(byte & 0x80, 0);
        }
        assert_eq!(bytes[last] & 0x80, 0);
        assert!(bytes.len() == 1 || bytes[last] & 0x7f != 0);
        let mut total: u64 = 0;
        for (i, byte) in bytes.iter().enumerate() {
            total += u64::from(byte & 0x7f) << (7 * i);
        }
        assert_eq!(total, u64::from(value));
    }
}
