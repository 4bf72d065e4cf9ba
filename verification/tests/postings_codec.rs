use inverted_index::model::{DocumentId, Posting};
use inverted_index::postings::{encode, validate, DecodeError, EncodeError, PostingsDecoder};
use inverted_index::varint;

fn posting(document_id: DocumentId, term_frequency: u32) -> Posting {
    Posting {
        document_id,
        term_frequency,
    }
}

#[test]
fn encode_empty_posting_list() {
    let mut output = Vec::new();

    encode(&[], &mut output).unwrap();

    assert!(output.is_empty());
}

#[test]
fn encode_posting_for_document_zero() {
    let postings = [posting(0, 1)];
    let mut output = Vec::new();

    encode(&postings, &mut output).unwrap();

    assert_eq!(output, [0x00, 0x01]);
}

#[test]
fn encode_document_deltas_and_frequencies() {
    let postings = [posting(0, 1), posting(127, 2), posting(255, 3)];
    let mut output = Vec::new();

    encode(&postings, &mut output).unwrap();

    assert_eq!(
        output,
        [
            0x00, 0x01, // document 0: delta 0, frequency 1
            0x7F, 0x02, // document 127: delta 127, frequency 2
            0x80, 0x01, 0x03, // document 255: delta 128, frequency 3
        ]
    );
}

#[test]
fn postings_codec_encode_appends_to_existing_output() {
    let postings = [posting(3, 2)];
    let mut output = vec![0xAA];

    encode(&postings, &mut output).unwrap();

    assert_eq!(output, [0xAA, 0x03, 0x02]);
}

#[test]
fn encode_rejects_duplicate_document_ids() {
    let postings = [posting(3, 1), posting(3, 2)];
    let mut output = Vec::new();

    let error = encode(&postings, &mut output).unwrap_err();

    assert_eq!(
        error,
        EncodeError::DocumentIdsNotStrictlyIncreasing {
            previous: 3,
            current: 3,
        }
    );
}

#[test]
fn encode_rejects_decreasing_document_ids() {
    let postings = [posting(5, 1), posting(2, 1)];
    let mut output = Vec::new();

    let error = encode(&postings, &mut output).unwrap_err();

    assert_eq!(
        error,
        EncodeError::DocumentIdsNotStrictlyIncreasing {
            previous: 5,
            current: 2,
        }
    );
}

#[test]
fn encode_rejects_zero_frequency() {
    let postings = [posting(4, 0)];
    let mut output = Vec::new();

    let error = encode(&postings, &mut output).unwrap_err();

    assert_eq!(error, EncodeError::ZeroFrequency { document_id: 4 });
}

#[test]
fn rejected_encoding_leaves_output_unchanged() {
    let postings = [posting(1, 1), posting(9, 0)];
    let mut output = vec![0x42];

    assert_eq!(validate(&postings), Err(EncodeError::ZeroFrequency { document_id: 9 }));
    assert!(encode(&postings, &mut output).is_err());
    assert_eq!(output, [0x42]);
}

#[test]
fn decode_empty_posting_list() {
    let mut decoder = PostingsDecoder::new(&[], 0);

    assert_eq!(decoder.next(), None);
}

#[test]
fn decode_reconstructs_document_ids_lazily() {
    let bytes = [0x00, 0x01, 0x7F, 0x02, 0x80, 0x01, 0x03];
    let mut decoder = PostingsDecoder::new(&bytes, 3);

    assert_eq!(decoder.next(), Some(Ok(posting(0, 1))));
    assert_eq!(decoder.next(), Some(Ok(posting(127, 2))));
    assert_eq!(decoder.next(), Some(Ok(posting(255, 3))));
    assert_eq!(decoder.next(), None);
}

#[test]
fn posting_list_round_trips() {
    let postings = [
        posting(0, 1),
        posting(127, 2),
        posting(255, 3),
        posting(u32::MAX, 4),
    ];
    let mut bytes = Vec::new();
    encode(&postings, &mut bytes).unwrap();

    let mut decoder = PostingsDecoder::new(&bytes, postings.len());
    let mut decoded = Vec::new();
    while let Some(result) = decoder.next() {
        decoded.push(result.unwrap());
    }

    assert_eq!(decoded, postings);
}

#[test]
fn decode_rejects_truncated_document_delta() {
    let mut decoder = PostingsDecoder::new(&[], 1);

    assert_eq!(
        decoder.next(),
        Some(Err(DecodeError::InvalidDocumentDelta(
            varint::DecodeError::Truncated
        )))
    );
    assert_eq!(decoder.next(), None);
}

#[test]
fn decode_rejects_truncated_term_frequency() {
    let bytes = [0x01];
    let mut decoder = PostingsDecoder::new(&bytes, 1);

    assert_eq!(
        decoder.next(),
        Some(Err(DecodeError::InvalidTermFrequency(
            varint::DecodeError::Truncated
        )))
    );
    assert_eq!(decoder.next(), None);
}

#[test]
fn decode_rejects_zero_delta_after_first_posting() {
    let bytes = [0x03, 0x01, 0x00, 0x01];
    let mut decoder = PostingsDecoder::new(&bytes, 2);

    assert_eq!(decoder.next(), Some(Ok(posting(3, 1))));
    assert_eq!(
        decoder.next(),
        Some(Err(DecodeError::ZeroDelta {
            previous_document_id: 3
        }))
    );
    assert_eq!(decoder.next(), None);
}

#[test]
fn decode_allows_delta_equal_to_previous_document_id() {
    let bytes = [0x03, 0x01, 0x03, 0x01];
    let mut decoder = PostingsDecoder::new(&bytes, 2);

    assert_eq!(decoder.next(), Some(Ok(posting(3, 1))));
    assert_eq!(decoder.next(), Some(Ok(posting(6, 1))));
    assert_eq!(decoder.next(), None);
}

#[test]
fn decode_rejects_document_id_overflow() {
    let mut bytes = Vec::new();
    varint::encode(u32::MAX, &mut bytes);
    varint::encode(1, &mut bytes);
    varint::encode(1, &mut bytes);
    varint::encode(1, &mut bytes);
    let mut decoder = PostingsDecoder::new(&bytes, 2);

    assert_eq!(decoder.next(), Some(Ok(posting(u32::MAX, 1))));
    assert_eq!(decoder.next(), Some(Err(DecodeError::DocumentIdOverflow)));
    assert_eq!(decoder.next(), None);
}

#[test]
fn decode_rejects_zero_frequency() {
    let bytes = [0x04, 0x00];
    let mut decoder = PostingsDecoder::new(&bytes, 1);

    assert_eq!(
        decoder.next(),
        Some(Err(DecodeError::ZeroFrequency { document_id: 4 }))
    );
    assert_eq!(decoder.next(), None);
}

#[test]
fn decode_rejects_trailing_bytes() {
    let bytes = [0x00, 0x01, 0x02];
    let mut decoder = PostingsDecoder::new(&bytes, 1);

    assert_eq!(decoder.next(), Some(Ok(posting(0, 1))));
    assert_eq!(decoder.next(), Some(Err(DecodeError::TrailingBytes)));
    assert_eq!(decoder.next(), None);
}

#[test]
fn decode_rejects_fewer_postings_than_expected() {
    let bytes = [0x00, 0x01];
    let mut decoder = PostingsDecoder::new(&bytes, 2);

    assert_eq!(decoder.next(), Some(Ok(posting(0, 1))));
    assert_eq!(
        decoder.next(),
        Some(Err(DecodeError::InvalidDocumentDelta(
            varint::DecodeError::Truncated
        )))
    );
    assert_eq!(decoder.next(), None);
}

#[test]
fn decoder_reports_remaining_work() {
    let bytes = [0x00, 0x01, 0x05, 0x02];
    let mut decoder = PostingsDecoder::new(&bytes, 2);

    assert_eq!(decoder.remaining_postings(), 2);
    assert_eq!(decoder.remaining_bytes(), 4);
    assert_eq!(decoder.next(), Some(Ok(posting(0, 1))));
    assert_eq!(decoder.remaining_postings(), 1);
    assert_eq!(decoder.remaining_bytes(), 2);
    assert_eq!(decoder.next(), Some(Ok(posting(5, 2))));
    assert_eq!(decoder.remaining_postings(), 0);
    assert_eq!(decoder.next(), None);
}
