use inverted_index::model::{AddressedPosting, DocumentAddress, SegmentId};
use inverted_index::multi_segment_postings::{MultiSegmentPostings, SegmentDecodeError};
use inverted_index::postings::{DecodeError, PostingsDecoder};
use inverted_index::varint;

#[test]
fn iterates_segments_in_order_and_preserves_local_document_ids() {
    let segment_1_bytes = [0, 2];
    let segment_2_bytes = [0, 3];
    let decoders = vec![
        (
            SegmentId::new(1).unwrap(),
            PostingsDecoder::new(&segment_1_bytes, 1),
        ),
        (
            SegmentId::new(2).unwrap(),
            PostingsDecoder::new(&segment_2_bytes, 1),
        ),
    ];

    let postings = MultiSegmentPostings::new(decoders).collect().unwrap();

    assert_eq!(
        postings,
        vec![
            AddressedPosting {
                address: DocumentAddress {
                    segment_id: SegmentId::new(1).unwrap(),
                    local_document_id: 0,
                },
                term_frequency: 2,
            },
            AddressedPosting {
                address: DocumentAddress {
                    segment_id: SegmentId::new(2).unwrap(),
                    local_document_id: 0,
                },
                term_frequency: 3,
            },
        ]
    );
}

#[test]
fn decode_error_contains_the_segment_id() {
    let invalid_postings = [0];
    let segment_id = SegmentId::new(7).unwrap();
    let decoders = vec![(segment_id, PostingsDecoder::new(&invalid_postings, 1))];

    let error = MultiSegmentPostings::new(decoders)
        .next()
        .unwrap()
        .unwrap_err();

    assert_eq!(
        error,
        SegmentDecodeError {
            segment_id,
            source: DecodeError::InvalidTermFrequency(varint::DecodeError::Truncated),
        }
    );
}

#[test]
fn empty_segments_are_skipped_and_errors_end_their_segment() {
    let empty: [u8; 0] = [];
    let broken = [5];
    let good = [4, 1, 2, 9];
    let decoders = vec![
        (SegmentId::new(1).unwrap(), PostingsDecoder::new(&empty, 0)),
        (SegmentId::new(2).unwrap(), PostingsDecoder::new(&broken, 1)),
        (SegmentId::new(3).unwrap(), PostingsDecoder::new(&good, 2)),
    ];
    let mut postings = MultiSegmentPostings::new(decoders);

    assert_eq!(
        postings.next(),
        Some(Err(SegmentDecodeError {
            segment_id: SegmentId::new(2).unwrap(),
            source: DecodeError::InvalidTermFrequency(varint::DecodeError::Truncated),
        }))
    );
    let address = |local_document_id| DocumentAddress {
        segment_id: SegmentId::new(3).unwrap(),
        local_document_id,
    };
    assert_eq!(
        postings.next(),
        Some(Ok(AddressedPosting {
            address: address(4),
            term_frequency: 1,
        }))
    );
    assert_eq!(
        postings.next(),
        Some(Ok(AddressedPosting {
            address: address(6),
            term_frequency: 9,
        }))
    );
    assert_eq!(postings.next(), None);
    assert_eq!(postings.next(), None);
}

#[test]
fn collect_stops_at_the_first_error() {
    let broken = [0, 0];
    let good = [1, 1];
    let decoders = vec![
        (SegmentId::new(5).unwrap(), PostingsDecoder::new(&broken, 1)),
        (SegmentId::new(6).unwrap(), PostingsDecoder::new(&good, 1)),
    ];
    assert_eq!(
        MultiSegmentPostings::new(decoders).collect(),
        Err(SegmentDecodeError {
            segment_id: SegmentId::new(5).unwrap(),
            source: DecodeError::ZeroFrequency { document_id: 0 },
        })
    );
}

#[test]
fn postings_across_segments_come_in_address_order() {
    let first = [7, 1, 2, 1];
    let with_error = [3, 1, 0, 1, 5, 1];
    let last = [0, 4, 1, 1, 100, 2];
    let decoders = vec![
        (SegmentId::new(2).unwrap(), PostingsDecoder::new(&first, 2)),
        (SegmentId::new(5).unwrap(), PostingsDecoder::new(&with_error, 3)),
        (SegmentId::new(9).unwrap(), PostingsDecoder::new(&last, 3)),
    ];
    let mut postings = MultiSegmentPostings::new(decoders);
    let mut addresses = Vec::new();
    let mut errors = 0;
    while let Some(item) = postings.next() {
        match item {
            Ok(posting) => addresses.push(posting.address),
            Err(error) => {
                assert_eq!(error.segment_id, SegmentId::new(5).unwrap());
                errors += 1;
            }
        }
    }
    assert_eq!(errors, 1);
    assert_eq!(addresses.len(), 6);
    for pair in addresses.windows(2) {
        assert!(pair[0] < pair[1]);
    }
    assert_eq!(
        addresses[2],
        DocumentAddress {
            segment_id: SegmentId::new(5).unwrap(),
            local_document_id: 3,
        }
    );
    assert_eq!(
        addresses[5],
        DocumentAddress {
            segment_id: SegmentId::new(9).unwrap(),
            local_document_id: 101,
        }
    );
}
