//! Checking a whole segment up front: framing, header, term-offset table,
//! every term record and every postings list, and that the postings lists
//! cover the postings section exactly.

use crate::binary_file::{spec_magic, ErrorKind, FileType, CHECKSUM_LENGTH, FORMAT_VERSION};
use crate::bytes_order::{compare_bytes, lex_less, Comparison};
use crate::checksum::{checksum, crc32};
use crate::inverted_index::term_bytes;
use crate::model::Posting;
use crate::postings::{self, initial_state, spec_next, DecoderState, PostingsDecoder};
use crate::segment_codec::{HEADER_LENGTH, TERM_OFFSET_LENGTH};
use crate::segment_reader::{
    all_alphanumeric, is_alphanumeric_text, spec_open, ByteRange, SegmentFailure, SegmentLayout,
};
use crate::debug_text::{decode_error_debug, decode_error_text, varint_error_debug, varint_error_text};
use crate::segment_reader::{quote_term, quoted_term};
use crate::text::{decimal, format_decimal, join2, str_from_utf8};
use crate::varint;
use crate::wire::{read_u16_le, read_u32_le, read_u64_le};
use vstd::bytes::*;
use vstd::prelude::*;
use vstd::string::StringSliceAdditionalSpecFns;
use vstd::utf8::{decode_utf8, valid_utf8};

verus! {

/// What is wrong with one term's record or postings.
#[derive(Debug, Clone, Copy, PartialEq, Eq, Structural)]
pub enum TermFault {
    NotAlphanumeric,
    InvalidDocumentFrequency(varint::DecodeError),
    NoPostings,
    TruncatedPostingsMetadata,
    RecordNotFilled,
    EmptyPostings,
    PostingsRangeOverflow,
    PostingsRangeOutside,
    InvalidPostings(postings::DecodeError),
    UnknownDocumentId(u32),
}

/// Why a segment failed validation.
#[derive(Debug, PartialEq, Eq)]
pub enum SegmentValidationError {
    TooSmall,
    ChecksumMismatch,
    InvalidMagic,
    InvalidFormatVersion,
    PostingsOffsetTooLarge,
    PostingsOffsetPastChecksum,
    TermOffsetTableOverflow,
    TermRecordSectionOverflow,
    TermRecordsOverlapPostings,
    EmptySegmentPostingsMisplaced,
    EmptySegmentPayload,
    TermRecordOffsetTooLarge,
    TermRecordOffsetOutside,
    TermRecordOffsetsNotIncreasing,
    FirstTermRecordMisplaced,
    TermsNotIncreasing,
    PostingsNotContiguous,
    EmptyPostingsRange,
    PostingsNotCovered,
    EmptyTermRecord,
    InvalidTermLength(varint::DecodeError),
    EmptyTerm,
    TermLengthOverflow,
    TruncatedTermBytes,
    TermNotUtf8,
    PostingsMetadataOverflow,
    PostingsLengthTooLarge,
    TruncatedHeader,
    Term { term: String, fault: TermFault },
}

impl SegmentValidationError {
    /// The class of the error.
    pub fn kind(&self) -> (kind: ErrorKind)
        ensures
            kind == (match self {
                SegmentValidationError::TooSmall
                | SegmentValidationError::TruncatedTermBytes
                | SegmentValidationError::PostingsMetadataOverflow => ErrorKind::UnexpectedEof,
                SegmentValidationError::Term { fault, .. } => if fault
                    == TermFault::TruncatedPostingsMetadata {
                    ErrorKind::UnexpectedEof
                } else {
                    ErrorKind::InvalidData
                },
                _ => ErrorKind::InvalidData,
            }),
    {
        match self {
            SegmentValidationError::TooSmall
            | SegmentValidationError::TruncatedTermBytes
            | SegmentValidationError::PostingsMetadataOverflow => ErrorKind::UnexpectedEof,
            SegmentValidationError::Term { fault, .. } => match fault {
                TermFault::TruncatedPostingsMetadata => ErrorKind::UnexpectedEof,
                _ => ErrorKind::InvalidData,
            },
            _ => ErrorKind::InvalidData,
        }
    }
}

/// The message of what is wrong with term `term`.
pub open spec fn term_fault_message(term: Seq<char>, fault: TermFault) -> Seq<char> {
    match fault {
        TermFault::NotAlphanumeric => quoted_term("term "@, term, " is not ASCII alphanumeric"@),
        TermFault::InvalidDocumentFrequency(e) => quoted_term(
            "invalid document frequency for term "@,
            term,
            ": "@ + varint_error_text(e),
        ),
        TermFault::NoPostings => quoted_term("term "@, term, " has no postings"@),
        TermFault::TruncatedPostingsMetadata => quoted_term(
            "truncated postings metadata for term "@,
            term,
            Seq::empty(),
        ),
        TermFault::RecordNotFilled => quoted_term(
            "term "@,
            term,
            " record does not fill its allocated range"@,
        ),
        TermFault::EmptyPostings => quoted_term("term "@, term, " has empty postings"@),
        TermFault::PostingsRangeOverflow => quoted_term(
            "postings range overflow for term "@,
            term,
            Seq::empty(),
        ),
        TermFault::PostingsRangeOutside => quoted_term(
            "postings range for term "@,
            term,
            " is outside the postings section"@,
        ),
        TermFault::InvalidPostings(e) => quoted_term(
            "invalid postings for term "@,
            term,
            ": "@ + decode_error_text(e),
        ),
        TermFault::UnknownDocumentId(id) => quoted_term(
            "term "@,
            term,
            " contains unknown document ID "@ + decimal(id as nat),
        ),
    }
}

/// The message of a validation error.
pub open spec fn validation_error_message(error: SegmentValidationError) -> Seq<char> {
    match error {
        SegmentValidationError::TooSmall => "segment too small"@,
        SegmentValidationError::ChecksumMismatch => "checksum mismatch"@,
        SegmentValidationError::InvalidMagic => "invalid magic"@,
        SegmentValidationError::InvalidFormatVersion => "invalid format version"@,
        SegmentValidationError::PostingsOffsetTooLarge => "postings offset exceeds addressable memory"@,
        SegmentValidationError::PostingsOffsetPastChecksum => "postings offset is past the checksum"@,
        SegmentValidationError::TermOffsetTableOverflow => "term-offset table length overflow"@,
        SegmentValidationError::TermRecordSectionOverflow => "term-record section overflow"@,
        SegmentValidationError::TermRecordsOverlapPostings => "term records overlap the postings section"@,
        SegmentValidationError::EmptySegmentPostingsMisplaced => "empty segment must place postings immediately after the header"@,
        SegmentValidationError::EmptySegmentPayload => "empty segment contains unexpected payload"@,
        SegmentValidationError::TermRecordOffsetTooLarge => "term-record offset exceeds addressable memory"@,
        SegmentValidationError::TermRecordOffsetOutside => "term-record offset is outside the term-record section"@,
        SegmentValidationError::TermRecordOffsetsNotIncreasing => "term-record offsets are not strictly increasing"@,
        SegmentValidationError::FirstTermRecordMisplaced => "first term-record offset must start at the term-record section"@,
        SegmentValidationError::TermsNotIncreasing => "terms are not strictly increasing"@,
        SegmentValidationError::PostingsNotContiguous => "postings ranges are not contiguous"@,
        SegmentValidationError::EmptyPostingsRange => "postings range is empty"@,
        SegmentValidationError::PostingsNotCovered => "postings section is not fully covered"@,
        SegmentValidationError::EmptyTermRecord => "empty term record"@,
        SegmentValidationError::EmptyTerm => "empty term"@,
        SegmentValidationError::TermLengthOverflow => "term length overflow"@,
        SegmentValidationError::TruncatedTermBytes => "truncated term bytes"@,
        SegmentValidationError::TermNotUtf8 => "term is not valid UTF-8"@,
        SegmentValidationError::PostingsMetadataOverflow => "truncated postings metadata"@,
        SegmentValidationError::PostingsLengthTooLarge => "postings length exceeds addressable memory"@,
        SegmentValidationError::TruncatedHeader => "truncated header"@,
        SegmentValidationError::InvalidTermLength(e) => "invalid term length: "@ + varint_error_text(e),
        SegmentValidationError::Term { term, fault } => term_fault_message(term@, fault),
    }
}

/// The message of what is wrong with term `term`.
fn term_fault_text(term: &str, fault: TermFault) -> (message: String)
    ensures
        message@ == term_fault_message(term@, fault),
{
    proof {
        reveal_strlit("");
    }
    match fault {
        TermFault::NotAlphanumeric => quote_term("term ", term, " is not ASCII alphanumeric"),
        TermFault::InvalidDocumentFrequency(e) => {
            let detail = varint_error_debug(e);
            let suffix = join2(": ", detail.as_str());
            quote_term("invalid document frequency for term ", term, suffix.as_str())
        },
        TermFault::NoPostings => quote_term("term ", term, " has no postings"),
        TermFault::TruncatedPostingsMetadata => quote_term(
            "truncated postings metadata for term ",
            term,
            "",
        ),
        TermFault::RecordNotFilled => quote_term(
            "term ",
            term,
            " record does not fill its allocated range",
        ),
        TermFault::EmptyPostings => quote_term("term ", term, " has empty postings"),
        TermFault::PostingsRangeOverflow => quote_term("postings range overflow for term ", term, ""),
        TermFault::PostingsRangeOutside => quote_term(
            "postings range for term ",
            term,
            " is outside the postings section",
        ),
        TermFault::InvalidPostings(e) => {
            let detail = decode_error_debug(e);
            let suffix = join2(": ", detail.as_str());
            quote_term("invalid postings for term ", term, suffix.as_str())
        },
        TermFault::UnknownDocumentId(id) => {
            let number = format_decimal(id as u64, 0);
            let suffix = join2(" contains unknown document ID ", number.as_str());
            quote_term("term ", term, suffix.as_str())
        },
    }
}

impl SegmentValidationError {
    /// The error's message, such as `terms are not strictly increasing`.
    pub fn message(&self) -> (message: String)
        ensures
            message@ == validation_error_message(*self),
    {
        match self {
            SegmentValidationError::TooSmall => String::from_str("segment too small"),
            SegmentValidationError::ChecksumMismatch => String::from_str("checksum mismatch"),
            SegmentValidationError::InvalidMagic => String::from_str("invalid magic"),
            SegmentValidationError::InvalidFormatVersion => String::from_str("invalid format version"),
            SegmentValidationError::PostingsOffsetTooLarge => String::from_str("postings offset exceeds addressable memory"),
            SegmentValidationError::PostingsOffsetPastChecksum => String::from_str("postings offset is past the checksum"),
            SegmentValidationError::TermOffsetTableOverflow => String::from_str("term-offset table length overflow"),
            SegmentValidationError::TermRecordSectionOverflow => String::from_str("term-record section overflow"),
            SegmentValidationError::TermRecordsOverlapPostings => String::from_str("term records overlap the postings section"),
            SegmentValidationError::EmptySegmentPostingsMisplaced => String::from_str("empty segment must place postings immediately after the header"),
            SegmentValidationError::EmptySegmentPayload => String::from_str("empty segment contains unexpected payload"),
            SegmentValidationError::TermRecordOffsetTooLarge => String::from_str("term-record offset exceeds addressable memory"),
            SegmentValidationError::TermRecordOffsetOutside => String::from_str("term-record offset is outside the term-record section"),
            SegmentValidationError::TermRecordOffsetsNotIncreasing => String::from_str("term-record offsets are not strictly increasing"),
            SegmentValidationError::FirstTermRecordMisplaced => String::from_str("first term-record offset must start at the term-record section"),
            SegmentValidationError::TermsNotIncreasing => String::from_str("terms are not strictly increasing"),
            SegmentValidationError::PostingsNotContiguous => String::from_str("postings ranges are not contiguous"),
            SegmentValidationError::EmptyPostingsRange => String::from_str("postings range is empty"),
            SegmentValidationError::PostingsNotCovered => String::from_str("postings section is not fully covered"),
            SegmentValidationError::EmptyTermRecord => String::from_str("empty term record"),
            SegmentValidationError::EmptyTerm => String::from_str("empty term"),
            SegmentValidationError::TermLengthOverflow => String::from_str("term length overflow"),
            SegmentValidationError::TruncatedTermBytes => String::from_str("truncated term bytes"),
            SegmentValidationError::TermNotUtf8 => String::from_str("term is not valid UTF-8"),
            SegmentValidationError::PostingsMetadataOverflow => String::from_str("truncated postings metadata"),
            SegmentValidationError::PostingsLengthTooLarge => String::from_str("postings length exceeds addressable memory"),
            SegmentValidationError::TruncatedHeader => String::from_str("truncated header"),
            SegmentValidationError::InvalidTermLength(e) => {
                let detail = varint_error_debug(*e);
                join2("invalid term length: ", detail.as_str())
            },
            SegmentValidationError::Term { term, fault } => term_fault_text(term.as_str(), *fault),
        }
    }
}

/// A validation failure, with the term it concerns as text.
pub enum ValidationFailure {
    Plain(SegmentValidationError),
    Term(Seq<char>, TermFault),
}

/// Whether `error` is the error that reports `failure`.
pub open spec fn describes(error: SegmentValidationError, failure: ValidationFailure) -> bool {
    match failure {
        ValidationFailure::Plain(expected) => error == expected,
        ValidationFailure::Term(term, fault) => error matches SegmentValidationError::Term {
            term: t,
            fault: f,
        } && t@ == term && f == fault,
    }
}

/// What a decoder over a term's postings reports within `fuel` calls: the
/// first decoding error or unknown document identifier, if any.
pub open spec fn scan_postings(state: DecoderState, fuel: nat, document_count: u32) -> Option<
    TermFault,
>
    decreases fuel,
{
    if fuel == 0 {
        None
    } else {
        let (next_state, output) = spec_next(state);
        match output {
            None => None,
            Some(Err(error)) => Some(TermFault::InvalidPostings(error)),
            Some(Ok(posting)) => if posting.document_id >= document_count {
                Some(TermFault::UnknownDocumentId(posting.document_id))
            } else {
                scan_postings(next_state, (fuel - 1) as nat, document_count)
            },
        }
    }
}

/// Decodes the `count` postings in `postings` and reports the first that
/// fails to decode or names a document at or past `document_count`.
fn check_postings(postings: &[u8], count: usize, document_count: u32) -> (fault: Option<TermFault>)
    ensures
        fault == scan_postings(initial_state(postings@, count as nat), (count + 1) as nat, document_count),
{
    let mut decoder = PostingsDecoder::new(postings, count);
    let ghost initial = decoder.state();
    let ghost mut fuel: nat = (count + 1) as nat;
    loop
        invariant
            decoder.wf(),
            !decoder.state().finished,
            fuel == decoder.state().remaining_postings + 1,
            scan_postings(decoder.state(), fuel, document_count) == scan_postings(
                initial,
                (count + 1) as nat,
                document_count,
            ),
            initial == initial_state(postings@, count as nat),
        decreases decoder.state().remaining_postings,
    {
        match decoder.next() {
            None => return None,
            Some(Err(error)) => return Some(TermFault::InvalidPostings(error)),
            Some(Ok(posting)) => {
                if posting.document_id >= document_count {
                    return Some(TermFault::UnknownDocumentId(posting.document_id));
                }
                proof {
                    fuel = (fuel - 1) as nat;
                }
            },
        }
    }
}

/// Checking the term record at `start..end` of the segment `bytes`, whose
/// postings section is `postings`: on success, the term and where its
/// postings lie within the postings section.
pub open spec fn spec_validate_term_record(
    bytes: Seq<u8>,
    start: nat,
    end: nat,
    document_count: u32,
    postings: Seq<u8>,
) -> Result<(Seq<char>, (usize, usize)), ValidationFailure> {
    if start >= end {
        Err(ValidationFailure::Plain(SegmentValidationError::EmptyTermRecord))
    } else {
        let record = bytes.subrange(start as int, end as int);
        match varint::spec_decode(record) {
            Err(error) => Err(
                ValidationFailure::Plain(SegmentValidationError::InvalidTermLength(error)),
            ),
            Ok((term_length, length_size)) => if term_length == 0 {
                Err(ValidationFailure::Plain(SegmentValidationError::EmptyTerm))
            } else if start + length_size + term_length > usize::MAX {
                Err(ValidationFailure::Plain(SegmentValidationError::TermLengthOverflow))
            } else if length_size + term_length > record.len() {
                Err(ValidationFailure::Plain(SegmentValidationError::TruncatedTermBytes))
            } else {
                let term_end = length_size + term_length;
                let term_utf8 = record.subrange(length_size as int, term_end);
                if !valid_utf8(term_utf8) {
                    Err(ValidationFailure::Plain(SegmentValidationError::TermNotUtf8))
                } else {
                    let term = decode_utf8(term_utf8);
                    validate_record_tail(record, start, term_end as nat, term, document_count, postings)
                }
            },
        }
    }
}

/// The checks of a term record after its term bytes, which end at
/// `term_end` of `record`.
pub open spec fn validate_record_tail(
    record: Seq<u8>,
    start: nat,
    term_end: nat,
    term: Seq<char>,
    document_count: u32,
    postings: Seq<u8>,
) -> Result<(Seq<char>, (usize, usize)), ValidationFailure> {
    if !all_alphanumeric(term) {
        Err(ValidationFailure::Term(term, TermFault::NotAlphanumeric))
    } else {
        match varint::spec_decode(record.subrange(term_end as int, record.len() as int)) {
            Err(error) => Err(ValidationFailure::Term(term, TermFault::InvalidDocumentFrequency(error))),
            Ok((frequency, frequency_size)) => if frequency == 0 {
                Err(ValidationFailure::Term(term, TermFault::NoPostings))
            } else {
                let meta: int = (term_end + frequency_size) as int;
                if start + meta + 16 > usize::MAX {
                    Err(ValidationFailure::Plain(SegmentValidationError::PostingsMetadataOverflow))
                } else if meta + 16 > record.len() {
                    Err(ValidationFailure::Term(term, TermFault::TruncatedPostingsMetadata))
                } else if meta + 16 != record.len() {
                    Err(ValidationFailure::Term(term, TermFault::RecordNotFilled))
                } else {
                    let offset = spec_u64_from_le_bytes(record.subrange(meta, meta + 8));
                    let length = spec_u64_from_le_bytes(record.subrange(meta + 8, meta + 16));
                    if length == 0 {
                        Err(ValidationFailure::Term(term, TermFault::EmptyPostings))
                    } else if offset > usize::MAX {
                        Err(ValidationFailure::Plain(SegmentValidationError::PostingsOffsetTooLarge))
                    } else if length > usize::MAX {
                        Err(ValidationFailure::Plain(SegmentValidationError::PostingsLengthTooLarge))
                    } else if offset + length > usize::MAX {
                        Err(ValidationFailure::Term(term, TermFault::PostingsRangeOverflow))
                    } else if offset + length > postings.len() {
                        Err(ValidationFailure::Term(term, TermFault::PostingsRangeOutside))
                    } else {
                        match scan_postings(
                            initial_state(
                                postings.subrange(offset as int, offset + length),
                                frequency as nat,
                            ),
                            (frequency + 1) as nat,
                            document_count,
                        ) {
                            Some(fault) => Err(ValidationFailure::Term(term, fault)),
                            None => Ok((term, (offset as usize, (offset + length) as usize))),
                        }
                    }
                }
            },
        }
    }
}

/// A scan that finds nothing, run with one call more than the postings a
/// fresh decoder expects, has seen exactly those postings, each naming a
/// known document, and then the end of the list.
proof fn lemma_clean_scan(state: DecoderState, document_count: u32)
    requires
        !state.finished,
        scan_postings(state, state.remaining_postings + 1, document_count) is None,
    ensures
        exists|list: Seq<Posting>|
            list.len() == state.remaining_postings && (forall|i: int|
                0 <= i < list.len() ==> (#[trigger] list[i]).document_id < document_count)
                && postings::drain(state, state.remaining_postings + 1) == list.map_values(
                |posting: Posting| Some(Ok::<Posting, postings::DecodeError>(posting)),
            ).push(None),
    decreases state.remaining_postings,
{
    let wrap = |posting: Posting| Some(Ok::<Posting, postings::DecodeError>(posting));
    let (next_state, output) = spec_next(state);
    let count = state.remaining_postings;
    if count == 0 {
        let list = Seq::<Posting>::empty();
        reveal_with_fuel(postings::drain, 2);
        assert(postings::drain(state, 1) =~= list.map_values(wrap).push(None));
    } else {
        let posting = output->Some_0->Ok_0;
        assert(output == Some(Ok::<Posting, postings::DecodeError>(posting)));
        assert(next_state.remaining_postings == count - 1 && !next_state.finished);
        lemma_clean_scan(next_state, document_count);
        let rest = choose|list: Seq<Posting>|
            list.len() == next_state.remaining_postings && (forall|i: int|
                0 <= i < list.len() ==> (#[trigger] list[i]).document_id < document_count)
                && postings::drain(next_state, next_state.remaining_postings + 1) == list.map_values(
                wrap,
            ).push(None);
        let list = seq![posting] + rest;
        assert(postings::drain(state, count + 1) == seq![wrap(posting)] + postings::drain(
            next_state,
            count,
        ));
        assert(list.map_values(wrap).push(None) =~= seq![wrap(posting)] + rest.map_values(wrap).push(
            None,
        ));
        assert(forall|i: int| 0 <= i < list.len() ==> (#[trigger] list[i]).document_id < document_count)
            by {
            assert forall|i: int| 0 <= i < list.len() implies (#[trigger] list[i]).document_id
                < document_count by {
                if i > 0 {
                    assert(list[i] == rest[i - 1]);
                }
            }
        }
    }
}

/// A term record that passes the checks is laid out as the writer lays it
/// out: the term's length and bytes, a positive document frequency, and the
/// postings' offset and length in the postings section; the term is a
/// nonempty ASCII word, the postings range is nonempty and inside the
/// section, and a decoder over it yields as many postings as the frequency
/// says, each naming a known document, and then the end of the list.
pub proof fn lemma_validated_term_record(
    bytes: Seq<u8>,
    start: nat,
    end: nat,
    document_count: u32,
    postings: Seq<u8>,
)
    requires
        end <= bytes.len(),
    ensures
        spec_validate_term_record(bytes, start, end, document_count, postings) matches Ok(
            (term, (first, last)),
        ) ==> {
            &&& term.len() > 0
            &&& all_alphanumeric(term)
            &&& first < last <= postings.len()
            &&& exists|frequency: u32, list: Seq<Posting>|
                #![trigger varint::spec_encode(frequency), list.len()]
                {
                    &&& frequency > 0
                    &&& list.len() == frequency
                    &&& bytes.subrange(start as int, end as int) == varint::spec_encode(
                        term_bytes(term).len() as u32,
                    ) + term_bytes(term) + varint::spec_encode(frequency) + spec_u64_to_le_bytes(
                        first as u64,
                    ) + spec_u64_to_le_bytes((last - first) as u64)
                    &&& forall|i: int|
                        0 <= i < list.len() ==> (#[trigger] list[i]).document_id < document_count
                    &&& postings::drain(
                        initial_state(postings.subrange(first as int, last as int), frequency as nat),
                        (frequency + 1) as nat,
                    ) == list.map_values(|posting: Posting| Some(Ok::<Posting, postings::DecodeError>(posting))).push(
                        None,
                    )
                }
        },
{
    if let Ok((term, (first, last))) = spec_validate_term_record(
        bytes,
        start,
        end,
        document_count,
        postings,
    ) {
        let record = bytes.subrange(start as int, end as int);
        varint::lemma_decode_canonical(record);
        let (term_length, length_size) = varint::spec_decode(record)->Ok_0;
        let term_end = length_size + term_length;
        let term_utf8 = record.subrange(length_size as int, term_end as int);
        vstd::utf8::decode_utf8_encode_utf8(term_utf8);
        assert(term_bytes(term) == term_utf8);
        if term.len() == 0 {
            assert(term =~= Seq::<char>::empty());
            assert(vstd::utf8::encode_utf8(Seq::<char>::empty()) =~= Seq::<u8>::empty());
        }
        let tail = record.subrange(term_end as int, record.len() as int);
        varint::lemma_decode_canonical(tail);
        let (frequency, frequency_size) = varint::spec_decode(tail)->Ok_0;
        let meta: int = (term_end + frequency_size) as int;
        let offset_bytes = record.subrange(meta, meta + 8);
        let length_bytes = record.subrange(meta + 8, meta + 16);
        lemma_auto_spec_u64_to_from_le_bytes();
        let offset = spec_u64_from_le_bytes(offset_bytes);
        let length = spec_u64_from_le_bytes(length_bytes);
        assert(spec_u64_to_le_bytes(offset) == offset_bytes);
        assert(spec_u64_to_le_bytes(length) == length_bytes);
        assert(first == offset && last == offset + length);
        assert(record =~= varint::spec_encode(term_bytes(term).len() as u32) + term_bytes(term)
            + varint::spec_encode(frequency) + spec_u64_to_le_bytes(first as u64)
            + spec_u64_to_le_bytes((last - first) as u64));
        let state = initial_state(postings.subrange(first as int, last as int), frequency as nat);
        lemma_clean_scan(state, document_count);
        let list = choose|list: Seq<Posting>|
            list.len() == state.remaining_postings && (forall|i: int|
                0 <= i < list.len() ==> (#[trigger] list[i]).document_id < document_count)
                && postings::drain(state, state.remaining_postings + 1) == list.map_values(
                |posting: Posting| Some(Ok::<Posting, postings::DecodeError>(posting)),
            ).push(None);
        assert(list.len() == frequency);
    }
}

fn term_error(term: &str, fault: TermFault) -> (error: SegmentValidationError)
    ensures
        describes(error, ValidationFailure::Term(term@, fault)),
{
    SegmentValidationError::Term { term: term.to_owned(), fault }
}

/// Checks the term record at `start..end` of `bytes`: its term, document
/// frequency and postings range, and every posting it points to.
pub fn validate_term_record<'a>(
    bytes: &'a [u8],
    start: usize,
    end: usize,
    document_count: u32,
    postings: &[u8],
) -> (result: Result<(&'a str, (usize, usize)), SegmentValidationError>)
    requires
        end <= bytes@.len(),
    ensures
        match spec_validate_term_record(bytes@, start as nat, end as nat, document_count, postings@) {
            Ok((term, range)) => result matches Ok((text, found)) && text@ == term && found == range,
            Err(failure) => result matches Err(e) && describes(e, failure),
        },
{
    if start >= end {
        return Err(SegmentValidationError::EmptyTermRecord);
    }
    let record = &bytes[start..end];
    let (term_length, length_size) = match varint::decode(record) {
        Ok(decoded) => decoded,
        Err(error) => return Err(SegmentValidationError::InvalidTermLength(error)),
    };
    proof {
        varint::lemma_decode_canonical(record@);
    }
    if term_length == 0 {
        return Err(SegmentValidationError::EmptyTerm);
    }
    let term_start = start + length_size;
    let term_end = match term_start.checked_add(term_length as usize) {
        Some(term_end) => term_end,
        None => return Err(SegmentValidationError::TermLengthOverflow),
    };
    if term_end > end {
        return Err(SegmentValidationError::TruncatedTermBytes);
    }
    let term_slice = &bytes[term_start..term_end];
    assert(term_slice@ =~= record@.subrange(length_size as int, length_size + term_length));
    let term = match str_from_utf8(term_slice) {
        Some(term) => term,
        None => return Err(SegmentValidationError::TermNotUtf8),
    };
    proof {
        vstd::utf8::encode_utf8_decode_utf8(term@);
    }
    if !is_alphanumeric_text(term) {
        return Err(term_error(term, TermFault::NotAlphanumeric));
    }
    let tail = &bytes[term_end..end];
    assert(tail@ =~= record@.subrange((term_end - start) as int, record@.len() as int));
    let (frequency, frequency_size) = match varint::decode(tail) {
        Ok(decoded) => decoded,
        Err(error) => return Err(term_error(term, TermFault::InvalidDocumentFrequency(error))),
    };
    proof {
        varint::lemma_decode_canonical(tail@);
    }
    if frequency == 0 {
        return Err(term_error(term, TermFault::NoPostings));
    }
    let meta_start = term_end + frequency_size;
    let meta_end = match meta_start.checked_add(16) {
        Some(meta_end) => meta_end,
        None => return Err(SegmentValidationError::PostingsMetadataOverflow),
    };
    if meta_end > end {
        return Err(term_error(term, TermFault::TruncatedPostingsMetadata));
    }
    if meta_end != end {
        return Err(term_error(term, TermFault::RecordNotFilled));
    }
    let offset = read_u64_le(bytes, meta_start);
    let length = read_u64_le(bytes, meta_start + 8);
    proof {
        let meta = (meta_start - start) as int;
        assert(bytes@.subrange(meta_start as int, meta_start + 8) =~= record@.subrange(meta, meta + 8));
        assert(bytes@.subrange(meta_start + 8, meta_start + 16) =~= record@.subrange(
            meta + 8,
            meta + 16,
        ));
    }
    if length == 0 {
        return Err(term_error(term, TermFault::EmptyPostings));
    }
    if offset > usize::MAX as u64 {
        return Err(SegmentValidationError::PostingsOffsetTooLarge);
    }
    if length > usize::MAX as u64 {
        return Err(SegmentValidationError::PostingsLengthTooLarge);
    }
    let range_start = offset as usize;
    let range_end = match range_start.checked_add(length as usize) {
        Some(range_end) => range_end,
        None => return Err(term_error(term, TermFault::PostingsRangeOverflow)),
    };
    if range_end > postings.len() {
        return Err(term_error(term, TermFault::PostingsRangeOutside));
    }
    match check_postings(&postings[range_start..range_end], frequency as usize, document_count) {
        Some(fault) => Err(term_error(term, fault)),
        None => Ok((term, (range_start, range_end))),
    }
}

/// Where the record at position `k` of `offsets` ends: at the next record,
/// or at the postings section for the last one.
pub open spec fn record_end(offsets: Seq<usize>, k: int, postings_start: usize) -> usize {
    if k + 1 < offsets.len() {
        offsets[k + 1]
    } else {
        postings_start
    }
}

/// Checking the term records from position `k` of `offsets` on, after the
/// term `previous`: the postings range of each, or the first failure,
/// including a term that does not come strictly after the one before it.
pub open spec fn validate_terms_from(
    bytes: Seq<u8>,
    offsets: Seq<usize>,
    k: nat,
    postings_start: usize,
    document_count: u32,
    postings: Seq<u8>,
    previous: Option<Seq<char>>,
) -> Result<Seq<(usize, usize)>, ValidationFailure>
    decreases offsets.len() - k,
{
    if k >= offsets.len() {
        Ok(Seq::empty())
    } else {
        match spec_validate_term_record(
            bytes,
            offsets[k as int] as nat,
            record_end(offsets, k as int, postings_start) as nat,
            document_count,
            postings,
        ) {
            Err(failure) => Err(failure),
            Ok((term, range)) => if previous matches Some(before) && !lex_less(
                term_bytes(before),
                term_bytes(term),
            ) {
                Err(ValidationFailure::Plain(SegmentValidationError::TermsNotIncreasing))
            } else {
                match validate_terms_from(
                    bytes,
                    offsets,
                    k + 1,
                    postings_start,
                    document_count,
                    postings,
                    Some(term),
                ) {
                    Err(failure) => Err(failure),
                    Ok(ranges) => Ok(seq![range] + ranges),
                }
            },
        }
    }
}

/// `range` placed into `sorted` after every range that starts no later.
pub open spec fn insert_by_start(sorted: Seq<(usize, usize)>, range: (usize, usize)) -> Seq<
    (usize, usize),
>
    decreases sorted.len(),
{
    if sorted.len() == 0 {
        seq![range]
    } else if sorted.last().0 <= range.0 {
        sorted.push(range)
    } else {
        insert_by_start(sorted.drop_last(), range).push(sorted.last())
    }
}

/// The ranges in order of their starts, ranges with equal starts keeping
/// their order.
pub open spec fn sort_by_start(ranges: Seq<(usize, usize)>) -> Seq<(usize, usize)>
    decreases ranges.len(),
{
    if ranges.len() == 0 {
        Seq::empty()
    } else {
        insert_by_start(sort_by_start(ranges.drop_last()), ranges.last())
    }
}

/// Whether the ranges are in order of their starts.
pub open spec fn ordered_by_start(ranges: Seq<(usize, usize)>) -> bool {
    forall|a: int, b: int| 0 <= a < b < ranges.len() ==> ranges[a].0 <= ranges[b].0
}

proof fn lemma_insert_by_start(sorted: Seq<(usize, usize)>, range: (usize, usize), j: int)
    requires
        ordered_by_start(sorted),
        0 <= j <= sorted.len(),
        forall|k: int| 0 <= k < j ==> #[trigger] sorted[k].0 <= range.0,
        forall|k: int| j <= k < sorted.len() ==> #[trigger] sorted[k].0 > range.0,
    ensures
        insert_by_start(sorted, range) == sorted.insert(j, range),
        ordered_by_start(sorted.insert(j, range)),
    decreases sorted.len(),
{
    if sorted.len() == 0 {
        assert(sorted.insert(j, range) =~= seq![range]);
    } else if sorted.last().0 <= range.0 {
        assert(j == sorted.len());
        assert(sorted.insert(j, range) =~= sorted.push(range));
    } else {
        let shorter = sorted.drop_last();
        lemma_insert_by_start(shorter, range, j);
        assert(sorted.insert(j, range) =~= shorter.insert(j, range).push(sorted.last()));
    }
}

/// Sorts the ranges by their starts, keeping ranges with equal starts in
/// their order.
fn sort_ranges(ranges: &Vec<(usize, usize)>) -> (sorted: Vec<(usize, usize)>)
    ensures
        sorted@ == sort_by_start(ranges@),
{
    let mut sorted: Vec<(usize, usize)> = Vec::new();
    let mut i: usize = 0;
    while i < ranges.len()
        invariant
            i <= ranges@.len(),
            sorted@ == sort_by_start(ranges@.subrange(0, i as int)),
            ordered_by_start(sorted@),
        decreases ranges@.len() - i,
    {
        let range = ranges[i];
        let mut j = sorted.len();
        while j > 0 && sorted[j - 1].0 > range.0
            invariant
                j <= sorted@.len(),
                ordered_by_start(sorted@),
                forall|k: int| j <= k < sorted@.len() ==> #[trigger] sorted@[k].0 > range.0,
            decreases j,
        {
            j = j - 1;
        }
        proof {
            assert forall|k: int| 0 <= k < j implies #[trigger] sorted@[k].0 <= range.0 by {
                assert(sorted@[k].0 <= sorted@[j - 1].0);
            }
            lemma_insert_by_start(sorted@, range, j as int);
            assert(ranges@.subrange(0, i + 1).drop_last() =~= ranges@.subrange(0, i as int));
        }
        sorted.insert(j, range);
        i = i + 1;
    }
    assert(ranges@.subrange(0, i as int) =~= ranges@);
    sorted
}

/// Checking that the sorted ranges from position `k` on continue exactly
/// from `expected` and end at `total`.
pub open spec fn coverage_from(sorted: Seq<(usize, usize)>, k: nat, expected: nat, total: nat) -> Result<
    (),
    ValidationFailure,
>
    decreases sorted.len() - k,
{
    if k >= sorted.len() {
        if expected != total {
            Err(ValidationFailure::Plain(SegmentValidationError::PostingsNotCovered))
        } else {
            Ok(())
        }
    } else if sorted[k as int].0 != expected {
        Err(ValidationFailure::Plain(SegmentValidationError::PostingsNotContiguous))
    } else if sorted[k as int].1 <= sorted[k as int].0 {
        Err(ValidationFailure::Plain(SegmentValidationError::EmptyPostingsRange))
    } else {
        coverage_from(sorted, k + 1, sorted[k as int].1 as nat, total)
    }
}

/// Checking every term record listed in `offsets`, that the terms strictly
/// increase, and that their postings ranges, in order of their starts, cover
/// the postings section exactly.
pub open spec fn spec_validate_terms_and_postings(
    bytes: Seq<u8>,
    offsets: Seq<usize>,
    postings_start: usize,
    document_count: u32,
    postings: Seq<u8>,
) -> Result<(), ValidationFailure> {
    match validate_terms_from(bytes, offsets, 0, postings_start, document_count, postings, None) {
        Err(failure) => Err(failure),
        Ok(ranges) => coverage_from(sort_by_start(ranges), 0, 0, postings.len()),
    }
}

/// Checks every term record listed in `term_offsets`, that the terms
/// strictly increase, and that the postings ranges tile the postings
/// section.
#[verifier::loop_isolation(false)]
pub fn validate_terms_and_postings(
    bytes: &[u8],
    term_offsets: &[usize],
    postings_start: usize,
    document_count: u32,
    postings: &[u8],
) -> (result: Result<(), SegmentValidationError>)
    requires
        postings_start <= bytes@.len(),
        forall|k: int| 0 <= k < term_offsets@.len() ==> #[trigger] term_offsets@[k] <= postings_start,
    ensures
        match spec_validate_terms_and_postings(
            bytes@,
            term_offsets@,
            postings_start,
            document_count,
            postings@,
        ) {
            Ok(()) => result is Ok,
            Err(failure) => result matches Err(e) && describes(e, failure),
        },
{
    let ghost whole = validate_terms_from(
        bytes@,
        term_offsets@,
        0,
        postings_start,
        document_count,
        postings@,
        None,
    );
    let mut previous_term: Option<&str> = None;
    let mut posting_ranges: Vec<(usize, usize)> = Vec::new();
    let mut index: usize = 0;
    while index < term_offsets.len()
        invariant
            index <= term_offsets@.len(),
            whole == match validate_terms_from(
                bytes@,
                term_offsets@,
                index as nat,
                postings_start,
                document_count,
                postings@,
                match previous_term {
                    Some(term) => Some(term@),
                    None => None,
                },
            ) {
                Err(failure) => Err(failure),
                Ok(rest) => Ok(posting_ranges@ + rest),
            },
        decreases term_offsets@.len() - index,
    {
        let term_start = term_offsets[index];
        let term_end = if index + 1 < term_offsets.len() {
            term_offsets[index + 1]
        } else {
            postings_start
        };
        let (term, range) = match validate_term_record(
            bytes,
            term_start,
            term_end,
            document_count,
            postings,
        ) {
            Ok(checked) => checked,
            Err(error) => return Err(error),
        };
        match previous_term {
            Some(before) => {
                let order = compare_bytes(before.as_bytes(), term.as_bytes());
                proof {
                    crate::bytes_order::lemma_lex_order(
                        term_bytes(before@),
                        term_bytes(term@),
                        term_bytes(term@),
                    );
                }
                match order {
                    Comparison::Less => {},
                    _ => return Err(SegmentValidationError::TermsNotIncreasing),
                }
            },
            None => {},
        }
        let ghost before_push = posting_ranges@;
        posting_ranges.push(range);
        proof {
            let rest = validate_terms_from(
                bytes@,
                term_offsets@,
                (index + 1) as nat,
                postings_start,
                document_count,
                postings@,
                Some(term@),
            );
            if rest is Ok {
                assert(before_push + (seq![range] + rest->Ok_0) =~= posting_ranges@ + rest->Ok_0);
            }
        }
        previous_term = Some(term);
        index = index + 1;
    }
    assert(posting_ranges@ + Seq::<(usize, usize)>::empty() =~= posting_ranges@);
    let sorted = sort_ranges(&posting_ranges);
    let mut expected: usize = 0;
    let mut k: usize = 0;
    while k < sorted.len()
        invariant
            k <= sorted@.len(),
            coverage_from(sorted@, 0, 0, postings@.len()) == coverage_from(
                sorted@,
                k as nat,
                expected as nat,
                postings@.len(),
            ),
        decreases sorted@.len() - k,
    {
        let (start, end) = sorted[k];
        if start != expected {
            return Err(SegmentValidationError::PostingsNotContiguous);
        }
        if end <= start {
            return Err(SegmentValidationError::EmptyPostingsRange);
        }
        expected = end;
        k = k + 1;
    }
    if expected != postings.len() {
        return Err(SegmentValidationError::PostingsNotCovered);
    }
    Ok(())
}

/// Entry `k` of a term-offset table.
pub open spec fn table_entry(table: Seq<u8>, k: int) -> u64 {
    spec_u64_from_le_bytes(table.subrange(TERM_OFFSET_LENGTH * k, TERM_OFFSET_LENGTH * k + 8))
}

/// The problem with entry `k` of a term-offset table, if any: it must fit a
/// `usize`, point into the term-record section `records_start..postings_start`,
/// and exceed the entry before it.
pub open spec fn offset_problem(table: Seq<u8>, k: int, records_start: usize, postings_start: usize) -> Option<
    SegmentValidationError,
> {
    let offset = table_entry(table, k);
    if offset > usize::MAX {
        Some(SegmentValidationError::TermRecordOffsetTooLarge)
    } else if offset < records_start || offset >= postings_start {
        Some(SegmentValidationError::TermRecordOffsetOutside)
    } else if k > 0 && offset <= table_entry(table, k - 1) {
        Some(SegmentValidationError::TermRecordOffsetsNotIncreasing)
    } else {
        None
    }
}

/// The first entry, from `k` on, with a problem.
pub open spec fn first_offset_problem(
    table: Seq<u8>,
    k: nat,
    count: nat,
    records_start: usize,
    postings_start: usize,
) -> Option<SegmentValidationError>
    decreases count - k,
{
    if k >= count {
        None
    } else {
        match offset_problem(table, k as int, records_start, postings_start) {
            Some(problem) => Some(problem),
            None => first_offset_problem(table, k + 1, count, records_start, postings_start),
        }
    }
}

/// Reading the `count` entries of a term-offset table: the offsets, or the
/// first problem, including a first record that does not start the section.
pub open spec fn spec_read_term_offsets(
    table: Seq<u8>,
    count: nat,
    records_start: usize,
    postings_start: usize,
) -> Result<Seq<usize>, SegmentValidationError> {
    match first_offset_problem(table, 0, count, records_start, postings_start) {
        Some(problem) => Err(problem),
        None => if table_entry(table, 0) != records_start {
            Err(SegmentValidationError::FirstTermRecordMisplaced)
        } else {
            Ok(Seq::new(count, |k: int| table_entry(table, k) as usize))
        },
    }
}

/// Reads the term-offset table and checks that the offsets strictly
/// increase within the term-record section, the first at its start.
pub fn read_term_offsets(
    table: &[u8],
    term_count: usize,
    records_start: usize,
    postings_start: usize,
) -> (result: Result<Vec<usize>, SegmentValidationError>)
    requires
        table@.len() == TERM_OFFSET_LENGTH * term_count,
        term_count > 0,
    ensures
        match spec_read_term_offsets(table@, term_count as nat, records_start, postings_start) {
            Ok(expected) => result matches Ok(offsets) && offsets@ == expected,
            Err(error) => result == Err::<Vec<usize>, SegmentValidationError>(error),
        },
        result matches Ok(offsets) ==> forall|k: int|
            0 <= k < offsets@.len() ==> records_start <= #[trigger] offsets@[k] < postings_start,
{
    let mut offsets: Vec<usize> = Vec::new();
    let mut index: usize = 0;
    let ghost count = term_count as nat;
    while index < table.len()
        invariant
            count == term_count,
            table@.len() == TERM_OFFSET_LENGTH * count,
            index == TERM_OFFSET_LENGTH * offsets@.len(),
            offsets@.len() <= count,
            first_offset_problem(table@, 0, count, records_start, postings_start)
                == first_offset_problem(
                table@,
                offsets@.len(),
                count,
                records_start,
                postings_start,
            ),
            forall|k: int|
                0 <= k < offsets@.len() ==> #[trigger] offsets@[k] == table_entry(table@, k)
                    && records_start <= offsets@[k] < postings_start,
        decreases table@.len() - index,
    {
        let ghost k = offsets@.len() as int;
        let value = read_u64_le(table, index);
        assert(value == table_entry(table@, k));
        assert(k < count);
        assert(first_offset_problem(table@, k as nat, count, records_start, postings_start)
            == match offset_problem(table@, k, records_start, postings_start) {
            Some(problem) => Some(problem),
            None => first_offset_problem(table@, (k + 1) as nat, count, records_start, postings_start),
        });
        if value > usize::MAX as u64 {
            return Err(SegmentValidationError::TermRecordOffsetTooLarge);
        }
        let offset = value as usize;
        if offset < records_start || offset >= postings_start {
            return Err(SegmentValidationError::TermRecordOffsetOutside);
        }
        if offsets.len() > 0 {
            let previous = offsets[offsets.len() - 1];
            if offset <= previous {
                return Err(SegmentValidationError::TermRecordOffsetsNotIncreasing);
            }
        }
        offsets.push(offset);
        index = index + TERM_OFFSET_LENGTH;
    }
    if offsets[0] != records_start {
        return Err(SegmentValidationError::FirstTermRecordMisplaced);
    }
    assert(offsets@ =~= Seq::new(count, |k: int| table_entry(table@, k) as usize));
    Ok(offsets)
}

/// Checking the segment header: magic and version, then the document count,
/// term count and postings offset.
pub open spec fn spec_validate_header(input: Seq<u8>) -> Result<(u32, u32, u64), SegmentValidationError> {
    if input.len() < HEADER_LENGTH {
        Err(SegmentValidationError::TruncatedHeader)
    } else if input.subrange(0, 8) != spec_magic(FileType::Segment) {
        Err(SegmentValidationError::InvalidMagic)
    } else if spec_u16_from_le_bytes(input.subrange(8, 10)) != FORMAT_VERSION {
        Err(SegmentValidationError::InvalidFormatVersion)
    } else {
        Ok(
            (
                spec_u32_from_le_bytes(input.subrange(10, 14)),
                spec_u32_from_le_bytes(input.subrange(14, 18)),
                spec_u64_from_le_bytes(input.subrange(18, 26)),
            ),
        )
    }
}

/// Checks the segment header and returns its document count, term count
/// and postings offset.
pub fn validate_header(input: &[u8]) -> (result: Result<(u32, u32, u64), SegmentValidationError>)
    ensures
        result == spec_validate_header(input@),
{
    if input.len() < HEADER_LENGTH {
        return Err(SegmentValidationError::TruncatedHeader);
    }
    let magic = FileType::Segment.magic();
    let mut i: usize = 0;
    while i < 8
        invariant
            i <= 8,
            input@.len() >= HEADER_LENGTH,
            magic@ == spec_magic(FileType::Segment),
            forall|k: int| 0 <= k < i ==> input@[k] == magic@[k],
        decreases 8 - i,
    {
        if input[i] != magic[i] {
            assert(input@.subrange(0, 8)[i as int] != spec_magic(FileType::Segment)[i as int]);
            return Err(SegmentValidationError::InvalidMagic);
        }
        i = i + 1;
    }
    assert(input@.subrange(0, 8) =~= spec_magic(FileType::Segment));
    if read_u16_le(input, 8) != FORMAT_VERSION {
        return Err(SegmentValidationError::InvalidFormatVersion);
    }
    Ok((read_u32_le(input, 10), read_u32_le(input, 14), read_u64_le(input, 18)))
}

/// Checks that the last four bytes hold the checksum of the rest.
pub fn validate_checksum(bytes: &[u8]) -> (result: Result<(), SegmentValidationError>)
    requires
        bytes@.len() >= CHECKSUM_LENGTH,
    ensures
        result is Ok <==> spec_u32_from_le_bytes(
            bytes@.subrange(bytes@.len() - CHECKSUM_LENGTH, bytes@.len() as int),
        ) == crc32(bytes@.subrange(0, bytes@.len() - CHECKSUM_LENGTH)),
        result matches Err(e) ==> e == SegmentValidationError::ChecksumMismatch,
{
    let checksum_start = bytes.len() - CHECKSUM_LENGTH;
    let stored = read_u32_le(bytes, checksum_start);
    let computed = checksum(&bytes[0..checksum_start]);
    if stored != computed {
        return Err(SegmentValidationError::ChecksumMismatch);
    }
    Ok(())
}

/// Checking a whole segment: the layout of its sections when every check
/// passes, otherwise the first failure.
pub open spec fn spec_validate_segment(bytes: Seq<u8>) -> Result<SegmentLayout, ValidationFailure> {
    if bytes.len() < HEADER_LENGTH + CHECKSUM_LENGTH {
        Err(ValidationFailure::Plain(SegmentValidationError::TooSmall))
    } else {
        let checksum_start = bytes.len() - CHECKSUM_LENGTH;
        if spec_u32_from_le_bytes(bytes.subrange(checksum_start, bytes.len() as int)) != crc32(
            bytes.subrange(0, checksum_start),
        ) {
            Err(ValidationFailure::Plain(SegmentValidationError::ChecksumMismatch))
        } else {
            match spec_validate_header(bytes.subrange(0, HEADER_LENGTH as int)) {
                Err(error) => Err(ValidationFailure::Plain(error)),
                Ok((document_count, term_count, postings_offset)) => validate_sections(
                    bytes,
                    document_count,
                    term_count,
                    postings_offset,
                ),
            }
        }
    }
}

/// The checks of a segment after its header.
pub open spec fn validate_sections(
    bytes: Seq<u8>,
    document_count: u32,
    term_count: u32,
    postings_offset: u64,
) -> Result<SegmentLayout, ValidationFailure> {
    let checksum_start = bytes.len() - CHECKSUM_LENGTH;
    let records_start = HEADER_LENGTH + TERM_OFFSET_LENGTH * term_count;
    if postings_offset > usize::MAX {
        Err(ValidationFailure::Plain(SegmentValidationError::PostingsOffsetTooLarge))
    } else if postings_offset > checksum_start {
        Err(ValidationFailure::Plain(SegmentValidationError::PostingsOffsetPastChecksum))
    } else if TERM_OFFSET_LENGTH * term_count > usize::MAX {
        Err(ValidationFailure::Plain(SegmentValidationError::TermOffsetTableOverflow))
    } else if records_start > usize::MAX {
        Err(ValidationFailure::Plain(SegmentValidationError::TermRecordSectionOverflow))
    } else if records_start > postings_offset {
        Err(ValidationFailure::Plain(SegmentValidationError::TermRecordsOverlapPostings))
    } else if term_count == 0 {
        if postings_offset != HEADER_LENGTH {
            Err(ValidationFailure::Plain(SegmentValidationError::EmptySegmentPostingsMisplaced))
        } else if checksum_start != HEADER_LENGTH {
            Err(ValidationFailure::Plain(SegmentValidationError::EmptySegmentPayload))
        } else {
            let empty = ByteRange { start: HEADER_LENGTH, end: HEADER_LENGTH };
            Ok(
                SegmentLayout {
                    document_count,
                    term_count,
                    term_offset_table: empty,
                    term_records: empty,
                    postings: empty,
                },
            )
        }
    } else {
        match spec_read_term_offsets(
            bytes.subrange(HEADER_LENGTH as int, records_start),
            term_count as nat,
            records_start as usize,
            postings_offset as usize,
        ) {
            Err(error) => Err(ValidationFailure::Plain(error)),
            Ok(offsets) => match spec_validate_terms_and_postings(
                bytes,
                offsets,
                postings_offset as usize,
                document_count,
                bytes.subrange(postings_offset as int, checksum_start),
            ) {
                Err(failure) => Err(failure),
                Ok(()) => Ok(
                    SegmentLayout {
                        document_count,
                        term_count,
                        term_offset_table: ByteRange {
                            start: HEADER_LENGTH,
                            end: records_start as usize,
                        },
                        term_records: ByteRange {
                            start: records_start as usize,
                            end: postings_offset as usize,
                        },
                        postings: ByteRange {
                            start: postings_offset as usize,
                            end: checksum_start as usize,
                        },
                    },
                ),
            },
        }
    }
}

/// Checks a whole segment: its size, checksum and header, the term-offset
/// table, every term record and postings list, and that the postings lists
/// tile the postings section. Returns where the sections lie.
pub fn validate_segment(bytes: &[u8]) -> (result: Result<SegmentLayout, SegmentValidationError>)
    ensures
        match spec_validate_segment(bytes@) {
            Ok(layout) => result == Ok::<SegmentLayout, SegmentValidationError>(layout),
            Err(failure) => result matches Err(e) && describes(e, failure),
        },
{
    if bytes.len() < HEADER_LENGTH + CHECKSUM_LENGTH {
        return Err(SegmentValidationError::TooSmall);
    }
    match validate_checksum(bytes) {
        Ok(()) => {},
        Err(error) => return Err(error),
    }
    let (document_count, term_count, postings_offset) = match validate_header(
        &bytes[0..HEADER_LENGTH],
    ) {
        Ok(header) => header,
        Err(error) => return Err(error),
    };
    if postings_offset > usize::MAX as u64 {
        return Err(SegmentValidationError::PostingsOffsetTooLarge);
    }
    let postings_start = postings_offset as usize;
    let checksum_start = bytes.len() - CHECKSUM_LENGTH;
    if postings_start > checksum_start {
        return Err(SegmentValidationError::PostingsOffsetPastChecksum);
    }
    let term_count_usize = term_count as usize;
    let table_length = match term_count_usize.checked_mul(TERM_OFFSET_LENGTH) {
        Some(length) => length,
        None => return Err(SegmentValidationError::TermOffsetTableOverflow),
    };
    let records_start = match HEADER_LENGTH.checked_add(table_length) {
        Some(start) => start,
        None => return Err(SegmentValidationError::TermRecordSectionOverflow),
    };
    if records_start > postings_start {
        return Err(SegmentValidationError::TermRecordsOverlapPostings);
    }
    if term_count == 0 {
        if postings_start != HEADER_LENGTH {
            return Err(SegmentValidationError::EmptySegmentPostingsMisplaced);
        }
        if checksum_start != HEADER_LENGTH {
            return Err(SegmentValidationError::EmptySegmentPayload);
        }
        let empty = ByteRange { start: HEADER_LENGTH, end: HEADER_LENGTH };
        return Ok(
            SegmentLayout {
                document_count,
                term_count,
                term_offset_table: empty,
                term_records: empty,
                postings: empty,
            },
        );
    }
    let offsets = match read_term_offsets(
        &bytes[HEADER_LENGTH..records_start],
        term_count_usize,
        records_start,
        postings_start,
    ) {
        Ok(offsets) => offsets,
        Err(error) => return Err(error),
    };
    let postings = &bytes[postings_start..checksum_start];
    match validate_terms_and_postings(
        bytes,
        offsets.as_slice(),
        postings_start,
        document_count,
        postings,
    ) {
        Ok(()) => {},
        Err(error) => return Err(error),
    }
    Ok(
        SegmentLayout {
            document_count,
            term_count,
            term_offset_table: ByteRange { start: HEADER_LENGTH, end: records_start },
            term_records: ByteRange { start: records_start, end: postings_start },
            postings: ByteRange { start: postings_start, end: checksum_start },
        },
    )
}

/// A segment that passes validation also opens for lazy reading, with the
/// same layout and its stored checksum.
pub proof fn lemma_validated_segment_opens(bytes: Seq<u8>)
    requires
        spec_validate_segment(bytes) is Ok,
    ensures
        spec_open(bytes) == Ok::<(SegmentLayout, u32), SegmentFailure>(
            (
                spec_validate_segment(bytes)->Ok_0,
                spec_u32_from_le_bytes(
                    bytes.subrange(bytes.len() - CHECKSUM_LENGTH, bytes.len() as int),
                ),
            ),
        ),
{
    let payload = bytes.subrange(0, bytes.len() - CHECKSUM_LENGTH);
    let header = bytes.subrange(0, HEADER_LENGTH as int);
    assert(payload.subrange(0, 8) =~= header.subrange(0, 8));
    assert(payload.subrange(8, 10) =~= header.subrange(8, 10));
    assert(payload.subrange(10, 14) =~= header.subrange(10, 14));
    assert(payload.subrange(14, 18) =~= header.subrange(14, 18));
    assert(payload.subrange(18, 26) =~= header.subrange(18, 26));
}

/// A term record read from a prefix of the segment that holds it, against a
/// prefix of the postings section, passes only as it passes on the whole.
proof fn lemma_term_record_prefix(
    bytes: Seq<u8>,
    shorter: Seq<u8>,
    start: nat,
    end: nat,
    document_count: u32,
    postings: Seq<u8>,
    fewer: Seq<u8>,
)
    requires
        end <= shorter.len() <= bytes.len(),
        shorter == bytes.subrange(0, shorter.len() as int),
        fewer.len() <= postings.len(),
        fewer == postings.subrange(0, fewer.len() as int),
    ensures
        spec_validate_term_record(shorter, start, end, document_count, fewer) is Ok
            ==> spec_validate_term_record(shorter, start, end, document_count, fewer)
            == spec_validate_term_record(bytes, start, end, document_count, postings),
{
    if start < end {
        assert(shorter.subrange(start as int, end as int) =~= bytes.subrange(start as int, end as int));
        assert forall|from: int, to: int| 0 <= from <= to <= fewer.len() implies #[trigger] fewer.subrange(
            from,
            to,
        ) == postings.subrange(from, to) by {
            assert(fewer.subrange(from, to) =~= postings.subrange(from, to));
        }
    }
}

/// The term records listed in `offsets`, read from a prefix of the segment
/// that holds them all, against a prefix of the postings section, pass only
/// as they pass on the whole, with the same postings ranges.
proof fn lemma_terms_prefix(
    bytes: Seq<u8>,
    shorter: Seq<u8>,
    offsets: Seq<usize>,
    k: nat,
    postings_start: usize,
    document_count: u32,
    postings: Seq<u8>,
    fewer: Seq<u8>,
    previous: Option<Seq<char>>,
)
    requires
        postings_start <= shorter.len() <= bytes.len(),
        shorter == bytes.subrange(0, shorter.len() as int),
        forall|i: int| 0 <= i < offsets.len() ==> #[trigger] offsets[i] <= postings_start,
        fewer.len() <= postings.len(),
        fewer == postings.subrange(0, fewer.len() as int),
    ensures
        validate_terms_from(shorter, offsets, k, postings_start, document_count, fewer, previous)
            is Ok ==> validate_terms_from(
            shorter,
            offsets,
            k,
            postings_start,
            document_count,
            fewer,
            previous,
        ) == validate_terms_from(bytes, offsets, k, postings_start, document_count, postings, previous),
    decreases offsets.len() - k,
{
    if k < offsets.len() {
        let end = record_end(offsets, k as int, postings_start);
        lemma_term_record_prefix(
            bytes,
            shorter,
            offsets[k as int] as nat,
            end as nat,
            document_count,
            postings,
            fewer,
        );
        if let Ok((term, _)) = spec_validate_term_record(
            shorter,
            offsets[k as int] as nat,
            end as nat,
            document_count,
            fewer,
        ) {
            lemma_terms_prefix(
                bytes,
                shorter,
                offsets,
                k + 1,
                postings_start,
                document_count,
                postings,
                fewer,
                Some(term),
            );
        }
    }
}

/// Ranges that tile a section tile no section of another length.
proof fn lemma_coverage_total(sorted: Seq<(usize, usize)>, k: nat, expected: nat, total: nat, other: nat)
    requires
        coverage_from(sorted, k, expected, total) is Ok,
        coverage_from(sorted, k, expected, other) is Ok,
    ensures
        total == other,
    decreases sorted.len() - k,
{
    if k < sorted.len() {
        lemma_coverage_total(sorted, k + 1, sorted[k as int].1 as nat, total, other);
    }
}

/// Every offset that the table check accepts lies before the postings.
proof fn lemma_offsets_before_postings(
    table: Seq<u8>,
    k: nat,
    count: nat,
    records_start: usize,
    postings_start: usize,
)
    requires
        first_offset_problem(table, k, count, records_start, postings_start) is None,
    ensures
        forall|i: int| k <= i < count ==> table_entry(table, i) < postings_start,
    decreases count - k,
{
    if k < count {
        lemma_offsets_before_postings(table, k + 1, count, records_start, postings_start);
        assert(offset_problem(table, k as int, records_start, postings_start) is None);
    }
}

/// No proper prefix of a segment that passes the checks passes them: a
/// truncated segment is always rejected, whatever its last four bytes hold.
pub proof fn lemma_truncated_segment_rejected(bytes: Seq<u8>, length: nat)
    requires
        spec_validate_segment(bytes) is Ok,
        length < bytes.len(),
    ensures
        spec_validate_segment(bytes.subrange(0, length as int)) is Err,
{
    let shorter = bytes.subrange(0, length as int);
    if length >= HEADER_LENGTH + CHECKSUM_LENGTH {
        let checksum_start = bytes.len() - CHECKSUM_LENGTH;
        let short_checksum_start = length - CHECKSUM_LENGTH;
        assert(shorter.subrange(0, HEADER_LENGTH as int) =~= bytes.subrange(0, HEADER_LENGTH as int));
        if spec_u32_from_le_bytes(shorter.subrange(short_checksum_start, length as int)) == crc32(
            shorter.subrange(0, short_checksum_start),
        ) {
            let (document_count, term_count, postings_offset) = spec_validate_header(
                bytes.subrange(0, HEADER_LENGTH as int),
            )->Ok_0;
            let records_start = HEADER_LENGTH + TERM_OFFSET_LENGTH * term_count;
            if term_count > 0 && postings_offset <= short_checksum_start {
                let table = bytes.subrange(HEADER_LENGTH as int, records_start);
                assert(shorter.subrange(HEADER_LENGTH as int, records_start) =~= table);
                let offsets = spec_read_term_offsets(
                    table,
                    term_count as nat,
                    records_start as usize,
                    postings_offset as usize,
                )->Ok_0;
                lemma_offsets_before_postings(
                    table,
                    0,
                    term_count as nat,
                    records_start as usize,
                    postings_offset as usize,
                );
                let postings = bytes.subrange(postings_offset as int, checksum_start);
                let fewer = shorter.subrange(postings_offset as int, short_checksum_start);
                assert(fewer =~= postings.subrange(0, fewer.len() as int));
                lemma_terms_prefix(
                    bytes,
                    shorter,
                    offsets,
                    0,
                    postings_offset as usize,
                    document_count,
                    postings,
                    fewer,
                    None,
                );
                if let Ok(ranges) = validate_terms_from(
                    shorter,
                    offsets,
                    0,
                    postings_offset as usize,
                    document_count,
                    fewer,
                    None,
                ) {
                    if coverage_from(sort_by_start(ranges), 0, 0, fewer.len()) is Ok {
                        lemma_coverage_total(
                            sort_by_start(ranges),
                            0,
                            0,
                            postings.len(),
                            fewer.len(),
                        );
                    }
                }
            }
        }
    }
}

} // verus!
