//! Reading a segment lazily: opening checks only the framing and the header
//! layout; term records and postings are parsed and checked when a lookup
//! reaches them.

use crate::binary_file::{
    field_error_message, file_error_message, check_file, read_problem, spec_check_file, varint_problem, Decoder, ErrorKind, FieldError,
    FieldProblem, FileError, FileType, CHECKSUM_LENGTH,
};
use crate::postings::{initial_state, DecoderState, PostingsDecoder};
use crate::segment_codec::{HEADER_LENGTH, TERM_OFFSET_LENGTH};
use crate::text::{join3, str_from_utf8};
use crate::varint;
use crate::segment_validation::{
    describes as validation_describes, lemma_validated_segment_opens, spec_validate_segment,
    validate_segment, SegmentValidationError,
};
use crate::wire::{read_u32_le, read_u64_le};
use vstd::bytes::*;
use vstd::prelude::*;
use vstd::string::StringSliceAdditionalSpecFns;
use vstd::utf8::{decode_utf8, valid_utf8};

verus! {

/// A half-open range of byte positions.
#[derive(Debug, Clone, Copy, PartialEq, Eq, Structural)]
pub struct ByteRange {
    pub start: usize,
    pub end: usize,
}

/// Where the sections of a segment lie, and its counts.
#[derive(Debug, Clone, Copy, PartialEq, Eq, Structural)]
pub struct SegmentLayout {
    pub document_count: u32,
    pub term_count: u32,
    pub term_offset_table: ByteRange,
    pub term_records: ByteRange,
    pub postings: ByteRange,
}

/// Why a segment, or a part of it, could not be read.
#[derive(Debug, PartialEq, Eq)]
pub enum SegmentReadError {
    File(FileError),
    Field(FieldError),
    PostingsOffsetTooLarge,
    PostingsOffsetPastChecksum,
    TermOffsetTableOverflow,
    TermRecordSectionOverflow,
    TermRecordsOverlapPostings,
    TermIndexOutOfRange,
    TermRecordOffsetTooLarge,
    TermRecordRangeInvalid,
    EmptyTermRecord,
    EmptyTerm,
    TermNotUtf8,
    TermNotAlphanumeric(String),
    NoPostings(String),
    RecordNotFilled(String),
    EmptyPostings(String),
    PostingsLengthTooLarge,
    PostingsRangeOverflow(String),
    PostingsRangeOutside,
}

impl SegmentReadError {
    /// The class of the error.
    pub fn kind(&self) -> (kind: ErrorKind)
        ensures
            kind == (match self {
                SegmentReadError::File(FileError::TooSmall(_)) => ErrorKind::UnexpectedEof,
                SegmentReadError::Field(e) => if e.problem == FieldProblem::Truncated {
                    ErrorKind::UnexpectedEof
                } else {
                    ErrorKind::InvalidData
                },
                SegmentReadError::TermIndexOutOfRange => ErrorKind::InvalidInput,
                _ => ErrorKind::InvalidData,
            }),
    {
        match self {
            SegmentReadError::File(error) => error.kind(),
            SegmentReadError::Field(error) => error.kind(),
            SegmentReadError::TermIndexOutOfRange => ErrorKind::InvalidInput,
            _ => ErrorKind::InvalidData,
        }
    }
}

/// `prefix`, the term in quotes, then `suffix`.
pub open spec fn quoted_term(prefix: Seq<char>, term: Seq<char>, suffix: Seq<char>) -> Seq<char> {
    prefix + "'"@ + term + "'"@ + suffix
}

/// The message of a segment reading error.
pub open spec fn read_error_message(error: SegmentReadError) -> Seq<char> {
    match error {
        SegmentReadError::File(e) => file_error_message(e),
        SegmentReadError::Field(e) => field_error_message(e.problem, e.field@),
        SegmentReadError::PostingsOffsetTooLarge => "postings offset exceeds addressable memory"@,
        SegmentReadError::PostingsOffsetPastChecksum => "postings offset is past the checksum"@,
        SegmentReadError::TermOffsetTableOverflow => "term-offset table length overflow"@,
        SegmentReadError::TermRecordSectionOverflow => "term-record section overflow"@,
        SegmentReadError::TermRecordsOverlapPostings => "term records overlap the postings section"@,
        SegmentReadError::TermIndexOutOfRange => "term index out of range"@,
        SegmentReadError::TermRecordOffsetTooLarge => "term-record offset exceeds addressable memory"@,
        SegmentReadError::TermRecordRangeInvalid => "term-record range is invalid"@,
        SegmentReadError::EmptyTermRecord => "empty term record"@,
        SegmentReadError::EmptyTerm => "empty term"@,
        SegmentReadError::TermNotUtf8 => "term is not valid UTF-8"@,
        SegmentReadError::TermNotAlphanumeric(t) => quoted_term(
            "term "@,
            t@,
            " is not ASCII alphanumeric"@,
        ),
        SegmentReadError::NoPostings(t) => quoted_term("term "@, t@, " has no postings"@),
        SegmentReadError::RecordNotFilled(t) => quoted_term(
            "term "@,
            t@,
            " record does not fill its allocated range"@,
        ),
        SegmentReadError::EmptyPostings(t) => quoted_term("term "@, t@, " has empty postings"@),
        SegmentReadError::PostingsLengthTooLarge => "postings length exceeds addressable memory"@,
        SegmentReadError::PostingsRangeOverflow(t) => quoted_term(
            "postings range overflow for term "@,
            t@,
            Seq::empty(),
        ),
        SegmentReadError::PostingsRangeOutside => "postings range is outside the postings section"@,
    }
}

/// `prefix`, then `term` in quotes, then `suffix`.
pub fn quote_term(prefix: &str, term: &str, suffix: &str) -> (text: String)
    ensures
        text@ == quoted_term(prefix@, term@, suffix@),
{
    let mut text = join3(prefix, "'", term);
    text.append("'");
    text.append(suffix);
    proof {
        reveal_strlit("'");
    }
    text
}

impl SegmentReadError {
    /// The error's message, such as `term index out of range`.
    pub fn message(&self) -> (message: String)
        ensures
            message@ == read_error_message(*self),
    {
        proof {
            reveal_strlit("");
        }
        match self {
            SegmentReadError::File(e) => e.message(),
            SegmentReadError::Field(e) => e.message(),
            SegmentReadError::PostingsOffsetTooLarge => String::from_str(
                "postings offset exceeds addressable memory",
            ),
            SegmentReadError::PostingsOffsetPastChecksum => String::from_str(
                "postings offset is past the checksum",
            ),
            SegmentReadError::TermOffsetTableOverflow => String::from_str(
                "term-offset table length overflow",
            ),
            SegmentReadError::TermRecordSectionOverflow => String::from_str(
                "term-record section overflow",
            ),
            SegmentReadError::TermRecordsOverlapPostings => String::from_str(
                "term records overlap the postings section",
            ),
            SegmentReadError::TermIndexOutOfRange => String::from_str("term index out of range"),
            SegmentReadError::TermRecordOffsetTooLarge => String::from_str(
                "term-record offset exceeds addressable memory",
            ),
            SegmentReadError::TermRecordRangeInvalid => String::from_str(
                "term-record range is invalid",
            ),
            SegmentReadError::EmptyTermRecord => String::from_str("empty term record"),
            SegmentReadError::EmptyTerm => String::from_str("empty term"),
            SegmentReadError::TermNotUtf8 => String::from_str("term is not valid UTF-8"),
            SegmentReadError::TermNotAlphanumeric(t) => quote_term(
                "term ",
                t.as_str(),
                " is not ASCII alphanumeric",
            ),
            SegmentReadError::NoPostings(t) => quote_term("term ", t.as_str(), " has no postings"),
            SegmentReadError::RecordNotFilled(t) => quote_term(
                "term ",
                t.as_str(),
                " record does not fill its allocated range",
            ),
            SegmentReadError::EmptyPostings(t) => quote_term(
                "term ",
                t.as_str(),
                " has empty postings",
            ),
            SegmentReadError::PostingsLengthTooLarge => String::from_str(
                "postings length exceeds addressable memory",
            ),
            SegmentReadError::PostingsRangeOverflow(t) => quote_term(
                "postings range overflow for term ",
                t.as_str(),
                "",
            ),
            SegmentReadError::PostingsRangeOutside => String::from_str(
                "postings range is outside the postings section",
            ),
        }
    }
}

/// Why reading a segment fails, with names and terms as text.
pub enum SegmentFailure {
    Plain(SegmentReadError),
    Field(FieldProblem, Seq<char>),
    Term(TermProblem, Seq<char>),
}

/// A problem with a term record that names the term.
#[derive(PartialEq, Eq, Structural)]
pub enum TermProblem {
    NotAlphanumeric,
    NoPostings,
    RecordNotFilled,
    EmptyPostings,
    RangeOverflow,
}

/// Whether `error` is the error that reports `failure`.
pub open spec fn describes(error: SegmentReadError, failure: SegmentFailure) -> bool {
    match failure {
        SegmentFailure::Plain(expected) => error == expected,
        SegmentFailure::Field(problem, field) => error matches SegmentReadError::Field(e)
            && e.problem == problem && e.field@ == field,
        SegmentFailure::Term(problem, term) => match problem {
            TermProblem::NotAlphanumeric => error matches SegmentReadError::TermNotAlphanumeric(t)
                && t@ == term,
            TermProblem::NoPostings => error matches SegmentReadError::NoPostings(t) && t@ == term,
            TermProblem::RecordNotFilled => error matches SegmentReadError::RecordNotFilled(t) && t@
                == term,
            TermProblem::EmptyPostings => error matches SegmentReadError::EmptyPostings(t) && t@
                == term,
            TermProblem::RangeOverflow => error matches SegmentReadError::PostingsRangeOverflow(t)
                && t@ == term,
        },
    }
}

/// The message of the error that reports `failure`.
pub open spec fn failure_message(failure: SegmentFailure) -> Seq<char> {
    match failure {
        SegmentFailure::Plain(error) => read_error_message(error),
        SegmentFailure::Field(problem, field) => field_error_message(problem, field),
        SegmentFailure::Term(problem, term) => match problem {
            TermProblem::NotAlphanumeric => quoted_term(
                "term "@,
                term,
                " is not ASCII alphanumeric"@,
            ),
            TermProblem::NoPostings => quoted_term("term "@, term, " has no postings"@),
            TermProblem::RecordNotFilled => quoted_term(
                "term "@,
                term,
                " record does not fill its allocated range"@,
            ),
            TermProblem::EmptyPostings => quoted_term("term "@, term, " has empty postings"@),
            TermProblem::RangeOverflow => quoted_term(
                "postings range overflow for term "@,
                term,
                Seq::empty(),
            ),
        },
    }
}

/// The error that reports a failure has the failure's message.
pub proof fn lemma_failure_message(error: SegmentReadError, failure: SegmentFailure)
    requires
        describes(error, failure),
    ensures
        read_error_message(error) == failure_message(failure),
{
}

/// Reading `length` bytes of field `field` at `position` of `input`.
pub open spec fn read_field(input: Seq<u8>, position: nat, length: nat, field: Seq<char>) -> Result<
    Seq<u8>,
    SegmentFailure,
> {
    match read_problem(position, length, input.len()) {
        Some(problem) => Err(SegmentFailure::Field(problem, field)),
        None => Ok(input.subrange(position as int, (position + length) as int)),
    }
}

/// The layout that the header of `payload` (a segment without its
/// checksum) describes, or the first problem with it.
pub open spec fn spec_layout(payload: Seq<u8>) -> Result<SegmentLayout, SegmentFailure> {
    match read_field(payload, 10, 4, "segment document count"@) {
        Err(failure) => Err(failure),
        Ok(document_bytes) => match read_field(payload, 14, 4, "segment term count"@) {
            Err(failure) => Err(failure),
            Ok(term_bytes) => match read_field(payload, 18, 8, "segment postings offset"@) {
                Err(failure) => Err(failure),
                Ok(offset_bytes) => {
                    let document_count = spec_u32_from_le_bytes(document_bytes);
                    let term_count = spec_u32_from_le_bytes(term_bytes);
                    let postings_offset = spec_u64_from_le_bytes(offset_bytes);
                    let table_end = HEADER_LENGTH + TERM_OFFSET_LENGTH * term_count;
                    if postings_offset > usize::MAX {
                        Err(SegmentFailure::Plain(SegmentReadError::PostingsOffsetTooLarge))
                    } else if postings_offset > payload.len() {
                        Err(SegmentFailure::Plain(SegmentReadError::PostingsOffsetPastChecksum))
                    } else if TERM_OFFSET_LENGTH * term_count > usize::MAX {
                        Err(SegmentFailure::Plain(SegmentReadError::TermOffsetTableOverflow))
                    } else if table_end > usize::MAX {
                        Err(SegmentFailure::Plain(SegmentReadError::TermRecordSectionOverflow))
                    } else if table_end > postings_offset {
                        Err(SegmentFailure::Plain(SegmentReadError::TermRecordsOverlapPostings))
                    } else if term_count == 0 {
                        let empty = ByteRange { start: HEADER_LENGTH, end: HEADER_LENGTH };
                        Ok(
                            SegmentLayout {
                                document_count,
                                term_count,
                                term_offset_table: empty,
                                term_records: empty,
                                postings: empty,
                            },
                        )
                    } else {
                        Ok(
                            SegmentLayout {
                                document_count,
                                term_count,
                                term_offset_table: ByteRange {
                                    start: HEADER_LENGTH,
                                    end: table_end as usize,
                                },
                                term_records: ByteRange {
                                    start: table_end as usize,
                                    end: postings_offset as usize,
                                },
                                postings: ByteRange {
                                    start: postings_offset as usize,
                                    end: payload.len() as usize,
                                },
                            },
                        )
                    }
                },
            },
        },
    }
}

/// Opening `bytes` as a segment: the framing, then the layout.
pub open spec fn spec_open(bytes: Seq<u8>) -> Result<(SegmentLayout, u32), SegmentFailure> {
    match spec_check_file(FileType::Segment, bytes) {
        Err(error) => Err(SegmentFailure::Plain(SegmentReadError::File(error))),
        Ok(checksum) => match spec_layout(bytes.subrange(0, bytes.len() - CHECKSUM_LENGTH)) {
            Err(failure) => Err(failure),
            Ok(layout) => Ok((layout, checksum)),
        },
    }
}

/// A layout whose sections lie in order within `length` bytes, as opening
/// establishes.
pub open spec fn layout_fits(layout: SegmentLayout, length: nat) -> bool {
    &&& layout.term_offset_table.start == HEADER_LENGTH
    &&& layout.term_offset_table.end == layout.term_records.start
    &&& layout.term_records.start <= layout.term_records.end
    &&& layout.term_records.end == layout.postings.start
    &&& layout.postings.start <= layout.postings.end <= length
    &&& layout.term_offset_table.end == HEADER_LENGTH + TERM_OFFSET_LENGTH * layout.term_count
        || layout.term_count == 0
    &&& layout.term_count == 0 ==> layout.term_offset_table.end == HEADER_LENGTH
        && layout.postings.end == HEADER_LENGTH
}

proof fn lemma_layout_fits(payload: Seq<u8>)
    requires
        payload.len() <= usize::MAX,
    ensures
        spec_layout(payload) matches Ok(layout) ==> layout_fits(layout, payload.len()),
{
}

/// A payload with a whole header opens exactly when the offset table fits
/// between the header and the postings offset, which lies within the
/// payload. The header gives the counts; with terms, the table, the records
/// and the postings follow one another up to the payload's end; without,
/// every section is the empty range just past the header.
pub proof fn lemma_layout_law(payload: Seq<u8>)
    requires
        HEADER_LENGTH <= payload.len() <= usize::MAX,
    ensures
        ({
            let document_count = spec_u32_from_le_bytes(payload.subrange(10, 14));
            let term_count = spec_u32_from_le_bytes(payload.subrange(14, 18));
            let postings_offset = spec_u64_from_le_bytes(payload.subrange(18, 26));
            let table_end = HEADER_LENGTH + TERM_OFFSET_LENGTH * term_count;
            &&& spec_layout(payload) is Ok <==> table_end <= postings_offset <= payload.len()
            &&& spec_layout(payload) matches Ok(layout) ==> {
                &&& layout.document_count == document_count
                &&& layout.term_count == term_count
                &&& term_count > 0 ==> layout.term_offset_table == (ByteRange {
                    start: HEADER_LENGTH,
                    end: table_end as usize,
                }) && layout.term_records == (ByteRange {
                    start: table_end as usize,
                    end: postings_offset as usize,
                }) && layout.postings == (ByteRange {
                    start: postings_offset as usize,
                    end: payload.len() as usize,
                })
                &&& term_count == 0 ==> layout.term_offset_table == (ByteRange {
                    start: HEADER_LENGTH,
                    end: HEADER_LENGTH,
                }) && layout.term_records == layout.term_offset_table && layout.postings
                    == layout.term_offset_table
            }
        }),
{
}

fn decode_layout(payload: &[u8]) -> (result: Result<SegmentLayout, SegmentReadError>)
    requires
        payload@.len() >= 10,
    ensures
        match spec_layout(payload@) {
            Ok(layout) => result == Ok::<SegmentLayout, SegmentReadError>(layout),
            Err(failure) => result matches Err(e) && describes(e, failure),
        },
{
    proof {
        reveal_strlit("segment document count");
        reveal_strlit("segment term count");
        reveal_strlit("segment postings offset");
    }
    let mut decoder = Decoder::new(payload);
    let header = decoder.read_exact(10, "file header");
    assert(header is Ok);
    let document_count = match decoder.read_u32("segment document count") {
        Ok(value) => value,
        Err(error) => return Err(SegmentReadError::Field(error)),
    };
    assert(payload@.subrange(10, 14) =~= payload@.subrange(10, payload@.len() as int).subrange(0, 4));
    let term_count = match decoder.read_u32("segment term count") {
        Ok(value) => value,
        Err(error) => return Err(SegmentReadError::Field(error)),
    };
    assert(payload@.subrange(14, 18) =~= payload@.subrange(14, payload@.len() as int).subrange(0, 4));
    let postings_offset = match decoder.read_u64("segment postings offset") {
        Ok(value) => value,
        Err(error) => return Err(SegmentReadError::Field(error)),
    };
    assert(payload@.subrange(18, 26) =~= payload@.subrange(18, payload@.len() as int).subrange(0, 8));
    if postings_offset > usize::MAX as u64 {
        return Err(SegmentReadError::PostingsOffsetTooLarge);
    }
    let postings_start = postings_offset as usize;
    let payload_length = decoder.length();
    if postings_start > payload_length {
        return Err(SegmentReadError::PostingsOffsetPastChecksum);
    }
    let term_count_usize = term_count as usize;
    let table_length = match term_count_usize.checked_mul(TERM_OFFSET_LENGTH) {
        Some(length) => length,
        None => return Err(SegmentReadError::TermOffsetTableOverflow),
    };
    let records_start = match HEADER_LENGTH.checked_add(table_length) {
        Some(start) => start,
        None => return Err(SegmentReadError::TermRecordSectionOverflow),
    };
    if records_start > postings_start {
        return Err(SegmentReadError::TermRecordsOverlapPostings);
    }
    if term_count == 0 {
        let empty = ByteRange { start: HEADER_LENGTH, end: HEADER_LENGTH };
        return Ok(
            SegmentLayout {
                document_count,
                term_count,
                term_offset_table: empty,
                term_records: empty,
                postings: empty,
            },
        );
    }
    Ok(
        SegmentLayout {
            document_count,
            term_count,
            term_offset_table: ByteRange { start: HEADER_LENGTH, end: records_start },
            term_records: ByteRange { start: records_start, end: postings_start },
            postings: ByteRange { start: postings_start, end: payload_length },
        },
    )
}

/// Whether every character is an ASCII letter or digit.
pub open spec fn all_alphanumeric(text: Seq<char>) -> bool {
    forall|i: int| 0 <= i < text.len() ==> is_ascii_alphanumeric(#[trigger] text[i])
}

/// Whether `c` is an ASCII letter or digit.
pub open spec fn is_ascii_alphanumeric(c: char) -> bool {
    ('a' <= c <= 'z') || ('A' <= c <= 'Z') || ('0' <= c <= '9')
}

/// Whether every character of `text` is an ASCII letter or digit.
pub fn is_alphanumeric_text(text: &str) -> (result: bool)
    ensures
        result == all_alphanumeric(text@),
{
    let length = text.unicode_len();
    let mut i: usize = 0;
    while i < length
        invariant
            length == text@.len(),
            i <= length,
            forall|j: int| 0 <= j < i ==> is_ascii_alphanumeric(#[trigger] text@[j]),
        decreases length - i,
    {
        let c = text.get_char(i);
        if !(('a' <= c && c <= 'z') || ('A' <= c && c <= 'Z') || ('0' <= c && c <= '9')) {
            return false;
        }
        i = i + 1;
    }
    true
}

/// What a term record says.
pub struct TermRecordView {
    pub term: Seq<char>,
    pub document_frequency: u32,
    pub postings_start: nat,
    pub postings_end: nat,
}

/// The name of a field of term `term`'s record.
pub open spec fn term_field(prefix: Seq<char>, term: Seq<char>) -> Seq<char> {
    prefix + " for term '"@ + term + "'"@
}

/// The four fields that end a term record at `position` of `record`: the
/// document frequency and the postings offset and length.
pub open spec fn parse_record_fields(record: Seq<u8>, position: nat, term: Seq<char>) -> Result<
    TermRecordView,
    SegmentFailure,
> {
    match varint::spec_decode(record.subrange(position as int, record.len() as int)) {
        Err(error) => Err(
            SegmentFailure::Field(varint_problem(error), term_field("document frequency"@, term)),
        ),
        Ok((document_frequency, frequency_length)) => if document_frequency == 0 {
            Err(SegmentFailure::Term(TermProblem::NoPostings, term))
        } else {
            let offset_position = position + frequency_length;
            match read_field(record, offset_position, 8, term_field("postings offset"@, term)) {
                Err(failure) => Err(failure),
                Ok(offset_bytes) => match read_field(
                    record,
                    offset_position + 8,
                    8,
                    term_field("postings length"@, term),
                ) {
                    Err(failure) => Err(failure),
                    Ok(length_bytes) => {
                        let relative_offset = spec_u64_from_le_bytes(offset_bytes);
                        let postings_length = spec_u64_from_le_bytes(length_bytes);
                        if offset_position + 16 != record.len() {
                            Err(SegmentFailure::Term(TermProblem::RecordNotFilled, term))
                        } else if postings_length == 0 {
                            Err(SegmentFailure::Term(TermProblem::EmptyPostings, term))
                        } else if relative_offset > usize::MAX {
                            Err(SegmentFailure::Plain(SegmentReadError::PostingsOffsetTooLarge))
                        } else if postings_length > usize::MAX {
                            Err(SegmentFailure::Plain(SegmentReadError::PostingsLengthTooLarge))
                        } else if relative_offset + postings_length > usize::MAX {
                            Err(SegmentFailure::Term(TermProblem::RangeOverflow, term))
                        } else {
                            Ok(
                                TermRecordView {
                                    term,
                                    document_frequency,
                                    postings_start: relative_offset as nat,
                                    postings_end: (relative_offset + postings_length) as nat,
                                },
                            )
                        }
                    },
                },
            }
        },
    }
}

/// Parsing the term record that occupies `start..end` of `bytes`.
pub open spec fn spec_parse_term_record(bytes: Seq<u8>, start: nat, end: nat) -> Result<
    TermRecordView,
    SegmentFailure,
> {
    if start >= end {
        Err(SegmentFailure::Plain(SegmentReadError::EmptyTermRecord))
    } else {
        let record = bytes.subrange(start as int, end as int);
        match varint::spec_decode(record) {
            Err(error) => Err(SegmentFailure::Field(varint_problem(error), "term length"@)),
            Ok((term_length, prefix_length)) => if term_length == 0 {
                Err(SegmentFailure::Plain(SegmentReadError::EmptyTerm))
            } else {
                match read_field(record, prefix_length, term_length as nat, "term bytes"@) {
                    Err(failure) => Err(failure),
                    Ok(term_bytes) => if !valid_utf8(term_bytes) {
                        Err(SegmentFailure::Plain(SegmentReadError::TermNotUtf8))
                    } else if !all_alphanumeric(decode_utf8(term_bytes)) {
                        Err(SegmentFailure::Term(TermProblem::NotAlphanumeric, decode_utf8(term_bytes)))
                    } else {
                        parse_record_fields(
                            record,
                            (prefix_length + term_length) as nat,
                            decode_utf8(term_bytes),
                        )
                    },
                }
            },
        }
    }
}

/// A parsed term record.
pub struct ParsedTermRecord<'a> {
    pub term: &'a str,
    pub document_frequency: u32,
    pub postings_start: usize,
    pub postings_end: usize,
}

fn field_name(prefix: &str, term: &str) -> (name: String)
    ensures
        name@ == term_field(prefix@, term@),
{
    let start = join3(prefix, " for term '", term);
    let mut name = start;
    name.append("'");
    name
}

/// Parses the term record at `start..end` of `bytes`.
pub fn parse_term_record(bytes: &[u8], start: usize, end: usize) -> (result: Result<
    ParsedTermRecord<'_>,
    SegmentReadError,
>)
    requires
        end <= bytes@.len(),
    ensures
        match spec_parse_term_record(bytes@, start as nat, end as nat) {
            Ok(record) => result matches Ok(parsed) && parsed.term@ == record.term
                && parsed.document_frequency == record.document_frequency && parsed.postings_start
                == record.postings_start && parsed.postings_end == record.postings_end,
            Err(failure) => result matches Err(e) && describes(e, failure),
        },
{
    proof {
        reveal_strlit("term length");
        reveal_strlit("term bytes");
        reveal_strlit("document frequency");
        reveal_strlit("postings offset");
        reveal_strlit("postings length");
    }
    if start >= end {
        return Err(SegmentReadError::EmptyTermRecord);
    }
    let record = &bytes[start..end];
    let mut decoder = Decoder::new(record);
    assert(decoder.rest() =~= record@);
    let term_length = match decoder.read_varint("term length") {
        Ok(value) => value,
        Err(error) => return Err(SegmentReadError::Field(error)),
    };
    if term_length == 0 {
        return Err(SegmentReadError::EmptyTerm);
    }
    let term_bytes = match decoder.read_exact(term_length as usize, "term bytes") {
        Ok(bytes) => bytes,
        Err(error) => return Err(SegmentReadError::Field(error)),
    };
    let term = match str_from_utf8(term_bytes) {
        Some(term) => term,
        None => return Err(SegmentReadError::TermNotUtf8),
    };
    proof {
        vstd::utf8::encode_utf8_decode_utf8(term@);
    }
    if !is_alphanumeric_text(term) {
        return Err(SegmentReadError::TermNotAlphanumeric(term.to_owned()));
    }
    let ghost position = decoder.position();
    assert(decoder.rest() =~= record@.subrange(position as int, record@.len() as int));
    let frequency_field = field_name("document frequency", term);
    let document_frequency = match decoder.read_varint(frequency_field.as_str()) {
        Ok(value) => value,
        Err(error) => return Err(SegmentReadError::Field(error)),
    };
    if document_frequency == 0 {
        return Err(SegmentReadError::NoPostings(term.to_owned()));
    }
    let ghost offset_position = decoder.position();
    let offset_field = field_name("postings offset", term);
    let relative_offset = match decoder.read_u64(offset_field.as_str()) {
        Ok(value) => value,
        Err(error) => return Err(SegmentReadError::Field(error)),
    };
    assert(record@.subrange(offset_position as int, offset_position + 8int) =~= record@.subrange(
        offset_position as int,
        record@.len() as int,
    ).subrange(0, 8));
    let length_field = field_name("postings length", term);
    let postings_length = match decoder.read_u64(length_field.as_str()) {
        Ok(value) => value,
        Err(error) => return Err(SegmentReadError::Field(error)),
    };
    assert(record@.subrange(offset_position + 8int, offset_position + 16int) =~= record@.subrange(
        offset_position + 8int,
        record@.len() as int,
    ).subrange(0, 8));
    if !decoder.is_finished() {
        return Err(SegmentReadError::RecordNotFilled(term.to_owned()));
    }
    if postings_length == 0 {
        return Err(SegmentReadError::EmptyPostings(term.to_owned()));
    }
    if relative_offset > usize::MAX as u64 {
        return Err(SegmentReadError::PostingsOffsetTooLarge);
    }
    if postings_length > usize::MAX as u64 {
        return Err(SegmentReadError::PostingsLengthTooLarge);
    }
    let range_start = relative_offset as usize;
    let range_end = match range_start.checked_add(postings_length as usize) {
        Some(end) => end,
        None => return Err(SegmentReadError::PostingsRangeOverflow(term.to_owned())),
    };
    Ok(ParsedTermRecord { term, document_frequency, postings_start: range_start, postings_end: range_end })
}

/// The term-record offset stored in entry `i` of the term-offset table of
/// the segment `bytes`.
pub open spec fn stored_offset(bytes: Seq<u8>, i: int) -> u64 {
    let start = HEADER_LENGTH + TERM_OFFSET_LENGTH * i;
    spec_u64_from_le_bytes(bytes.subrange(start, start + 8))
}

/// Where the record of term `index` lies in the segment `bytes`: from its
/// own offset to the next term's, or to the postings for the last term.
pub open spec fn spec_term_record_range(bytes: Seq<u8>, layout: SegmentLayout, index: u32) -> Result<
    ByteRange,
    SegmentReadError,
> {
    if index >= layout.term_count {
        Err(SegmentReadError::TermIndexOutOfRange)
    } else {
        let start = stored_offset(bytes, index as int);
        let end: int = if index + 1 < layout.term_count {
            stored_offset(bytes, index + 1) as int
        } else {
            layout.postings.start as int
        };
        if start > usize::MAX || end > usize::MAX {
            Err(SegmentReadError::TermRecordOffsetTooLarge)
        } else if start < layout.term_records.start || end > layout.term_records.end || start
            >= end {
            Err(SegmentReadError::TermRecordRangeInvalid)
        } else {
            Ok(ByteRange { start: start as usize, end: end as usize })
        }
    }
}

/// The record of term `index` of the segment `bytes`, parsed.
pub open spec fn spec_term_record_at(bytes: Seq<u8>, layout: SegmentLayout, index: u32) -> Result<
    TermRecordView,
    SegmentFailure,
> {
    match spec_term_record_range(bytes, layout, index) {
        Err(error) => Err(SegmentFailure::Plain(error)),
        Ok(range) => spec_parse_term_record(bytes, range.start as nat, range.end as nat),
    }
}

/// The term at `index` of the segment `bytes`.
pub open spec fn spec_get_term(bytes: Seq<u8>, layout: SegmentLayout, index: u32) -> Result<
    Seq<char>,
    SegmentFailure,
> {
    match spec_term_record_at(bytes, layout, index) {
        Err(failure) => Err(failure),
        Ok(record) => Ok(record.term),
    }
}

/// The state of a decoder over the postings of term `index` of the segment
/// `bytes`.
pub open spec fn spec_get_postings(bytes: Seq<u8>, layout: SegmentLayout, index: u32) -> Result<
    DecoderState,
    SegmentFailure,
> {
    match spec_term_record_at(bytes, layout, index) {
        Err(failure) => Err(failure),
        Ok(record) => if record.postings_end > layout.postings.end - layout.postings.start {
            Err(SegmentFailure::Plain(SegmentReadError::PostingsRangeOutside))
        } else {
            Ok(
                initial_state(
                    bytes.subrange(
                        layout.postings.start + record.postings_start,
                        layout.postings.start + record.postings_end,
                    ),
                    record.document_frequency as nat,
                ),
            )
        },
    }
}

proof fn lemma_opened_fits(bytes: Seq<u8>, layout: SegmentLayout, checksum: u32)
    requires
        spec_open(bytes) == Ok::<(SegmentLayout, u32), SegmentFailure>((layout, checksum)),
        bytes.len() <= usize::MAX,
    ensures
        bytes.len() >= 14,
        layout_fits(layout, (bytes.len() - CHECKSUM_LENGTH) as nat),
{
    lemma_layout_fits(bytes.subrange(0, bytes.len() - CHECKSUM_LENGTH));
}

/// An open segment: its bytes, the checksum they carry, and the layout of
/// their sections. Term records and postings are parsed on demand.
pub struct SegmentReader {
    bytes: Vec<u8>,
    checksum: u32,
    layout: SegmentLayout,
}

impl SegmentReader {
    /// The bytes of the segment file.
    pub closed spec fn contents(&self) -> Seq<u8> {
        self.bytes@
    }

    /// The layout found when the segment was opened.
    pub closed spec fn layout(&self) -> SegmentLayout {
        self.layout
    }

    /// The checksum stored in the segment.
    pub closed spec fn stored_checksum(&self) -> u32 {
        self.checksum
    }

    /// A reader only exists for bytes that open as a segment, with the
    /// layout and checksum that opening gives.
    #[verifier::type_invariant]
    closed spec fn opened(self) -> bool {
        spec_open(self.bytes@) == Ok::<(SegmentLayout, u32), SegmentFailure>((self.layout, self.checksum))
    }

    /// Opens the segment file `bytes`: checks its size, checksum, magic and
    /// version, then reads the header and places the sections.
    pub fn open(bytes: Vec<u8>) -> (result: Result<SegmentReader, SegmentReadError>)
        ensures
            match spec_open(bytes@) {
                Ok((layout, checksum)) => result matches Ok(reader) && reader.contents() == bytes@
                    && reader.layout() == layout && reader.stored_checksum() == checksum,
                Err(failure) => result matches Err(e) && describes(e, failure),
            },
    {
        let checksum = match check_file(FileType::Segment, bytes.as_slice()) {
            Ok(checksum) => checksum,
            Err(error) => return Err(SegmentReadError::File(error)),
        };
        let payload_length = bytes.len() - CHECKSUM_LENGTH;
        let layout = match decode_layout(&bytes.as_slice()[0..payload_length]) {
            Ok(layout) => layout,
            Err(error) => return Err(error),
        };
        Ok(SegmentReader { bytes, checksum, layout })
    }

    /// Opens the segment file `bytes` after checking all of it: every term
    /// record and postings list, and that the postings tile their section.
    pub fn open_validated(bytes: Vec<u8>) -> (result: Result<SegmentReader, SegmentValidationError>)
        ensures
            match spec_validate_segment(bytes@) {
                Ok(layout) => result matches Ok(reader) && reader.contents() == bytes@
                    && reader.layout() == layout && reader.stored_checksum()
                    == spec_u32_from_le_bytes(
                    bytes@.subrange(bytes@.len() - CHECKSUM_LENGTH, bytes@.len() as int),
                ),
                Err(failure) => result matches Err(e) && validation_describes(e, failure),
            },
    {
        let layout = match validate_segment(bytes.as_slice()) {
            Ok(layout) => layout,
            Err(error) => return Err(error),
        };
        proof {
            lemma_validated_segment_opens(bytes@);
        }
        let checksum = read_u32_le(bytes.as_slice(), bytes.len() - CHECKSUM_LENGTH);
        Ok(SegmentReader { bytes, checksum, layout })
    }

    /// The number of documents the segment covers.
    pub fn document_count(&self) -> (count: u32)
        ensures
            count == self.layout().document_count,
    {
        self.layout.document_count
    }

    /// The number of terms in the segment's dictionary.
    pub fn term_count(&self) -> (count: u32)
        ensures
            count == self.layout().term_count,
    {
        self.layout.term_count
    }

    /// The checksum stored at the end of the segment.
    pub fn checksum(&self) -> (checksum: u32)
        ensures
            checksum == self.stored_checksum(),
    {
        self.checksum
    }

    /// The term-offset table.
    pub fn term_offset_table(&self) -> (table: &[u8])
        ensures
            table@ == self.contents().subrange(
                self.layout().term_offset_table.start as int,
                self.layout().term_offset_table.end as int,
            ),
    {
        let _total = self.bytes.len();
        proof {
            use_type_invariant(self);
            lemma_opened_fits(self.bytes@, self.layout, self.checksum);
        }
        let range = self.layout.term_offset_table;
        &self.bytes.as_slice()[range.start..range.end]
    }

    /// The term-record section.
    pub fn term_records(&self) -> (records: &[u8])
        ensures
            records@ == self.contents().subrange(
                self.layout().term_records.start as int,
                self.layout().term_records.end as int,
            ),
    {
        let _total = self.bytes.len();
        proof {
            use_type_invariant(self);
            lemma_opened_fits(self.bytes@, self.layout, self.checksum);
        }
        let range = self.layout.term_records;
        &self.bytes.as_slice()[range.start..range.end]
    }

    /// The postings section.
    pub fn postings(&self) -> (postings: &[u8])
        ensures
            postings@ == self.contents().subrange(
                self.layout().postings.start as int,
                self.layout().postings.end as int,
            ),
    {
        let _total = self.bytes.len();
        proof {
            use_type_invariant(self);
            lemma_opened_fits(self.bytes@, self.layout, self.checksum);
        }
        let range = self.layout.postings;
        &self.bytes.as_slice()[range.start..range.end]
    }

    fn term_record_range(&self, index: u32) -> (result: Result<ByteRange, SegmentReadError>)
        ensures
            result == spec_term_record_range(self.contents(), self.layout(), index),
            result matches Ok(range) ==> range.end <= self.contents().len(),
    {
        let _total = self.bytes.len();
        proof {
            use_type_invariant(self);
            lemma_opened_fits(self.bytes@, self.layout, self.checksum);
        }
        if index >= self.layout.term_count {
            return Err(SegmentReadError::TermIndexOutOfRange);
        }
        let entry_start = HEADER_LENGTH + index as usize * TERM_OFFSET_LENGTH;
        let term_start = read_u64_le(self.bytes.as_slice(), entry_start);
        let term_end: u64 = if index + 1 < self.layout.term_count {
            read_u64_le(self.bytes.as_slice(), entry_start + TERM_OFFSET_LENGTH)
        } else {
            self.layout.postings.start as u64
        };
        if term_start > usize::MAX as u64 || term_end > usize::MAX as u64 {
            return Err(SegmentReadError::TermRecordOffsetTooLarge);
        }
        let start = term_start as usize;
        let end = term_end as usize;
        if start < self.layout.term_records.start || end > self.layout.term_records.end || start
            >= end {
            return Err(SegmentReadError::TermRecordRangeInvalid);
        }
        Ok(ByteRange { start, end })
    }

    /// The term at `index` of the dictionary.
    pub fn get_term(&self, index: u32) -> (result: Result<&str, SegmentReadError>)
        ensures
            match spec_get_term(self.contents(), self.layout(), index) {
                Ok(term) => result matches Ok(text) && text@ == term,
                Err(failure) => result matches Err(e) && describes(e, failure),
            },
    {
        let range = match self.term_record_range(index) {
            Ok(range) => range,
            Err(error) => return Err(error),
        };
        match parse_term_record(self.bytes.as_slice(), range.start, range.end) {
            Ok(record) => Ok(record.term),
            Err(error) => Err(error),
        }
    }

    /// A decoder over the postings of the term at `index`.
    pub fn get_postings(&self, index: u32) -> (result: Result<PostingsDecoder<'_>, SegmentReadError>)
        ensures
            match spec_get_postings(self.contents(), self.layout(), index) {
                Ok(state) => result matches Ok(decoder) && decoder.wf() && decoder.state() == state,
                Err(failure) => result matches Err(e) && describes(e, failure),
            },
    {
        let range = match self.term_record_range(index) {
            Ok(range) => range,
            Err(error) => return Err(error),
        };
        let record = match parse_term_record(self.bytes.as_slice(), range.start, range.end) {
            Ok(record) => record,
            Err(error) => return Err(error),
        };
        let _total = self.bytes.len();
        proof {
            use_type_invariant(self);
            lemma_opened_fits(self.bytes@, self.layout, self.checksum);
        }
        let postings = self.postings();
        if record.postings_end > postings.len() {
            return Err(SegmentReadError::PostingsRangeOutside);
        }
        let list = &postings[record.postings_start..record.postings_end];
        proof {
            let start = self.layout().postings.start;
            assert(list@ =~= self.contents().subrange(
                start + record.postings_start,
                start + record.postings_end,
            ));
        }
        Ok(PostingsDecoder::new(list, record.document_frequency as usize))
    }
}

} // verus!
