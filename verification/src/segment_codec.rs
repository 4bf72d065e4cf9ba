//! The segment file format: the common file header, document count, term
//! count and postings offset; a table of absolute term-record offsets; the
//! term records; the postings; and the checksum.

use crate::binary_file::{
    append_checksum, file_header, sealed, start_file, ErrorKind, FileType, CHECKSUM_LENGTH,
};
use crate::concat::{concat, lemma_concat_push, part_start};
use crate::inverted_index::{term_bytes, InvertedIndex};
use crate::model::{DocumentId, Posting};
use crate::postings;
use crate::debug_text::{encode_error_debug, encode_error_text};
use crate::segment_reader::{quote_term, quoted_term};
use crate::text::join2;
use crate::varint;
use crate::wire::{push_bytes, push_u32_le, push_u64_le};
use vstd::bytes::*;
use vstd::prelude::*;
use vstd::string::StringSliceAdditionalSpecFns;

verus! {

/// Length of the segment header.
pub const HEADER_LENGTH: usize = 26;

/// Length of one entry of the term-offset table.
pub const TERM_OFFSET_LENGTH: usize = 8;

/// Why an index could not be written as a segment.
#[derive(Debug, PartialEq, Eq)]
pub enum SegmentEncodeError {
    AlreadyExists,
    MissingFileName,
    TermCountTooLarge,
    CannotEncodePostings { term: String, error: postings::EncodeError },
    NoEncodedPostings(String),
    TermTooLong,
    DocumentFrequencyTooLarge,
    TermOffsetTableOverflow,
    TermRecordOffsetOverflow,
    PostingsOffsetOverflow,
    SegmentLengthOverflow,
}

impl SegmentEncodeError {
    /// The class of the error.
    pub fn kind(&self) -> (kind: ErrorKind)
        ensures
            kind == (match self {
                SegmentEncodeError::AlreadyExists => ErrorKind::AlreadyExists,
                SegmentEncodeError::CannotEncodePostings { .. }
                | SegmentEncodeError::NoEncodedPostings(_) => ErrorKind::InvalidData,
                _ => ErrorKind::InvalidInput,
            }),
    {
        match self {
            SegmentEncodeError::AlreadyExists => ErrorKind::AlreadyExists,
            SegmentEncodeError::CannotEncodePostings { .. }
            | SegmentEncodeError::NoEncodedPostings(_) => ErrorKind::InvalidData,
            _ => ErrorKind::InvalidInput,
        }
    }
}

/// The message of a segment encoding error.
pub open spec fn encode_error_message(error: SegmentEncodeError) -> Seq<char> {
    match error {
        SegmentEncodeError::AlreadyExists => "segment path already exists"@,
        SegmentEncodeError::MissingFileName => "segment path must include a file name"@,
        SegmentEncodeError::TermCountTooLarge => "term count exceeds the segment format limit"@,
        SegmentEncodeError::CannotEncodePostings { term, error } => quoted_term(
            "cannot encode postings for term "@,
            term@,
            ": "@ + encode_error_text(error),
        ),
        SegmentEncodeError::NoEncodedPostings(term) => quoted_term(
            "term "@,
            term@,
            " has no encoded postings"@,
        ),
        SegmentEncodeError::TermTooLong => "term length exceeds the segment format limit"@,
        SegmentEncodeError::DocumentFrequencyTooLarge =>
            "document frequency exceeds the segment format limit"@,
        SegmentEncodeError::TermOffsetTableOverflow => "term-offset table length overflow"@,
        SegmentEncodeError::TermRecordOffsetOverflow => "term-record offset overflow"@,
        SegmentEncodeError::PostingsOffsetOverflow => "postings offset overflow"@,
        SegmentEncodeError::SegmentLengthOverflow => "segment length overflow"@,
    }
}

impl SegmentEncodeError {
    /// The error's message, such as `term 'rust' has no encoded postings`.
    pub fn message(&self) -> (message: String)
        ensures
            message@ == encode_error_message(*self),
    {
        match self {
            SegmentEncodeError::AlreadyExists => String::from_str("segment path already exists"),
            SegmentEncodeError::MissingFileName => String::from_str(
                "segment path must include a file name",
            ),
            SegmentEncodeError::TermCountTooLarge => String::from_str(
                "term count exceeds the segment format limit",
            ),
            SegmentEncodeError::CannotEncodePostings { term, error } => {
                let detail = encode_error_debug(*error);
                let suffix = join2(": ", detail.as_str());
                quote_term("cannot encode postings for term ", term.as_str(), suffix.as_str())
            },
            SegmentEncodeError::NoEncodedPostings(term) => quote_term(
                "term ",
                term.as_str(),
                " has no encoded postings",
            ),
            SegmentEncodeError::TermTooLong => String::from_str(
                "term length exceeds the segment format limit",
            ),
            SegmentEncodeError::DocumentFrequencyTooLarge => String::from_str(
                "document frequency exceeds the segment format limit",
            ),
            SegmentEncodeError::TermOffsetTableOverflow => String::from_str(
                "term-offset table length overflow",
            ),
            SegmentEncodeError::TermRecordOffsetOverflow => String::from_str(
                "term-record offset overflow",
            ),
            SegmentEncodeError::PostingsOffsetOverflow => String::from_str("postings offset overflow"),
            SegmentEncodeError::SegmentLengthOverflow => String::from_str("segment length overflow"),
        }
    }
}

/// The abstract dictionary entries of an index.
pub type Entries = Seq<(Seq<char>, Seq<Posting>)>;

/// The encoded postings list of every term.
pub open spec fn encoded_postings(entries: Entries) -> Seq<Seq<u8>> {
    Seq::new(entries.len(), |i: int| postings::spec_encode(entries[i].1))
}

/// Where term `i`'s postings start, relative to the postings section.
pub open spec fn postings_start_of(entries: Entries, i: int) -> nat {
    part_start(encoded_postings(entries), i)
}

/// The term record of term `i`: its length, its bytes, its document
/// frequency, and its postings' relative offset and length.
pub open spec fn spec_term_record(entries: Entries, i: int) -> Seq<u8> {
    let term = term_bytes(entries[i].0);
    varint::spec_encode(term.len() as u32) + term + varint::spec_encode(entries[i].1.len() as u32)
        + spec_u64_to_le_bytes(postings_start_of(entries, i) as u64) + spec_u64_to_le_bytes(
        encoded_postings(entries)[i].len() as u64,
    )
}

/// The term records of all terms.
pub open spec fn term_records(entries: Entries) -> Seq<Seq<u8>> {
    Seq::new(entries.len(), |i: int| spec_term_record(entries, i))
}

/// Where the term records start in the file.
pub open spec fn term_records_start(entries: Entries) -> nat {
    (HEADER_LENGTH + TERM_OFFSET_LENGTH * entries.len()) as nat
}

/// Where the postings start in the file.
pub open spec fn postings_section_start(entries: Entries) -> nat {
    term_records_start(entries) + concat(term_records(entries)).len()
}

/// The term-offset table: the absolute position of every term record.
pub open spec fn offset_table(entries: Entries) -> Seq<u8> {
    concat(
        Seq::new(
            entries.len(),
            |i: int|
                spec_u64_to_le_bytes(
                    (term_records_start(entries) + part_start(term_records(entries), i)) as u64,
                ),
        ),
    )
}

/// The segment header.
pub open spec fn segment_header(document_count: u32, term_count: u32, postings_offset: u64) -> Seq<
    u8,
> {
    file_header(FileType::Segment) + spec_u32_to_le_bytes(document_count) + spec_u32_to_le_bytes(
        term_count,
    ) + spec_u64_to_le_bytes(postings_offset)
}

/// Everything in the segment file before the checksum.
pub open spec fn spec_segment_payload(entries: Entries, document_count: DocumentId) -> Seq<u8> {
    segment_header(
        document_count,
        entries.len() as u32,
        postings_section_start(entries) as u64,
    ) + offset_table(entries) + concat(term_records(entries)) + concat(encoded_postings(entries))
}

/// The segment file of an index.
pub open spec fn spec_segment_file(entries: Entries, document_count: DocumentId) -> Seq<u8> {
    sealed(spec_segment_payload(entries, document_count))
}

/// The first problem with term `i` that keeps it out of a segment.
pub open spec fn entry_problem(entries: Entries, i: int) -> Option<SectionProblem> {
    if postings::spec_validate(entries[i].1) is Err {
        Some(SectionProblem::InvalidPostings(postings::spec_validate(entries[i].1)->Err_0))
    } else if entries[i].1.len() == 0 {
        Some(SectionProblem::NoPostings)
    } else if term_bytes(entries[i].0).len() > u32::MAX {
        Some(SectionProblem::TermTooLong)
    } else if entries[i].1.len() > u32::MAX {
        Some(SectionProblem::FrequencyTooLarge)
    } else {
        None
    }
}

/// A problem with one term of an index.
pub enum SectionProblem {
    InvalidPostings(postings::EncodeError),
    NoPostings,
    TermTooLong,
    FrequencyTooLarge,
}

/// The first term, from index `i` on, with a problem.
pub open spec fn first_problem_from(entries: Entries, i: nat) -> Option<(int, SectionProblem)>
    decreases entries.len() - i,
{
    if i >= entries.len() {
        None
    } else {
        match entry_problem(entries, i as int) {
            Some(problem) => Some((i as int, problem)),
            None => first_problem_from(entries, i + 1),
        }
    }
}

/// Whether `error` reports that term `i` has `problem`.
pub open spec fn reports_problem(
    error: SegmentEncodeError,
    entries: Entries,
    i: int,
    problem: SectionProblem,
) -> bool {
    match problem {
        SectionProblem::InvalidPostings(e) => error matches SegmentEncodeError::CannotEncodePostings {
            term,
            error,
        } && term@ == entries[i].0 && error == e,
        SectionProblem::NoPostings => error matches SegmentEncodeError::NoEncodedPostings(term)
            && term@ == entries[i].0,
        SectionProblem::TermTooLong => error == SegmentEncodeError::TermTooLong,
        SectionProblem::FrequencyTooLarge => error == SegmentEncodeError::DocumentFrequencyTooLarge,
    }
}

/// The size check that comes after the sections are built: the first of
/// the header computations that would pass `usize::MAX`.
pub open spec fn size_problem(entries: Entries) -> Option<SegmentEncodeError> {
    let records = concat(term_records(entries)).len();
    let postings_length = concat(encoded_postings(entries)).len();
    if TERM_OFFSET_LENGTH * entries.len() > usize::MAX {
        Some(SegmentEncodeError::TermOffsetTableOverflow)
    } else if term_records_start(entries) > usize::MAX {
        Some(SegmentEncodeError::TermRecordOffsetOverflow)
    } else if postings_section_start(entries) > usize::MAX {
        Some(SegmentEncodeError::PostingsOffsetOverflow)
    } else if postings_section_start(entries) + postings_length + CHECKSUM_LENGTH > usize::MAX {
        Some(SegmentEncodeError::SegmentLengthOverflow)
    } else {
        None
    }
}

/// Whether `result` is what writing the index `entries` gives: the term
/// count must fit a `u32`, every term must be writable, the sizes must fit,
/// and then the segment file.
pub open spec fn build_outcome(
    result: Result<Vec<u8>, SegmentEncodeError>,
    entries: Entries,
    document_count: DocumentId,
) -> bool {
    if entries.len() > u32::MAX {
        result matches Err(e) && e == SegmentEncodeError::TermCountTooLarge
    } else {
        match first_problem_from(entries, 0) {
            Some((i, problem)) => result matches Err(e) && reports_problem(e, entries, i, problem),
            None => match size_problem(entries) {
                Some(error) => result matches Err(e) && e == error,
                None => result matches Ok(bytes) && bytes@ == spec_segment_file(
                    entries,
                    document_count,
                ),
            },
        }
    }
}

/// Writes the segment header: magic, version, document count, term count
/// and postings offset.
pub fn write_header(buffer: &mut Vec<u8>, document_count: u32, term_count: u32, postings_offset: u64)
    ensures
        final(buffer)@ == old(buffer)@ + segment_header(document_count, term_count, postings_offset),
{
    let ghost start = buffer@;
    let header = start_file(FileType::Segment);
    push_bytes(buffer, header.as_slice());
    push_u32_le(buffer, document_count);
    push_u32_le(buffer, term_count);
    push_u64_le(buffer, postings_offset);
    assert(buffer@ =~= start + segment_header(document_count, term_count, postings_offset));
}

/// The term-record offsets, term records and postings of an index.
pub struct SegmentSections {
    pub term_record_offsets: Vec<u64>,
    pub term_records: Vec<u8>,
    pub postings: Vec<u8>,
}

/// No term from `i` on has a problem exactly when no first problem is found
/// from `i` on.
pub proof fn lemma_first_problem_from(entries: Entries, i: nat)
    requires
        i <= entries.len(),
    ensures
        first_problem_from(entries, i) is None <==> forall|j: int|
            i <= j < entries.len() ==> #[trigger] entry_problem(entries, j) is None,
    decreases entries.len() - i,
{
    if i < entries.len() {
        lemma_first_problem_from(entries, i + 1);
    }
}

/// Encodes every term's record and postings, stopping at the first term
/// that cannot be written.
pub fn build_sections(index: &InvertedIndex) -> (result: Result<SegmentSections, SegmentEncodeError>)
    ensures
        match first_problem_from(index.entries(), 0) {
            Some((i, problem)) => result matches Err(e) && reports_problem(
                e,
                index.entries(),
                i,
                problem,
            ),
            None => result matches Ok(sections) && sections.term_records@ == concat(
                term_records(index.entries()),
            ) && sections.postings@ == concat(encoded_postings(index.entries()))
                && sections.term_record_offsets@ == Seq::new(
                index.entries().len(),
                |i: int| part_start(term_records(index.entries()), i) as u64,
            ),
        },
{
    let terms = index.terms();
    let ghost entries = index.entries();
    let mut term_record_offsets: Vec<u64> = Vec::new();
    let mut records: Vec<u8> = Vec::new();
    let mut postings_bytes: Vec<u8> = Vec::new();
    let mut i: usize = 0;
    while i < terms.len()
        invariant
            i <= terms@.len(),
            entries == crate::inverted_index::entry_views(terms@),
            entries == index.entries(),
            first_problem_from(entries, i as nat) == first_problem_from(entries, 0),
            records@ == concat(term_records(entries).subrange(0, i as int)),
            postings_bytes@ == concat(encoded_postings(entries).subrange(0, i as int)),
            term_record_offsets@ == Seq::new(
                i as nat,
                |j: int| part_start(term_records(entries), j) as u64,
            ),
        decreases terms@.len() - i,
    {
        let term = terms[i].0.as_str();
        let term_postings = terms[i].1.as_slice();
        assert(entries[i as int] == (term@, term_postings@));
        let record_offset = records.len() as u64;
        let postings_offset = postings_bytes.len() as u64;
        let postings_start = postings_bytes.len();
        match postings::encode(term_postings, &mut postings_bytes) {
            Ok(()) => {},
            Err(error) => {
                return Err(SegmentEncodeError::CannotEncodePostings { term: term.to_owned(), error });
            },
        }
        let postings_length = postings_bytes.len() - postings_start;
        if postings_length == 0 {
            assert(term_postings@.len() == 0) by {
                if term_postings@.len() > 0 {
                    lemma_encode_nonempty(term_postings@);
                }
            }
            return Err(SegmentEncodeError::NoEncodedPostings(term.to_owned()));
        }
        let term_bytes_slice = term.as_bytes();
        if term_bytes_slice.len() > 4294967295 {
            return Err(SegmentEncodeError::TermTooLong);
        }
        if term_postings.len() > 4294967295 {
            return Err(SegmentEncodeError::DocumentFrequencyTooLarge);
        }
        assert(entry_problem(entries, i as int) is None);
        proof {
            lemma_concat_push(encoded_postings(entries), i as int);
            lemma_concat_push(term_records(entries), i as int);
        }
        term_record_offsets.push(record_offset);
        varint::encode(term_bytes_slice.len() as u32, &mut records);
        push_bytes(&mut records, term_bytes_slice);
        varint::encode(term_postings.len() as u32, &mut records);
        push_u64_le(&mut records, postings_offset);
        push_u64_le(&mut records, postings_length as u64);
        assert(records@ =~= concat(term_records(entries).subrange(0, i + 1)));
        assert(term_record_offsets@ =~= Seq::new(
            (i + 1) as nat,
            |j: int| part_start(term_records(entries), j) as u64,
        ));
        i = i + 1;
    }
    assert(term_records(entries).subrange(0, i as int) =~= term_records(entries));
    assert(encoded_postings(entries).subrange(0, i as int) =~= encoded_postings(entries));
    Ok(SegmentSections { term_record_offsets, term_records: records, postings: postings_bytes })
}

/// A nonempty postings list encodes to at least two bytes.
pub proof fn lemma_encode_nonempty(list: Seq<Posting>)
    requires
        list.len() > 0,
    ensures
        postings::spec_encode(list).len() >= 2,
{
    varint::lemma_encode_length(postings::document_delta(list, list.len() - 1));
    varint::lemma_encode_length(list[list.len() - 1].term_frequency);
}

/// Builds the complete segment file of `index`.
pub fn build_segment(index: &InvertedIndex) -> (result: Result<Vec<u8>, SegmentEncodeError>)
    ensures
        build_outcome(result, index.entries(), index.spec_document_count()),
{
    let ghost entries = index.entries();
    let term_count = index.term_count();
    if term_count > 4294967295 {
        return Err(SegmentEncodeError::TermCountTooLarge);
    }
    let sections = match build_sections(index) {
        Ok(sections) => sections,
        Err(error) => return Err(error),
    };
    let table_length = match term_count.checked_mul(TERM_OFFSET_LENGTH) {
        Some(length) => length,
        None => return Err(SegmentEncodeError::TermOffsetTableOverflow),
    };
    let records_start = match HEADER_LENGTH.checked_add(table_length) {
        Some(start) => start,
        None => return Err(SegmentEncodeError::TermRecordOffsetOverflow),
    };
    let postings_offset = match records_start.checked_add(sections.term_records.len()) {
        Some(offset) => offset,
        None => return Err(SegmentEncodeError::PostingsOffsetOverflow),
    };
    let segment_length = match postings_offset.checked_add(sections.postings.len()) {
        Some(length) => match length.checked_add(CHECKSUM_LENGTH) {
            Some(length) => length,
            None => return Err(SegmentEncodeError::SegmentLengthOverflow),
        },
        None => return Err(SegmentEncodeError::SegmentLengthOverflow),
    };
    let mut segment: Vec<u8> = Vec::with_capacity(segment_length);
    write_header(&mut segment, index.document_count(), term_count as u32, postings_offset as u64);
    let ghost header = segment@;
    let ghost table_parts = Seq::new(
        entries.len(),
        |i: int|
            spec_u64_to_le_bytes(
                (term_records_start(entries) + part_start(term_records(entries), i)) as u64,
            ),
    );
    let offsets = &sections.term_record_offsets;
    let mut i: usize = 0;
    while i < offsets.len()
        invariant
            i <= offsets@.len(),
            offsets@.len() == entries.len(),
            records_start == term_records_start(entries),
            postings_offset == records_start + concat(term_records(entries)).len(),
            offsets@ == Seq::new(entries.len(), |j: int| part_start(term_records(entries), j) as u64),
            table_parts == Seq::new(
                entries.len(),
                |j: int|
                    spec_u64_to_le_bytes(
                        (term_records_start(entries) + part_start(term_records(entries), j)) as u64,
                    ),
            ),
            segment@ == header + concat(table_parts.subrange(0, i as int)),
        decreases offsets@.len() - i,
    {
        proof {
            crate::concat::lemma_concat_prefix(term_records(entries), i as int);
            crate::concat::lemma_concat_push(table_parts, i as int);
        }
        let absolute = records_start as u64 + offsets[i];
        push_u64_le(&mut segment, absolute);
        i = i + 1;
    }
    assert(table_parts.subrange(0, i as int) =~= table_parts);
    push_bytes(&mut segment, sections.term_records.as_slice());
    push_bytes(&mut segment, sections.postings.as_slice());
    assert(segment@ =~= spec_segment_payload(entries, index.spec_document_count()));
    append_checksum(&mut segment);
    Ok(segment)
}

} // verus!
