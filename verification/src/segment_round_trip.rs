//! Reading back what the segment writer wrote: the bytes it produces open
//! with the layout it laid out, and every term and postings list reads back
//! as it was written.

use crate::binary_file::{file_header, lemma_check_sealed_file, FileType, CHECKSUM_LENGTH};
use crate::checksum::crc32;
use crate::concat::{
    concat, lemma_concat_length, lemma_concat_part, lemma_concat_push, lemma_part_start_grows,
    part_start,
};
use crate::model::{DocumentId, Posting};
use crate::postings::{self, drain, initial_state, DecodeError};
use crate::segment_codec::{
    encoded_postings, first_problem_from, lemma_encode_nonempty, offset_table, postings_section_start,
    postings_start_of, segment_header, size_problem, spec_segment_file, spec_segment_payload,
    spec_term_record, term_records, term_records_start, Entries, HEADER_LENGTH,
    TERM_OFFSET_LENGTH,
};
use crate::segment_validation::{
    coverage_from, first_offset_problem, record_end, scan_postings, sort_by_start,
    spec_validate_segment, spec_validate_term_record, table_entry, validate_terms_from,
    ValidationFailure,
};
use crate::binary_file::{spec_magic, FORMAT_VERSION};
use crate::bytes_order::lex_less;
use crate::inverted_index::{dictionary_keys, dictionary_sorted};
use crate::segment_reader::{
    all_alphanumeric, spec_get_postings, spec_get_term, spec_open, spec_parse_term_record,
    ByteRange, SegmentFailure, SegmentLayout, TermRecordView,
};
use crate::inverted_index::term_bytes;
use crate::varint;
use crate::wire::lemma_le_round_trips;
use vstd::bytes::*;
use vstd::prelude::*;

verus! {

/// Whether the writer turns `entries` into a segment: the term count fits a
/// `u32`, no term has a problem, and the sizes fit.
pub open spec fn writable(entries: Entries) -> bool {
    &&& entries.len() <= u32::MAX
    &&& first_problem_from(entries, 0) is None
    &&& size_problem(entries) is None
}

/// Whether the reader accepts every term of `entries`: each is nonempty and
/// made of ASCII letters and digits.
pub open spec fn readable_terms(entries: Entries) -> bool {
    forall|i: int|
        #![trigger entries[i]]
        0 <= i < entries.len() ==> entries[i].0.len() > 0 && all_alphanumeric(entries[i].0)
}

/// The record that reading term `i` of the segment of `entries` gives.
pub open spec fn written_record(entries: Entries, i: int) -> TermRecordView {
    TermRecordView {
        term: entries[i].0,
        document_frequency: entries[i].1.len() as u32,
        postings_start: postings_start_of(entries, i),
        postings_end: postings_start_of(entries, i + 1),
    }
}

pub(crate) proof fn lemma_entry_fine(entries: Entries, i: int)
    requires
        writable(entries),
        0 <= i < entries.len(),
    ensures
        postings::valid_postings(entries[i].1),
        entries[i].1.len() > 0,
        term_bytes(entries[i].0).len() <= u32::MAX,
        entries[i].1.len() <= u32::MAX,
{
    crate::segment_codec::lemma_first_problem_from(entries, 0);
    assert(crate::segment_codec::entry_problem(entries, i) is None);
    postings::lemma_validate_ok(entries[i].1);
}

/// The term record of term `i` parses back to what was written.
proof fn lemma_parse_written_record(entries: Entries, i: int, bytes: Seq<u8>, start: nat, end: nat)
    requires
        writable(entries),
        readable_terms(entries),
        0 <= i < entries.len(),
        start < end <= bytes.len() <= usize::MAX,
        bytes.subrange(start as int, end as int) == spec_term_record(entries, i),
        postings_start_of(entries, i + 1) <= usize::MAX,
    ensures
        spec_parse_term_record(bytes, start, end) == Ok::<TermRecordView, SegmentFailure>(
            written_record(entries, i),
        ),
{
    lemma_entry_fine(entries, i);
    lemma_le_round_trips();
    let term = entries[i].0;
    let list = entries[i].1;
    let tb = term_bytes(term);
    let tl = tb.len() as u32;
    let df = list.len() as u32;
    let po = postings_start_of(entries, i) as u64;
    let pl = encoded_postings(entries)[i].len() as u64;
    let record = bytes.subrange(start as int, end as int);
    let length_prefix = varint::spec_encode(tl);
    let frequency = varint::spec_encode(df);
    let tail = spec_u64_to_le_bytes(po) + spec_u64_to_le_bytes(pl);
    assert(record =~= length_prefix + (tb + (frequency + tail)));
    varint::lemma_decode_encode(tl, tb + (frequency + tail));
    vstd::utf8::encode_utf8_decode_utf8(term);
    vstd::utf8::encode_utf8_valid_utf8(term);
    assert(tb.len() > 0) by {
        if tb.len() == 0 {
            assert(tb =~= Seq::<u8>::empty());
            assert(vstd::utf8::decode_utf8(Seq::<u8>::empty()).len() == 0);
        }
    }
    let p = length_prefix.len();
    assert(record.subrange(p as int, p + tl) =~= tb);
    let rest_position = (p + tl) as nat;
    assert(record.subrange(rest_position as int, record.len() as int) =~= frequency + tail);
    varint::lemma_decode_encode(df, tail);
    let offset_position: int = (rest_position + frequency.len()) as int;
    assert(record.subrange(offset_position, offset_position + 8) =~= spec_u64_to_le_bytes(
        po,
    ));
    assert(record.subrange(offset_position + 8, offset_position + 16) =~= spec_u64_to_le_bytes(
        pl,
    ));
    lemma_encode_nonempty(list);
    lemma_concat_part(encoded_postings(entries), i);
}

/// The layout of the segment written for `entries`: the term-offset table
/// after the header, then the term records, then the postings up to the
/// checksum; all empty at the end of the header when there is no term.
pub open spec fn written_layout(entries: Entries, document_count: DocumentId) -> SegmentLayout {
    if entries.len() == 0 {
        let empty = ByteRange { start: HEADER_LENGTH, end: HEADER_LENGTH };
        SegmentLayout {
            document_count,
            term_count: 0,
            term_offset_table: empty,
            term_records: empty,
            postings: empty,
        }
    } else {
        let records_start = term_records_start(entries) as usize;
        let postings_start = postings_section_start(entries) as usize;
        let end = (postings_section_start(entries) + concat(encoded_postings(entries)).len()) as usize;
        SegmentLayout {
            document_count,
            term_count: entries.len() as u32,
            term_offset_table: ByteRange { start: HEADER_LENGTH, end: records_start },
            term_records: ByteRange { start: records_start, end: postings_start },
            postings: ByteRange { start: postings_start, end },
        }
    }
}

/// The entries of the term-offset table written for `entries`.
spec fn table_parts(entries: Entries) -> Seq<Seq<u8>> {
    Seq::new(
        entries.len(),
        |i: int|
            spec_u64_to_le_bytes(
                (term_records_start(entries) + part_start(term_records(entries), i)) as u64,
            ),
    )
}

proof fn lemma_uniform_starts(parts: Seq<Seq<u8>>, i: int)
    requires
        forall|j: int| 0 <= j < parts.len() ==> #[trigger] parts[j].len() == 8,
        0 <= i <= parts.len(),
    ensures
        part_start(parts, i) == 8 * i,
    decreases i,
{
    if i > 0 {
        lemma_uniform_starts(parts, i - 1);
        lemma_concat_push(parts, i - 1);
    } else {
        assert(parts.subrange(0, 0) =~= Seq::<Seq<u8>>::empty());
    }
}

proof fn lemma_subrange_within(prefix: Seq<u8>, middle: Seq<u8>, suffix: Seq<u8>, lo: int, hi: int)
    requires
        0 <= lo <= hi <= middle.len(),
    ensures
        (prefix + middle + suffix).subrange(prefix.len() + lo, prefix.len() + hi) == middle.subrange(
            lo,
            hi,
        ),
{
    assert((prefix + middle + suffix).subrange(prefix.len() + lo, prefix.len() + hi) =~= middle.subrange(
        lo,
        hi,
    ));
}

/// The sizes of the parts of a written segment.
proof fn lemma_written_sizes(entries: Entries, document_count: DocumentId)
    requires
        writable(entries),
    ensures
        segment_header(document_count, entries.len() as u32, postings_section_start(entries) as u64).len()
            == HEADER_LENGTH,
        offset_table(entries).len() == TERM_OFFSET_LENGTH * entries.len(),
        spec_segment_payload(entries, document_count).len() == postings_section_start(entries)
            + concat(encoded_postings(entries)).len(),
        spec_segment_file(entries, document_count).len() == spec_segment_payload(
            entries,
            document_count,
        ).len() + CHECKSUM_LENGTH,
        postings_section_start(entries) + concat(encoded_postings(entries)).len() + CHECKSUM_LENGTH
            <= usize::MAX,
        postings_section_start(entries) == term_records_start(entries) + concat(
            term_records(entries),
        ).len(),
{
    lemma_le_round_trips();
    let parts = table_parts(entries);
    assert forall|j: int| 0 <= j < parts.len() implies #[trigger] parts[j].len() == 8 by {}
    lemma_uniform_starts(parts, parts.len() as int);
    lemma_concat_length(parts);
    assert(offset_table(entries) == concat(parts));
}

/// Where the bytes of term `i` lie in the payload of a written segment: its
/// offset-table entry, its record and its postings.
proof fn lemma_written_term_bytes(entries: Entries, document_count: DocumentId, i: int)
    requires
        writable(entries),
        0 <= i < entries.len(),
    ensures
        ({
            let payload = spec_segment_payload(entries, document_count);
            let records = term_records(entries);
            let table_entry = HEADER_LENGTH + TERM_OFFSET_LENGTH * i;
            let records_start = term_records_start(entries) as int;
            let postings_start = postings_section_start(entries) as int;
            &&& payload.subrange(table_entry, table_entry + 8) == spec_u64_to_le_bytes(
                (records_start + part_start(records, i)) as u64,
            )
            &&& part_start(records, i) + spec_term_record(entries, i).len() == part_start(
                records,
                i + 1,
            )
            &&& part_start(records, i + 1) <= concat(records).len()
            &&& payload.subrange(
                records_start + part_start(records, i),
                records_start + part_start(records, i + 1),
            ) == spec_term_record(entries, i)
            &&& postings_start_of(entries, i + 1) <= concat(encoded_postings(entries)).len()
            &&& payload.subrange(
                postings_start + postings_start_of(entries, i),
                postings_start + postings_start_of(entries, i + 1),
            ) == postings::spec_encode(entries[i].1)
        }),
{
    lemma_written_sizes(entries, document_count);
    lemma_le_round_trips();
    let header = segment_header(
        document_count,
        entries.len() as u32,
        postings_section_start(entries) as u64,
    );
    let table = offset_table(entries);
    let records = concat(term_records(entries));
    let postings_bytes = concat(encoded_postings(entries));
    let payload = spec_segment_payload(entries, document_count);
    let parts = table_parts(entries);
    assert forall|j: int| 0 <= j < parts.len() implies #[trigger] parts[j].len() == 8 by {}
    lemma_uniform_starts(parts, i);
    lemma_uniform_starts(parts, i + 1);
    lemma_concat_part(parts, i);
    assert(table == concat(parts));
    assert(payload =~= header + table + (records + postings_bytes));
    lemma_subrange_within(header, table, records + postings_bytes, 8 * i, 8 * i + 8);
    lemma_concat_part(term_records(entries), i);
    assert(payload =~= (header + table) + records + postings_bytes);
    lemma_subrange_within(
        header + table,
        records,
        postings_bytes,
        part_start(term_records(entries), i) as int,
        part_start(term_records(entries), i + 1) as int,
    );
    lemma_concat_part(encoded_postings(entries), i);
    assert(payload =~= (header + table + records) + postings_bytes + Seq::<u8>::empty());
    lemma_subrange_within(
        header + table + records,
        postings_bytes,
        Seq::<u8>::empty(),
        postings_start_of(entries, i) as int,
        postings_start_of(entries, i + 1) as int,
    );
}

/// Opening the bytes the writer produced for `entries` succeeds, with the
/// layout the writer laid out and the checksum of everything before it.
pub proof fn lemma_open_written_segment(entries: Entries, document_count: DocumentId)
    requires
        writable(entries),
    ensures
        spec_open(spec_segment_file(entries, document_count)) == Ok::<
            (SegmentLayout, u32),
            SegmentFailure,
        >(
            (
                written_layout(entries, document_count),
                crc32(spec_segment_payload(entries, document_count)),
            ),
        ),
{
    lemma_written_sizes(entries, document_count);
    lemma_le_round_trips();
    let payload = spec_segment_payload(entries, document_count);
    let file = spec_segment_file(entries, document_count);
    let n = entries.len();
    let postings_start = postings_section_start(entries);
    let body = payload.subrange(10, payload.len() as int);
    assert(payload =~= file_header(FileType::Segment) + body);
    lemma_check_sealed_file(FileType::Segment, body);
    assert(file.subrange(0, file.len() - CHECKSUM_LENGTH) =~= payload);
    assert(payload.subrange(10, 14) =~= spec_u32_to_le_bytes(document_count));
    assert(payload.subrange(14, 18) =~= spec_u32_to_le_bytes(n as u32));
    assert(payload.subrange(18, 26) =~= spec_u64_to_le_bytes(postings_start as u64));
    if n > 0 {
        lemma_part_start_grows(term_records(entries), 0, n as int);
    }
}

/// Reading term `index` of the segment the writer produced for `entries`
/// gives back that term, and a decoder over its postings starts on exactly
/// the encoding of that term's postings, expecting as many postings as were
/// written, which it then produces in order before reporting the end.
pub proof fn lemma_read_written_term(entries: Entries, document_count: DocumentId, index: u32)
    requires
        writable(entries),
        readable_terms(entries),
        index < entries.len(),
    ensures
        ({
            let file = spec_segment_file(entries, document_count);
            let layout = written_layout(entries, document_count);
            &&& spec_get_term(file, layout, index) == Ok::<Seq<char>, SegmentFailure>(
                entries[index as int].0,
            )
            &&& spec_get_postings(file, layout, index) == Ok::<
                crate::postings::DecoderState,
                SegmentFailure,
            >(
                initial_state(
                    postings::spec_encode(entries[index as int].1),
                    entries[index as int].1.len(),
                ),
            )
            &&& drain(
                initial_state(
                    postings::spec_encode(entries[index as int].1),
                    entries[index as int].1.len(),
                ),
                entries[index as int].1.len() + 1,
            ) == entries[index as int].1.map_values(
                |posting: Posting| Some(Ok::<Posting, DecodeError>(posting)),
            ).push(None)
        }),
{
    let i = index as int;
    let n = entries.len();
    lemma_written_sizes(entries, document_count);
    lemma_written_term_bytes(entries, document_count, i);
    lemma_le_round_trips();
    lemma_entry_fine(entries, i);
    let payload = spec_segment_payload(entries, document_count);
    let file = spec_segment_file(entries, document_count);
    let records = term_records(entries);
    let records_start = term_records_start(entries);
    let postings_start = postings_section_start(entries);
    assert(file =~= payload + spec_u32_to_le_bytes(crc32(payload)));
    let table_entry = HEADER_LENGTH + TERM_OFFSET_LENGTH * i;
    assert(file.subrange(table_entry, table_entry + 8) =~= payload.subrange(
        table_entry,
        table_entry + 8,
    ));
    if i + 1 < n {
        lemma_written_term_bytes(entries, document_count, i + 1);
        let next_entry = HEADER_LENGTH + TERM_OFFSET_LENGTH * (i + 1);
        assert(file.subrange(next_entry, next_entry + 8) =~= payload.subrange(
            next_entry,
            next_entry + 8,
        ));
    } else {
        assert(i + 1 == n);
        lemma_concat_length(records);
    }
    let start = records_start + part_start(records, i);
    let end = records_start + part_start(records, i + 1);
    assert(file.subrange(start as int, end as int) =~= payload.subrange(start as int, end as int));
    lemma_parse_written_record(entries, i, file, start, end);
    lemma_concat_part(encoded_postings(entries), i);
    let list_start = postings_start + postings_start_of(entries, i);
    let list_end = postings_start + postings_start_of(entries, i + 1);
    assert(file.subrange(list_start as int, list_end as int) =~= payload.subrange(
        list_start as int,
        list_end as int,
    ));
    postings::lemma_postings_round_trip(entries[i].1);
}

/// Whether every posting of `entries` names a document below
/// `document_count`.
pub open spec fn documents_known(entries: Entries, document_count: DocumentId) -> bool {
    forall|i: int, j: int|
        0 <= i < entries.len() && 0 <= j < entries[i].1.len() ==> (#[trigger] entries[i].1[j]).document_id
            < document_count
}

proof fn lemma_scan_written(list: Seq<Posting>, i: nat, document_count: DocumentId)
    requires
        postings::valid_postings(list),
        i <= list.len(),
        forall|j: int| 0 <= j < list.len() ==> (#[trigger] list[j]).document_id < document_count,
    ensures
        scan_postings(postings::state_after(list, i), (list.len() - i + 1) as nat, document_count)
            is None,
    decreases list.len() - i,
{
    if i < list.len() {
        postings::lemma_step(list, i);
        lemma_scan_written(list, i + 1, document_count);
    } else {
        assert(postings::suffix_bytes(list, i).len() == 0);
    }
}

/// The term record of term `i` passes validation.
proof fn lemma_validate_written_record(
    entries: Entries,
    i: int,
    bytes: Seq<u8>,
    start: nat,
    end: nat,
    document_count: DocumentId,
    postings_section: Seq<u8>,
)
    requires
        writable(entries),
        readable_terms(entries),
        documents_known(entries, document_count),
        0 <= i < entries.len(),
        start < end <= bytes.len() <= usize::MAX,
        bytes.subrange(start as int, end as int) == spec_term_record(entries, i),
        postings_section == concat(encoded_postings(entries)),
        postings_section.len() <= usize::MAX,
    ensures
        spec_validate_term_record(bytes, start, end, document_count, postings_section) == Ok::<
            (Seq<char>, (usize, usize)),
            ValidationFailure,
        >(
            (
                entries[i].0,
                (
                    postings_start_of(entries, i) as usize,
                    postings_start_of(entries, i + 1) as usize,
                ),
            ),
        ),
{
    lemma_entry_fine(entries, i);
    lemma_le_round_trips();
    let term = entries[i].0;
    let list = entries[i].1;
    let tb = term_bytes(term);
    let tl = tb.len() as u32;
    let df = list.len() as u32;
    let po = postings_start_of(entries, i) as u64;
    let pl = encoded_postings(entries)[i].len() as u64;
    let record = bytes.subrange(start as int, end as int);
    let length_prefix = varint::spec_encode(tl);
    let frequency = varint::spec_encode(df);
    let tail = spec_u64_to_le_bytes(po) + spec_u64_to_le_bytes(pl);
    assert(record =~= length_prefix + (tb + (frequency + tail)));
    varint::lemma_decode_encode(tl, tb + (frequency + tail));
    vstd::utf8::encode_utf8_decode_utf8(term);
    vstd::utf8::encode_utf8_valid_utf8(term);
    assert(tb.len() > 0) by {
        if tb.len() == 0 {
            assert(tb =~= Seq::<u8>::empty());
            assert(vstd::utf8::decode_utf8(Seq::<u8>::empty()).len() == 0);
        }
    }
    let p = length_prefix.len();
    assert(record.subrange(p as int, p + tl) =~= tb);
    let rest_position = (p + tl) as nat;
    assert(record.subrange(rest_position as int, record.len() as int) =~= frequency + tail);
    varint::lemma_decode_encode(df, tail);
    let offset_position: int = (rest_position + frequency.len()) as int;
    assert(record.subrange(offset_position, offset_position + 8) =~= spec_u64_to_le_bytes(po));
    assert(record.subrange(offset_position + 8, offset_position + 16) =~= spec_u64_to_le_bytes(
        pl,
    ));
    lemma_encode_nonempty(list);
    lemma_concat_part(encoded_postings(entries), i);
    postings::lemma_initial_state(list);
    assert forall|j: int| 0 <= j < list.len() implies (#[trigger] list[j]).document_id
        < document_count by {
        assert(entries[i].1[j] == list[j]);
    }
    lemma_scan_written(list, 0, document_count);
}

/// The term-record offsets written for `entries`.
spec fn written_offsets(entries: Entries) -> Seq<usize> {
    Seq::new(
        entries.len(),
        |k: int| (term_records_start(entries) + part_start(term_records(entries), k)) as usize,
    )
}

/// The postings ranges written for `entries`, relative to the postings
/// section.
spec fn written_ranges(entries: Entries) -> Seq<(usize, usize)> {
    Seq::new(
        entries.len(),
        |k: int| (postings_start_of(entries, k) as usize, postings_start_of(entries, k + 1) as usize),
    )
}

proof fn lemma_written_record_position(entries: Entries, document_count: DocumentId, k: int)
    requires
        writable(entries),
        0 <= k < entries.len(),
    ensures
        ({
            let file = spec_segment_file(entries, document_count);
            let start = written_offsets(entries)[k];
            let end = record_end(
                written_offsets(entries),
                k,
                postings_section_start(entries) as usize,
            );
            &&& start < end <= file.len() <= usize::MAX
            &&& file.subrange(start as int, end as int) == spec_term_record(entries, k)
            &&& term_records_start(entries) <= start < postings_section_start(entries)
            &&& start == term_records_start(entries) + part_start(term_records(entries), k)
        }),
{
    lemma_written_sizes(entries, document_count);
    lemma_written_term_bytes(entries, document_count, k);
    let records = term_records(entries);
    let payload = spec_segment_payload(entries, document_count);
    let file = spec_segment_file(entries, document_count);
    if k + 1 < entries.len() {
        lemma_written_term_bytes(entries, document_count, k + 1);
    } else {
        lemma_concat_length(records);
    }
    let start = term_records_start(entries) + part_start(records, k);
    let end = term_records_start(entries) + part_start(records, k + 1);
    lemma_le_round_trips();
    assert(file =~= payload + spec_u32_to_le_bytes(crc32(payload)));
    assert(file.subrange(start as int, end as int) =~= payload.subrange(start as int, end as int));
}

proof fn lemma_first_offset_problem_written(entries: Entries, document_count: DocumentId, k: nat)
    requires
        writable(entries),
        k <= entries.len(),
    ensures
        first_offset_problem(
            offset_table(entries),
            k,
            entries.len(),
            term_records_start(entries) as usize,
            postings_section_start(entries) as usize,
        ) is None,
    decreases entries.len() - k,
{
    if k < entries.len() {
        lemma_table_entry_written(entries, document_count, k as int);
        lemma_written_record_position(entries, document_count, k as int);
        if k > 0 {
            lemma_table_entry_written(entries, document_count, k - 1);
            lemma_written_record_position(entries, document_count, k - 1);
            lemma_concat_part(term_records(entries), k - 1);
        }
        lemma_first_offset_problem_written(entries, document_count, k + 1);
    }
}

proof fn lemma_table_entry_written(entries: Entries, document_count: DocumentId, k: int)
    requires
        writable(entries),
        0 <= k < entries.len(),
    ensures
        table_entry(offset_table(entries), k) == written_offsets(entries)[k],
{
    lemma_written_sizes(entries, document_count);
    lemma_written_term_bytes(entries, document_count, k);
    lemma_written_record_position(entries, document_count, k);
    lemma_le_round_trips();
    let payload = spec_segment_payload(entries, document_count);
    let header = segment_header(
        document_count,
        entries.len() as u32,
        postings_section_start(entries) as u64,
    );
    let table = offset_table(entries);
    assert(payload =~= header + table + (concat(term_records(entries)) + concat(
        encoded_postings(entries),
    )));
    lemma_subrange_within(
        header,
        table,
        concat(term_records(entries)) + concat(encoded_postings(entries)),
        TERM_OFFSET_LENGTH * k,
        TERM_OFFSET_LENGTH * k + 8,
    );
}

proof fn lemma_validate_written_terms(entries: Entries, document_count: DocumentId, k: nat)
    requires
        writable(entries),
        readable_terms(entries),
        dictionary_sorted(entries),
        documents_known(entries, document_count),
        k <= entries.len(),
    ensures
        validate_terms_from(
            spec_segment_file(entries, document_count),
            written_offsets(entries),
            k,
            postings_section_start(entries) as usize,
            document_count,
            concat(encoded_postings(entries)),
            if k == 0 {
                None
            } else {
                Some(entries[k - 1].0)
            },
        ) == Ok::<Seq<(usize, usize)>, ValidationFailure>(
            written_ranges(entries).subrange(k as int, entries.len() as int),
        ),
    decreases entries.len() - k,
{
    let n = entries.len();
    if k < n {
        let offsets = written_offsets(entries);
        let file = spec_segment_file(entries, document_count);
        let postings_bytes = concat(encoded_postings(entries));
        let start = offsets[k as int] as nat;
        let end = record_end(offsets, k as int, postings_section_start(entries) as usize) as nat;
        assert(spec_validate_term_record(file, start, end, document_count, postings_bytes) == Ok::<
            (Seq<char>, (usize, usize)),
            ValidationFailure,
        >((entries[k as int].0, written_ranges(entries)[k as int]))) by {
            lemma_written_sizes(entries, document_count);
            lemma_written_record_position(entries, document_count, k as int);
            lemma_validate_written_record(
                entries,
                k as int,
                file,
                start,
                end,
                document_count,
                postings_bytes,
            );
        }
        if k > 0 {
            assert(lex_less(term_bytes(entries[k - 1].0), term_bytes(entries[k as int].0))) by {
                let keys = dictionary_keys(entries);
                assert(lex_less(keys[k - 1], keys[k as int]));
            }
        }
        lemma_validate_written_terms(entries, document_count, k + 1);
        assert(seq![written_ranges(entries)[k as int]] + written_ranges(entries).subrange(
            k + 1int,
            n as int,
        ) =~= written_ranges(entries).subrange(k as int, n as int));
    } else {
        assert(written_ranges(entries).subrange(k as int, n as int) =~= Seq::<(usize, usize)>::empty());
    }
}

proof fn lemma_sort_ordered(ranges: Seq<(usize, usize)>)
    requires
        forall|a: int, b: int| 0 <= a < b < ranges.len() ==> ranges[a].0 <= ranges[b].0,
    ensures
        sort_by_start(ranges) == ranges,
    decreases ranges.len(),
{
    if ranges.len() > 0 {
        lemma_sort_ordered(ranges.drop_last());
        assert(ranges.drop_last().push(ranges.last()) =~= ranges);
    }
}

proof fn lemma_written_coverage(entries: Entries, k: nat)
    requires
        writable(entries),
        k <= entries.len(),
    ensures
        coverage_from(
            written_ranges(entries),
            k,
            postings_start_of(entries, k as int),
            concat(encoded_postings(entries)).len(),
        ) == Ok::<(), ValidationFailure>(()),
    decreases entries.len() - k,
{
    if k < entries.len() {
        lemma_entry_fine(entries, k as int);
        lemma_encode_nonempty(entries[k as int].1);
        lemma_concat_part(encoded_postings(entries), k as int);
        lemma_part_start_grows(encoded_postings(entries), k + 1int, entries.len() as int);
        lemma_concat_length(encoded_postings(entries));
        lemma_written_sizes(entries, 0);
        lemma_written_coverage(entries, k + 1);
    } else {
        lemma_concat_length(encoded_postings(entries));
    }
}

/// The segment the writer produces for `entries` passes full validation,
/// with the layout the writer laid out, when its terms are readable and
/// strictly increasing and its postings name only documents below
/// `document_count`.
pub proof fn lemma_validate_written_segment(entries: Entries, document_count: DocumentId)
    requires
        writable(entries),
        readable_terms(entries),
        dictionary_sorted(entries),
        documents_known(entries, document_count),
    ensures
        spec_validate_segment(spec_segment_file(entries, document_count)) == Ok::<
            SegmentLayout,
            ValidationFailure,
        >(written_layout(entries, document_count)),
{
    lemma_written_sizes(entries, document_count);
    lemma_le_round_trips();
    let n = entries.len();
    let payload = spec_segment_payload(entries, document_count);
    let file = spec_segment_file(entries, document_count);
    let header = segment_header(
        document_count,
        n as u32,
        postings_section_start(entries) as u64,
    );
    let table = offset_table(entries);
    let records = concat(term_records(entries));
    let postings_bytes = concat(encoded_postings(entries));
    assert(file =~= payload + spec_u32_to_le_bytes(crc32(payload)));
    assert(file.subrange(0, file.len() - CHECKSUM_LENGTH) =~= payload);
    assert(file.subrange(file.len() - CHECKSUM_LENGTH, file.len() as int) =~= spec_u32_to_le_bytes(
        crc32(payload),
    ));
    let head = file.subrange(0, HEADER_LENGTH as int);
    assert(head =~= header);
    assert(head.subrange(0, 8) =~= spec_magic(FileType::Segment));
    assert(head.subrange(8, 10) =~= spec_u16_to_le_bytes(FORMAT_VERSION));
    assert(head.subrange(10, 14) =~= spec_u32_to_le_bytes(document_count));
    assert(head.subrange(14, 18) =~= spec_u32_to_le_bytes(n as u32));
    assert(head.subrange(18, 26) =~= spec_u64_to_le_bytes(postings_section_start(entries) as u64));
    if n > 0 {
        lemma_part_start_grows(term_records(entries), 0, n as int);
        let records_start = term_records_start(entries);
        let postings_start = postings_section_start(entries);
        assert(file.subrange(HEADER_LENGTH as int, records_start as int) =~= table);
        lemma_first_offset_problem_written(entries, document_count, 0);
        lemma_table_entry_written(entries, document_count, 0);
        assert(part_start(term_records(entries), 0) == 0) by {
            assert(term_records(entries).subrange(0, 0) =~= Seq::<Seq<u8>>::empty());
        }
        assert(Seq::new(n, |k: int| table_entry(table, k) as usize) =~= written_offsets(entries)) by {
            assert forall|k: int| 0 <= k < n implies table_entry(table, k) as usize == written_offsets(
                entries,
            )[k] by {
                lemma_table_entry_written(entries, document_count, k);
            }
        }
        assert(file.subrange(postings_start as int, file.len() - CHECKSUM_LENGTH) =~= postings_bytes);
        lemma_validate_written_terms(entries, document_count, 0);
        assert(written_ranges(entries).subrange(0, n as int) =~= written_ranges(entries));
        assert forall|a: int, b: int| 0 <= a < b < n implies written_ranges(entries)[a].0
            <= written_ranges(entries)[b].0 by {
            lemma_part_start_grows(encoded_postings(entries), a, b);
            lemma_part_start_grows(encoded_postings(entries), b, n as int);
            lemma_concat_length(encoded_postings(entries));
        }
        lemma_sort_ordered(written_ranges(entries));
        lemma_written_coverage(entries, 0);
        assert(postings_start_of(entries, 0) == 0) by {
            assert(encoded_postings(entries).subrange(0, 0) =~= Seq::<Seq<u8>>::empty());
        }
    } else {
        assert(term_records(entries) =~= Seq::<Seq<u8>>::empty());
        assert(encoded_postings(entries) =~= Seq::<Seq<u8>>::empty());
    }
}

/// Every term the writer accepts has postings.
pub proof fn lemma_postings_present(entries: Entries, i: int)
    requires
        writable(entries),
        0 <= i < entries.len(),
    ensures
        entries[i].1.len() > 0,
{
    lemma_entry_fine(entries, i);
}

} // verus!
