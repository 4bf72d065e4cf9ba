//! Single-term lookup in one segment: a binary search of the segment's
//! sorted dictionary, then a lazy decoder over the matching postings.

use crate::binary_file::ErrorKind;
use crate::bytes_order::{compare_bytes, lemma_lex_order, lex_less, Comparison};
use crate::inverted_index::term_bytes;
use crate::inverted_index::{dictionary_keys, dictionary_sorted, postings_of};
use crate::model::{DocumentId, Posting};
use crate::postings::{self, drain, initial_state, DecoderState, PostingsDecoder};
use crate::segment_codec::{spec_segment_file, Entries};
use crate::segment_round_trip::{lemma_read_written_term, readable_terms, writable, written_layout};
use crate::segment_reader::{
    all_alphanumeric, describes, is_alphanumeric_text, read_error_message, spec_get_postings,
    spec_get_term,
    SegmentFailure, SegmentLayout, SegmentReadError, SegmentReader,
};
use vstd::prelude::*;
use vstd::string::StringSliceAdditionalSpecFns;

verus! {

/// Whether `term` can be looked up: one nonempty word of ASCII letters and
/// digits.
pub open spec fn valid_query(term: Seq<char>) -> bool {
    term.len() > 0 && all_alphanumeric(term)
}

/// Why a lookup failed.
#[derive(Debug, PartialEq, Eq)]
pub enum QueryError {
    InvalidQuery,
    Segment(SegmentReadError),
    ComparisonCountOverflow,
    EncodedBytesOverflow,
}

impl QueryError {
    /// The class of the error.
    pub fn kind(&self) -> (kind: ErrorKind)
        ensures
            kind == (match self {
                QueryError::InvalidQuery => ErrorKind::InvalidInput,
                QueryError::Segment(error) => match error {
                    SegmentReadError::File(crate::binary_file::FileError::TooSmall(_)) => ErrorKind::UnexpectedEof,
                    SegmentReadError::Field(e) => if e.problem
                        == crate::binary_file::FieldProblem::Truncated {
                        ErrorKind::UnexpectedEof
                    } else {
                        ErrorKind::InvalidData
                    },
                    SegmentReadError::TermIndexOutOfRange => ErrorKind::InvalidInput,
                    _ => ErrorKind::InvalidData,
                },
                _ => ErrorKind::InvalidData,
            }),
    {
        match self {
            QueryError::InvalidQuery => ErrorKind::InvalidInput,
            QueryError::Segment(error) => error.kind(),
            _ => ErrorKind::InvalidData,
        }
    }
}

/// The message of a lookup error.
pub open spec fn query_error_message(error: QueryError) -> Seq<char> {
    match error {
        QueryError::InvalidQuery => "query must be one ASCII-alphanumeric word"@,
        QueryError::Segment(e) => read_error_message(e),
        QueryError::ComparisonCountOverflow => "dictionary comparison count overflow"@,
        QueryError::EncodedBytesOverflow => "encoded postings byte count overflow"@,
    }
}

impl QueryError {
    /// The error's message.
    pub fn message(&self) -> (message: String)
        ensures
            message@ == query_error_message(*self),
    {
        match self {
            QueryError::InvalidQuery => String::from_str("query must be one ASCII-alphanumeric word"),
            QueryError::Segment(e) => e.message(),
            QueryError::ComparisonCountOverflow => String::from_str(
                "dictionary comparison count overflow",
            ),
            QueryError::EncodedBytesOverflow => String::from_str(
                "encoded postings byte count overflow",
            ),
        }
    }
}

/// Whether `error` reports the segment failure `failure`.
pub open spec fn reports(error: QueryError, failure: SegmentFailure) -> bool {
    error matches QueryError::Segment(e) && describes(e, failure)
}

/// Checks that `term` is one ASCII-alphanumeric word.
pub fn validate_query_term(term: &str) -> (result: Result<(), QueryError>)
    ensures
        result is Ok <==> valid_query(term@),
        result matches Err(e) ==> e == QueryError::InvalidQuery,
{
    if term.unicode_len() == 0 || !is_alphanumeric_text(term) {
        return Err(QueryError::InvalidQuery);
    }
    Ok(())
}

/// The binary search for `term` among dictionary positions `low..high` of
/// the segment `bytes`, having made `comparisons` comparisons so far: the
/// position of the term, if found, and the number of comparisons, or the
/// failure reading a probed term.
pub open spec fn search(
    bytes: Seq<u8>,
    layout: SegmentLayout,
    term: Seq<char>,
    low: nat,
    high: nat,
    comparisons: nat,
) -> Result<(Option<u32>, nat), SegmentFailure>
    decreases high - low,
{
    if low >= high {
        Ok((None, comparisons))
    } else {
        let middle = low + (high - low) / 2;
        match spec_get_term(bytes, layout, middle as u32) {
            Err(failure) => Err(failure),
            Ok(probe) => if probe == term {
                Ok((Some(middle as u32), comparisons + 1))
            } else if lex_less(term_bytes(probe), term_bytes(term)) {
                search(bytes, layout, term, (middle + 1) as nat, high, comparisons + 1)
            } else {
                search(bytes, layout, term, low, middle as nat, comparisons + 1)
            },
        }
    }
}

/// The number of binary digits of `n`: one more than the base-2 logarithm of
/// `n` rounded down, for positive `n`, and zero for zero.
pub open spec fn bit_length(n: nat) -> nat
    decreases n,
{
    if n == 0 {
        0
    } else {
        1 + bit_length(n / 2)
    }
}

/// Two to the power `e`.
pub open spec fn power_of_two(e: nat) -> nat
    decreases e,
{
    if e == 0 {
        1
    } else {
        2 * power_of_two((e - 1) as nat)
    }
}

/// A positive `n` lies between two to the power `bit_length(n) - 1` and two
/// to the power `bit_length(n)`, the first included.
pub proof fn lemma_bit_length_bounds(n: nat)
    requires
        n > 0,
    ensures
        power_of_two((bit_length(n) - 1) as nat) <= n < power_of_two(bit_length(n)),
    decreases n,
{
    if n >= 2 {
        let m = n / 2;
        lemma_bit_length_bounds(m);
        assert(bit_length(n) == 1 + bit_length(m));
        assert(bit_length(m) >= 1);
        assert(power_of_two(bit_length(m)) == 2 * power_of_two((bit_length(m) - 1) as nat));
    } else {
        assert(bit_length(0) == 0);
        assert(bit_length(1) == 1);
        assert(power_of_two(0) == 1);
        assert(power_of_two(1) == 2 * power_of_two(0));
    }
}

/// A larger range never has fewer binary digits.
proof fn lemma_bit_length_monotone(m: nat, n: nat)
    requires
        m <= n,
    ensures
        bit_length(m) <= bit_length(n),
    decreases n,
{
    if m > 0 {
        lemma_bit_length_monotone(m / 2, n / 2);
    }
}

/// A search of a range of `high - low` positions makes no comparison when
/// the range is empty, and otherwise at least one and at most as many as the
/// range's size has binary digits.
proof fn lemma_search_comparisons_between(
    bytes: Seq<u8>,
    layout: SegmentLayout,
    term: Seq<char>,
    low: nat,
    high: nat,
    comparisons: nat,
)
    ensures
        search(bytes, layout, term, low, high, comparisons) matches Ok((_, count)) ==> (low
            >= high ==> count == comparisons) && (low < high ==> comparisons + 1 <= count
            <= comparisons + bit_length((high - low) as nat)),
    decreases high - low,
{
    if low < high {
        let n = (high - low) as nat;
        let middle = low + n / 2;
        assert(bit_length(n) == 1 + bit_length(n / 2));
        lemma_search_comparisons_between(bytes, layout, term, (middle + 1) as nat, high, comparisons + 1);
        lemma_search_comparisons_between(bytes, layout, term, low, middle as nat, comparisons + 1);
        if middle + 1 < high {
            lemma_bit_length_monotone((high - (middle + 1)) as nat, n / 2);
        }
    }
}

/// A lookup in a dictionary of `n` terms makes no comparison when `n` is
/// zero, and otherwise at least one and at most the base-2 logarithm of `n`,
/// rounded down, plus one.
pub proof fn lemma_search_comparisons(bytes: Seq<u8>, layout: SegmentLayout, term: Seq<char>)
    ensures
        search(bytes, layout, term, 0, layout.term_count as nat, 0) matches Ok((_, count)) ==> (
        layout.term_count == 0 ==> count == 0) && (layout.term_count > 0 ==> 1 <= count
            <= bit_length(layout.term_count as nat) && power_of_two((count - 1) as nat)
            <= layout.term_count),
{
    lemma_search_comparisons_between(bytes, layout, term, 0, layout.term_count as nat, 0);
    if layout.term_count > 0 {
        lemma_bit_length_bounds(layout.term_count as nat);
        if let Ok((_, count)) = search(bytes, layout, term, 0, layout.term_count as nat, 0) {
            lemma_power_of_two_monotone((count - 1) as nat, (bit_length(layout.term_count as nat) - 1) as nat);
        }
    }
}

/// Powers of two grow with the exponent.
proof fn lemma_power_of_two_monotone(d: nat, e: nat)
    requires
        d <= e,
    ensures
        power_of_two(d) <= power_of_two(e),
    decreases e,
{
    if d < e {
        lemma_power_of_two_monotone(d, (e - 1) as nat);
    }
}

/// What looking up the valid query `term` in the segment `bytes` gives: the
/// state of a decoder over its postings if found, and the number of
/// dictionary comparisons; or the failure reading the segment.
pub open spec fn segment_lookup(bytes: Seq<u8>, layout: SegmentLayout, term: Seq<char>) -> Result<
    (Option<DecoderState>, nat),
    SegmentFailure,
> {
    match search(bytes, layout, term, 0, layout.term_count as nat, 0) {
        Err(failure) => Err(failure),
        Ok((None, comparisons)) => Ok((None, comparisons)),
        Ok((Some(index), comparisons)) => match spec_get_postings(bytes, layout, index) {
            Err(failure) => Err(failure),
            Ok(state) => Ok((Some(state), comparisons)),
        },
    }
}

/// What a lookup of `term` in `reader` finds: nothing, or a decoder over the
/// postings at the position found, and the number of dictionary comparisons.
pub struct TermQueryResult<'a> {
    pub postings: Option<PostingsDecoder<'a>>,
    pub dictionary_comparisons: u32,
}

/// Looks terms up in one segment.
pub struct QueryEngine {
    segment_reader: SegmentReader,
}

impl QueryEngine {
    /// The segment being searched.
    pub closed spec fn reader(&self) -> SegmentReader {
        self.segment_reader
    }

    /// Opens the segment file `bytes` for lookups.
    pub fn new(bytes: Vec<u8>) -> (result: Result<QueryEngine, SegmentReadError>)
        ensures
            match crate::segment_reader::spec_open(bytes@) {
                Ok((layout, checksum)) => result matches Ok(engine) && engine.reader().contents()
                    == bytes@ && engine.reader().layout() == layout
                    && engine.reader().stored_checksum() == checksum,
                Err(failure) => result matches Err(e) && describes(e, failure),
            },
    {
        match SegmentReader::open(bytes) {
            Ok(segment_reader) => Ok(QueryEngine { segment_reader }),
            Err(error) => Err(error),
        }
    }

    /// A lookup engine over an open segment.
    pub fn from_reader(segment_reader: SegmentReader) -> (engine: QueryEngine)
        ensures
            engine.reader() == segment_reader,
    {
        QueryEngine { segment_reader }
    }

    /// Looks `term` up and returns a decoder over its postings, if found.
    pub fn query_term(&self, term: &str) -> (result: Result<Option<PostingsDecoder<'_>>, QueryError>)
        ensures
            !valid_query(term@) ==> result == Err::<Option<PostingsDecoder<'_>>, QueryError>(
                QueryError::InvalidQuery,
            ),
            valid_query(term@) ==> match search(
                self.reader().contents(),
                self.reader().layout(),
                term@,
                0,
                self.reader().layout().term_count as nat,
                0,
            ) {
                Err(failure) => result matches Err(e) && reports(e, failure),
                Ok((None, _)) => result matches Ok(found) && found is None,
                Ok((Some(index), _)) => match spec_get_postings(
                    self.reader().contents(),
                    self.reader().layout(),
                    index,
                ) {
                    Ok(state) => result matches Ok(found) && found matches Some(decoder)
                        && decoder.wf() && decoder.state() == state,
                    Err(failure) => result matches Err(e) && reports(e, failure),
                },
            },
    {
        match self.query_term_with_stats(term) {
            Ok(found) => Ok(found.postings),
            Err(error) => Err(error),
        }
    }

    /// Looks `term` up by binary search of the dictionary, counting the
    /// terms compared, and returns a decoder over its postings, if found.
    pub fn query_term_with_stats(&self, term: &str) -> (result: Result<TermQueryResult<'_>, QueryError>)
        ensures
            !valid_query(term@) ==> (result matches Err(e) && e == QueryError::InvalidQuery),
            valid_query(term@) ==> match search(
                self.reader().contents(),
                self.reader().layout(),
                term@,
                0,
                self.reader().layout().term_count as nat,
                0,
            ) {
                Err(failure) => result matches Err(e) && reports(e, failure),
                Ok((None, comparisons)) => result matches Ok(found) && found.postings is None
                    && found.dictionary_comparisons == comparisons,
                Ok((Some(index), comparisons)) => match spec_get_postings(
                    self.reader().contents(),
                    self.reader().layout(),
                    index,
                ) {
                    Ok(state) => result matches Ok(found) && found.postings matches Some(decoder)
                        && decoder.wf() && decoder.state() == state && found.dictionary_comparisons
                        == comparisons,
                    Err(failure) => result matches Err(e) && reports(e, failure),
                },
            },
    {
        match validate_query_term(term) {
            Ok(()) => {},
            Err(error) => return Err(error),
        }
        let reader = &self.segment_reader;
        let ghost bytes = reader.contents();
        let ghost layout = reader.layout();
        let term_count = reader.term_count();
        if term_count == 0 {
            return Ok(TermQueryResult { postings: None, dictionary_comparisons: 0 });
        }
        let mut first_term_index: u32 = 0;
        let mut last_term_index: u32 = term_count;
        let mut dictionary_comparisons: u32 = 0;
        while first_term_index < last_term_index
            invariant
                valid_query(term@),
                first_term_index <= last_term_index <= term_count,
                term_count == layout.term_count,
                bytes == reader.contents(),
                layout == reader.layout(),
                bytes == self.reader().contents(),
                layout == self.reader().layout(),
                dictionary_comparisons + (last_term_index - first_term_index) <= term_count,
                search(bytes, layout, term@, 0, term_count as nat, 0) == search(
                    bytes,
                    layout,
                    term@,
                    first_term_index as nat,
                    last_term_index as nat,
                    dictionary_comparisons as nat,
                ),
            decreases last_term_index - first_term_index,
        {
            let middle = first_term_index + (last_term_index - first_term_index) / 2;
            let middle_term = match reader.get_term(middle) {
                Ok(found) => found,
                Err(error) => return Err(QueryError::Segment(error)),
            };
            dictionary_comparisons = dictionary_comparisons + 1;
            let order = compare_bytes(middle_term.as_bytes(), term.as_bytes());
            proof {
                lemma_lex_order(term_bytes(middle_term@), term_bytes(term@), term_bytes(term@));
                crate::inverted_index::lemma_term_bytes_injective(middle_term@, term@);
            }
            match order {
                Comparison::Equal => {
                    let decoder = match reader.get_postings(middle) {
                        Ok(decoder) => decoder,
                        Err(error) => return Err(QueryError::Segment(error)),
                    };
                    return Ok(TermQueryResult { postings: Some(decoder), dictionary_comparisons });
                },
                Comparison::Less => {
                    first_term_index = middle + 1;
                },
                Comparison::Greater => {
                    last_term_index = middle;
                },
            }
        }
        Ok(TermQueryResult { postings: None, dictionary_comparisons })
    }

    /// The number of documents the segment covers.
    pub fn document_count(&self) -> (count: u32)
        ensures
            count == self.reader().layout().document_count,
    {
        self.segment_reader.document_count()
    }

    /// The number of terms in the segment's dictionary.
    pub fn term_count(&self) -> (count: u32)
        ensures
            count == self.reader().layout().term_count,
    {
        self.segment_reader.term_count()
    }
}

proof fn lemma_search_written(
    entries: Entries,
    document_count: DocumentId,
    term: Seq<char>,
    low: nat,
    high: nat,
    comparisons: nat,
)
    requires
        writable(entries),
        readable_terms(entries),
        dictionary_sorted(entries),
        low <= high <= entries.len(),
        forall|i: int| 0 <= i < low ==> lex_less(term_bytes(#[trigger] entries[i].0), term_bytes(term)),
        forall|i: int|
            high <= i < entries.len() ==> lex_less(term_bytes(term), term_bytes(#[trigger] entries[i].0)),
    ensures
        search(
            spec_segment_file(entries, document_count),
            written_layout(entries, document_count),
            term,
            low,
            high,
            comparisons,
        ) matches Ok((found, _)) && match found {
            Some(index) => index < entries.len() && entries[index as int].0 == term,
            None => forall|i: int| 0 <= i < entries.len() ==> #[trigger] entries[i].0 != term,
        },
    decreases high - low,
{
    let keys = dictionary_keys(entries);
    if low >= high {
        assert forall|i: int| 0 <= i < entries.len() implies #[trigger] entries[i].0 != term by {
            lemma_lex_order(term_bytes(term), term_bytes(term), term_bytes(term));
            if i < low {
                assert(lex_less(term_bytes(entries[i].0), term_bytes(term)));
            } else {
                assert(lex_less(term_bytes(term), term_bytes(entries[i].0)));
            }
        }
    } else {
        let middle = low + (high - low) / 2;
        lemma_read_written_term(entries, document_count, middle as u32);
        let probe = entries[middle as int].0;
        crate::inverted_index::lemma_term_bytes_injective(probe, term);
        lemma_lex_order(term_bytes(probe), term_bytes(term), term_bytes(term));
        if probe == term {
        } else if lex_less(term_bytes(probe), term_bytes(term)) {
            assert forall|i: int| 0 <= i < middle + 1 implies lex_less(
                term_bytes(#[trigger] entries[i].0),
                term_bytes(term),
            ) by {
                if i < middle {
                    assert(lex_less(keys[i], keys[middle as int]));
                    lemma_lex_order(keys[i], keys[middle as int], term_bytes(term));
                }
            }
            lemma_search_written(
                entries,
                document_count,
                term,
                (middle + 1) as nat,
                high,
                comparisons + 1,
            );
        } else {
            assert forall|i: int| middle <= i < entries.len() implies lex_less(
                term_bytes(term),
                term_bytes(#[trigger] entries[i].0),
            ) by {
                if i > middle {
                    assert(lex_less(keys[middle as int], keys[i]));
                    lemma_lex_order(term_bytes(term), keys[middle as int], keys[i]);
                }
            }
            lemma_search_written(
                entries,
                document_count,
                term,
                low,
                middle as nat,
                comparisons + 1,
            );
        }
    }
}

/// Looking a term up in the segment written for a sorted index with
/// readable terms finds it exactly when the index has it, and then the
/// decoder handed out starts on the encoding of that term's postings,
/// expecting as many postings as the index holds for it, and produces them
/// in order before reporting the end.
pub proof fn lemma_lookup_written_segment(
    entries: Entries,
    document_count: DocumentId,
    term: Seq<char>,
)
    requires
        writable(entries),
        readable_terms(entries),
        dictionary_sorted(entries),
    ensures
        ({
            let file = spec_segment_file(entries, document_count);
            let layout = written_layout(entries, document_count);
            search(file, layout, term, 0, layout.term_count as nat, 0) matches Ok((found, _)) && match found {
                Some(index) => postings_of(entries, term).len() > 0 && spec_get_postings(
                    file,
                    layout,
                    index,
                ) == Ok::<DecoderState, SegmentFailure>(
                    initial_state(
                        postings::spec_encode(postings_of(entries, term)),
                        postings_of(entries, term).len(),
                    ),
                ) && drain(
                    initial_state(
                        postings::spec_encode(postings_of(entries, term)),
                        postings_of(entries, term).len(),
                    ),
                    postings_of(entries, term).len() + 1,
                ) == postings_of(entries, term).map_values(
                    |posting: Posting| Some(Ok::<Posting, postings::DecodeError>(posting)),
                ).push(None),
                None => postings_of(entries, term) == Seq::<Posting>::empty(),
            }
        }),
{
    lemma_search_written(entries, document_count, term, 0, entries.len(), 0);
    let layout = written_layout(entries, document_count);
    assert(layout.term_count as nat == entries.len());
    let file = spec_segment_file(entries, document_count);
    if let Ok((Some(index), _)) = search(file, layout, term, 0, entries.len(), 0) {
        lemma_read_written_term(entries, document_count, index);
        crate::inverted_index::lemma_unique_term(entries, index as int);
        crate::segment_round_trip::lemma_postings_present(entries, index as int);
    }
}

} // verus!
