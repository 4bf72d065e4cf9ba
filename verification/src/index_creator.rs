//! Creating an index from a corpus: validate every document, index them all,
//! finalize the index and encode it as a segment, timing each phase.

use crate::clock::{elapsed, now};
use crate::dictionary::dictionary_map;
use crate::document::{
    first_invalid_token, first_line_problem, lemma_tokens_nonempty, tokens, validate_doc,
};
use crate::index_builder::{
    corpus_progress, first_defect, first_posting_defect, lemma_built_index_has_no_defect,
    lemma_document_keeps_well_built, lemma_progress_counts_documents, occurrences, posting_defect,
    term_defect, well_built, with_document, CorpusProgress, IndexBuilder,
};
use crate::inverted_index::{dictionary_sorted, postings_of, term_bytes, total_postings, InvertedIndex};
use crate::model::{DocumentId, Posting};
use crate::postings::{self, drain, initial_state, DecodeError, DecoderState};
use crate::query_engine::{lemma_lookup_written_segment, search};
use crate::segment_codec::{
    build_outcome, build_segment, encode_error_message, entry_problem, first_problem_from,
    lemma_first_problem_from, size_problem, spec_segment_file, Entries, SegmentEncodeError,
};
use crate::segment_reader::{all_alphanumeric, spec_get_postings, SegmentFailure};
use crate::segment_round_trip::{readable_terms, writable, written_layout};
use crate::text::join2;
use core::time::Duration;
use vstd::prelude::*;

verus! {

/// A corpus turned into an index and the bytes of its segment, with the
/// token count and the time each phase took.
pub struct CreatedIndex {
    pub index: InvertedIndex,
    pub segment: Vec<u8>,
    pub token_count: u64,
    pub validation_duration: Duration,
    pub indexing_duration: Duration,
    pub finalization_duration: Duration,
}

/// Where indexing starts: no postings, no document, no token.
pub open spec fn empty_progress() -> CorpusProgress {
    CorpusProgress { map: Map::empty(), next: 0, tokens: 0, error: None }
}

/// What finalizing and encoding the dictionary `entries` of `document_count`
/// documents gives: an error when there are more postings than a `usize`
/// counts or when the segment cannot be encoded, and otherwise the index
/// with these entries and its segment.
pub open spec fn finish_outcome(
    result: Result<CreatedIndex, String>,
    entries: Entries,
    document_count: DocumentId,
    token_count: nat,
) -> bool {
    if total_postings(entries, entries.len() as int) > usize::MAX {
        result matches Err(message) && message@ == "posting count exceeds usize"@
    } else {
        match result {
            Ok(created) => created.index.entries() == entries && created.index.spec_document_count()
                == document_count && created.token_count == token_count && build_outcome(
                Ok(created.segment),
                entries,
                document_count,
            ),
            Err(message) => exists|error: SegmentEncodeError|
                build_outcome(Err(error), entries, document_count) && message@
                    == "failed to write segment: "@ + encode_error_message(error),
        }
    }
}

/// Creates the index of a corpus, one document per line: the first problem
/// that validation finds, or else the first error indexing meets, stops it;
/// otherwise the index is finalized and encoded as a segment.
pub fn create_index(lines: &[String]) -> (result: Result<CreatedIndex, String>)
    requires
        lines@.len() <= u32::MAX,
    ensures
        match first_line_problem(lines@, 0) {
            Some((_, message)) => result matches Err(text) && text@ == message,
            None => {
                let reached = corpus_progress(empty_progress(), lines@, lines@.len() as int);
                match reached.error {
                    Some(message) => result matches Err(text) && text@ == message,
                    None => exists|entries: Entries|
                        dictionary_sorted(entries) && dictionary_map(entries) == reached.map
                            && finish_outcome(result, entries, lines@.len() as DocumentId, reached.tokens),
                }
            },
        },
{
    let validation_started = now();
    match validate_doc(lines) {
        Ok(()) => {},
        Err(message) => return Err(message),
    }
    let validation_duration = elapsed(&validation_started);

    let mut builder = IndexBuilder::new();
    assert(dictionary_map(builder.entries()) =~= Map::empty());
    assert(builder.progress() == empty_progress());
    let indexing_started = now();
    match builder.create_index(lines) {
        Ok(()) => {},
        Err(message) => return Err(message),
    }
    let indexing_duration = elapsed(&indexing_started);
    let token_count = builder.token_count();
    let ghost entries = builder.entries();
    let ghost reached = corpus_progress(empty_progress(), lines@, lines@.len() as int);
    proof {
        lemma_progress_counts_documents(empty_progress(), lines@, lines@.len() as int);
        lemma_built_index_has_no_defect(entries, lines@.len() as DocumentId);
    }

    let finalization_started = now();
    let index = match builder.finalize() {
        Ok(index) => index,
        Err(message) => {
            assert(finish_outcome(Err(message), entries, lines@.len() as DocumentId, reached.tokens));
            return Err(message);
        },
    };
    let finalization_duration = elapsed(&finalization_started);
    let _ = index.terms();

    let segment = match build_segment(&index) {
        Ok(segment) => segment,
        Err(error) => {
            let detail = error.message();
            let message = join2("failed to write segment: ", detail.as_str());
            assert(build_outcome(Err(error), entries, lines@.len() as DocumentId));
            return Err(message);
        },
    };
    Ok(
        CreatedIndex {
            index,
            segment,
            token_count,
            validation_duration,
            indexing_duration,
            finalization_duration,
        },
    )
}

/// The postings of `term` after the first `count` of `lines` are indexed:
/// one for each of those lines whose tokens include the term, in line order,
/// naming the line's position and the term's number of occurrences in it.
pub open spec fn corpus_postings(lines: Seq<String>, count: int, term: Seq<char>) -> Seq<Posting>
    decreases count,
{
    if count <= 0 {
        Seq::empty()
    } else {
        let before = corpus_postings(lines, count - 1, term);
        let words = tokens(lines[count - 1]@);
        if words.contains(term) {
            before.push(
                Posting {
                    document_id: (count - 1) as DocumentId,
                    term_frequency: occurrences(words, term) as u32,
                },
            )
        } else {
            before
        }
    }
}

/// The index of the first `count` of `lines`: every term that occurs in one
/// of them, with its postings.
pub open spec fn corpus_index(lines: Seq<String>, count: int) -> Map<Seq<char>, Seq<Posting>> {
    Map::new(
        |term: Seq<char>| corpus_postings(lines, count, term).len() > 0,
        |term: Seq<char>| corpus_postings(lines, count, term),
    )
}

/// Indexing lines without an error gives the corpus index of those lines,
/// and numbers the documents by line.
pub proof fn lemma_corpus_progress_is_corpus_index(lines: Seq<String>, count: int)
    requires
        0 <= count <= lines.len(),
        count <= u32::MAX,
        corpus_progress(empty_progress(), lines, count).error is None,
    ensures
        corpus_progress(empty_progress(), lines, count).map == corpus_index(lines, count),
        corpus_progress(empty_progress(), lines, count).next == count,
    decreases count,
{
    if count == 0 {
        assert(corpus_index(lines, 0) =~= Map::empty());
    } else {
        let before = corpus_progress(empty_progress(), lines, count - 1);
        lemma_corpus_progress_is_corpus_index(lines, count - 1);
        let words = tokens(lines[count - 1]@);
        let after = corpus_progress(empty_progress(), lines, count);
        assert(after.map == with_document(before.map, words, (count - 1) as DocumentId));
        assert forall|term: Seq<char>|
            #![trigger corpus_postings(lines, count, term)]
            before.map.contains_key(term) || words.contains(term) implies with_document(
                before.map,
                words,
                (count - 1) as DocumentId,
            )[term] == corpus_postings(lines, count, term) by {
            if words.contains(term) && !before.map.contains_key(term) {
                assert(corpus_postings(lines, count - 1, term) =~= Seq::<Posting>::empty());
            }
        }
        assert(after.map =~= corpus_index(lines, count));
    }
}

/// A term with postings occurs in one of the lines.
proof fn lemma_posted_term_occurs(lines: Seq<String>, count: int, term: Seq<char>)
    requires
        0 <= count <= lines.len(),
        corpus_postings(lines, count, term).len() > 0,
    ensures
        exists|d: int| 0 <= d < count && tokens(#[trigger] lines[d]@).contains(term),
    decreases count,
{
    let words = tokens(lines[count - 1]@);
    if !words.contains(term) {
        lemma_posted_term_occurs(lines, count - 1, term);
    }
}

/// Lines without a problem hold only nonempty ASCII-alphanumeric tokens.
proof fn lemma_valid_lines_tokens(lines: Seq<String>, k: nat, d: int, term: Seq<char>)
    requires
        first_line_problem(lines, k) is None,
        k <= d < lines.len(),
        tokens(lines[d]@).contains(term),
    ensures
        term.len() > 0,
        all_alphanumeric(term),
    decreases d - k,
{
    if k < d {
        lemma_valid_lines_tokens(lines, k + 1, d, term);
    } else {
        let words = tokens(lines[d]@);
        let j = choose|j: int| 0 <= j < words.len() && words[j] == term;
        lemma_tokens_nonempty(lines[d]@);
        lemma_no_invalid_token(words, 0, j);
    }
}

proof fn lemma_no_invalid_token(words: Seq<Seq<char>>, k: nat, j: int)
    requires
        first_invalid_token(words, k) is None,
        k <= j < words.len(),
    ensures
        all_alphanumeric(words[j]),
    decreases j - k,
{
    if k < j {
        lemma_no_invalid_token(words, k + 1, j);
    }
}

proof fn lemma_no_defect_anywhere(entries: Entries, i: nat, document_count: DocumentId)
    requires
        first_defect(entries, i, document_count) is None,
    ensures
        forall|k: int| i <= k < entries.len() ==> term_defect(#[trigger] entries[k], document_count) is None,
    decreases entries.len() - i,
{
    if i < entries.len() {
        lemma_no_defect_anywhere(entries, i + 1, document_count);
    }
}

proof fn lemma_no_posting_defect_anywhere(postings: Seq<Posting>, j: nat, document_count: DocumentId)
    requires
        first_posting_defect(postings, j, document_count) is None,
    ensures
        forall|k: int| j <= k < postings.len() ==> #[trigger] posting_defect(postings, k, document_count) is None,
    decreases postings.len() - j,
{
    if j < postings.len() {
        lemma_no_posting_defect_anywhere(postings, j + 1, document_count);
    }
}

/// Postings whose identifiers strictly increase start at least at their
/// position.
proof fn lemma_identifier_at_least_position(postings: Seq<Posting>, document_count: DocumentId, k: int)
    requires
        0 <= k < postings.len(),
        forall|m: int| 0 <= m < postings.len() ==> #[trigger] posting_defect(postings, m, document_count) is None,
    ensures
        postings[k].document_id >= k,
    decreases k,
{
    assert(posting_defect(postings, k, document_count) is None);
    if k > 0 {
        lemma_identifier_at_least_position(postings, document_count, k - 1);
    }
}

/// An index without defects, over `document_count` documents, has postings
/// that the postings codec accepts for every term: nonempty, with strictly
/// increasing identifiers and nonzero frequencies, and no more postings than
/// documents. The segment writer then refuses it only for a term longer
/// than a `u32` counts, more terms than a `u32` counts, or a segment larger
/// than memory addresses.
pub proof fn lemma_defect_free_entries_write(entries: Entries, document_count: DocumentId)
    requires
        first_defect(entries, 0, document_count) is None,
    ensures
        forall|i: int|
            0 <= i < entries.len() ==> postings::spec_validate(#[trigger] entries[i].1) is Ok
                && entries[i].1.len() > 0 && entries[i].1.len() <= document_count,
        first_problem_from(entries, 0) is None <==> forall|i: int|
            0 <= i < entries.len() ==> term_bytes(#[trigger] entries[i].0).len() <= u32::MAX,
        entries.len() <= u32::MAX && first_problem_from(entries, 0) is None && size_problem(entries)
            is None ==> writable(entries),
{
    lemma_no_defect_anywhere(entries, 0, document_count);
    lemma_first_problem_from(entries, 0);
    assert forall|i: int| 0 <= i < entries.len() implies postings::spec_validate(
        #[trigger] entries[i].1,
    ) is Ok && entries[i].1.len() > 0 && entries[i].1.len() <= document_count by {
        let list = entries[i].1;
        assert(term_defect(entries[i], document_count) is None);
        lemma_no_posting_defect_anywhere(list, 0, document_count);
        assert forall|k: int| 0 <= k < list.len() implies #[trigger] postings::posting_error_at(list, k)
            is None by {
            assert(posting_defect(list, k, document_count) is None);
        }
        postings::lemma_validate_ok(list);
        lemma_identifier_at_least_position(list, document_count, list.len() - 1);
        assert(posting_defect(list, list.len() - 1, document_count) is None);
    }
    assert forall|i: int| 0 <= i < entries.len() implies (#[trigger] entry_problem(entries, i) is None
        <==> term_bytes(entries[i].0).len() <= u32::MAX) by {
        assert(postings::spec_validate(entries[i].1) is Ok);
    }
    if first_problem_from(entries, 0) is None {
        assert forall|i: int| 0 <= i < entries.len() implies term_bytes(#[trigger] entries[i].0).len()
            <= u32::MAX by {
            assert(entry_problem(entries, i) is None);
        }
    }
    if forall|i: int| 0 <= i < entries.len() ==> term_bytes(#[trigger] entries[i].0).len() <= u32::MAX {
        assert forall|i: int| 0 <= i < entries.len() implies #[trigger] entry_problem(entries, i) is None by {
            assert(term_bytes(entries[i].0).len() <= u32::MAX);
        }
    }
}

/// Indexing the first `count` lines without an error gives postings with
/// the shape that documents give them.
proof fn lemma_corpus_well_built(lines: Seq<String>, count: int)
    requires
        0 <= count <= lines.len(),
        lines.len() <= u32::MAX,
        corpus_progress(empty_progress(), lines, count).error is None,
    ensures
        well_built(corpus_progress(empty_progress(), lines, count).map, count as DocumentId),
    decreases count,
{
    if count > 0 {
        let before = corpus_progress(empty_progress(), lines, count - 1);
        if before.error is Some {
            assert(corpus_progress(empty_progress(), lines, count) == before);
        }
        lemma_corpus_well_built(lines, count - 1);
        lemma_progress_counts_documents(empty_progress(), lines, count - 1);
        lemma_document_keeps_well_built(
            before.map,
            lines[count - 1]@,
            before.tokens,
            (count - 1) as DocumentId,
        );
    }
}

/// The postings that indexing a valid corpus gives are accepted by the
/// postings codec for every term, and writing them as a segment fails only
/// on machine limits: a term longer than a `u32` counts, more terms than a
/// `u32` counts, or a segment larger than memory addresses.
pub proof fn lemma_created_index_writes(lines: Seq<String>, entries: Entries)
    requires
        lines.len() <= u32::MAX,
        corpus_progress(empty_progress(), lines, lines.len() as int).error is None,
        dictionary_sorted(entries),
        dictionary_map(entries) == corpus_progress(empty_progress(), lines, lines.len() as int).map,
    ensures
        forall|i: int|
            0 <= i < entries.len() ==> postings::spec_validate(#[trigger] entries[i].1) is Ok
                && entries[i].1.len() > 0,
        entries.len() <= u32::MAX && (forall|i: int|
            0 <= i < entries.len() ==> term_bytes(#[trigger] entries[i].0).len() <= u32::MAX)
            && size_problem(entries) is None ==> writable(entries) && forall|
            result: Result<Vec<u8>, SegmentEncodeError>,
        |
            #![trigger build_outcome(result, entries, lines.len() as DocumentId)]
            build_outcome(result, entries, lines.len() as DocumentId) ==> result is Ok,
{
    lemma_corpus_well_built(lines, lines.len() as int);
    lemma_built_index_has_no_defect(entries, lines.len() as DocumentId);
    lemma_defect_free_entries_write(entries, lines.len() as DocumentId);
}

/// The central promise of the index: looking a term up in the segment
/// created from a valid corpus (`segment`, built from the sorted dictionary
/// `entries` that indexing the lines gives) finds it exactly when some line
/// contains it, and then decodes, in line order, one posting for each line
/// that contains it, naming the line's position and the term's number of
/// occurrences in it.
pub proof fn lemma_created_segment_lookup(
    lines: Seq<String>,
    entries: Entries,
    segment: Vec<u8>,
    term: Seq<char>,
)
    requires
        lines.len() <= u32::MAX,
        first_line_problem(lines, 0) is None,
        corpus_progress(empty_progress(), lines, lines.len() as int).error is None,
        dictionary_sorted(entries),
        dictionary_map(entries) == corpus_progress(empty_progress(), lines, lines.len() as int).map,
        build_outcome(Ok(segment), entries, lines.len() as DocumentId),
    ensures
        ({
            let file = segment@;
            let layout = written_layout(entries, lines.len() as DocumentId);
            let expected = corpus_postings(lines, lines.len() as int, term);
            search(file, layout, term, 0, layout.term_count as nat, 0) matches Ok((found, _))
                && match found {
                Some(index) => expected.len() > 0 && spec_get_postings(file, layout, index) == Ok::<
                    DecoderState,
                    SegmentFailure,
                >(initial_state(postings::spec_encode(expected), expected.len())) && drain(
                    initial_state(postings::spec_encode(expected), expected.len()),
                    expected.len() + 1,
                ) == expected.map_values(
                    |posting: Posting| Some(Ok::<Posting, DecodeError>(posting)),
                ).push(None),
                None => expected.len() == 0,
            }
        }),
{
    let n = lines.len() as int;
    assert(writable(entries));
    assert(segment@ == spec_segment_file(entries, lines.len() as DocumentId));
    lemma_corpus_progress_is_corpus_index(lines, n);
    let map = dictionary_map(entries);
    assert forall|i: int| #![trigger entries[i]] 0 <= i < entries.len() implies entries[i].0.len() > 0
        && all_alphanumeric(entries[i].0) by {
        let t = entries[i].0;
        assert(map.contains_key(t));
        lemma_posted_term_occurs(lines, n, t);
        let d = choose|d: int| 0 <= d < n && tokens(#[trigger] lines[d]@).contains(t);
        lemma_valid_lines_tokens(lines, 0, d, t);
    }
    assert(readable_terms(entries));
    assert(postings_of(entries, term) == corpus_postings(lines, n, term)) by {
        assert(map == corpus_index(lines, n));
        if map.contains_key(term) {
            assert(map[term] == postings_of(entries, term));
            assert(corpus_index(lines, n)[term] == corpus_postings(lines, n, term));
        } else {
            assert(!(exists|i: int| 0 <= i < entries.len() && entries[i].0 == term));
            assert(postings_of(entries, term) == Seq::<Posting>::empty());
            assert(!corpus_index(lines, n).contains_key(term));
            assert(corpus_postings(lines, n, term) =~= Seq::<Posting>::empty());
        }
    }
    lemma_lookup_written_segment(entries, lines.len() as DocumentId, term);
}

} // verus!
