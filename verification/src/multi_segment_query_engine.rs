//! Lookup across the segments of a manifest: every segment is searched in
//! manifest order and the matching postings are chained, tagged with their
//! segment.

use crate::manifest::{
    first_violation, lemma_prefix_totals, lemma_valid_records, metadata_views, total_bytes, total_documents, total_terms, totals_fit,
    Manifest, SegmentMetadata, SegmentMetadataView,
};
use crate::model::SegmentId;
use crate::multi_segment_postings::{
    decoder_states, decoders_wf, lemma_multi_drain_increases, multi_drain, postings_increase,
    MultiSegmentPostings,
};
use crate::postings::{DecoderState, PostingsDecoder};
use crate::query_engine::{
    query_error_message, segment_lookup, valid_query, validate_query_term, QueryEngine, QueryError,
};
use crate::segment_reader::{
    describes, failure_message, lemma_failure_message, spec_open, SegmentFailure, SegmentLayout,
    SegmentReadError,
};
use vstd::prelude::*;

verus! {

/// How much dictionary and postings work a lookup across segments did.
#[derive(Debug, Clone, Copy, PartialEq, Eq, Structural)]
pub struct MultiSegmentDictionaryStats {
    pub searched_segment_count: usize,
    pub matching_segment_count: usize,
    pub dictionary_comparisons: u64,
    pub encoded_postings_bytes: usize,
}

/// What a lookup across segments finds: the chained postings and the work
/// done.
pub struct MultiSegmentTermQueryResult<'a> {
    pub postings: MultiSegmentPostings<'a>,
    pub dictionary_stats: MultiSegmentDictionaryStats,
}

/// One open segment of a manifest with its record.
pub struct ManagedSegment {
    metadata: SegmentMetadata,
    query_engine: QueryEngine,
}

impl ManagedSegment {
    /// The segment's record in the manifest.
    pub closed spec fn record(&self) -> SegmentMetadataView {
        self.metadata@
    }

    /// The segment's file.
    pub closed spec fn file(&self) -> Seq<u8> {
        self.query_engine.reader().contents()
    }

    /// The layout of the segment's file.
    pub closed spec fn layout(&self) -> SegmentLayout {
        self.query_engine.reader().layout()
    }

    /// The segment's identifier.
    pub closed spec fn id(&self) -> SegmentId {
        self.metadata.id
    }

    /// Opens the segment file `bytes` of the segment that `metadata` records.
    pub fn open(metadata: SegmentMetadata, bytes: Vec<u8>) -> (result: Result<
        ManagedSegment,
        SegmentReadError,
    >)
        ensures
            match spec_open(bytes@) {
                Ok((layout, _)) => result matches Ok(segment) && segment.record() == metadata@
                    && segment.id() == metadata.id && segment.file() == bytes@ && segment.layout()
                    == layout,
                Err(failure) => result matches Err(e) && describes(e, failure),
            },
    {
        match QueryEngine::new(bytes) {
            Ok(query_engine) => Ok(ManagedSegment { metadata, query_engine }),
            Err(error) => Err(error),
        }
    }

    /// A copy of the segment's record.
    pub fn metadata(&self) -> (metadata: SegmentMetadata)
        ensures
            metadata@ == self.record(),
            metadata.id == self.id(),
    {
        self.metadata.duplicate()
    }
}

/// Whether opening the segment file `bytes` fails with `error`.
pub open spec fn fails_to_open(bytes: Seq<u8>, error: SegmentReadError) -> bool {
    spec_open(bytes) matches Err(failure) && describes(error, failure)
}

/// Whether `error` is how the first file of `files` that does not open
/// fails, every file before it opening.
pub open spec fn first_open_failure(files: Seq<Vec<u8>>, error: SegmentReadError) -> bool {
    exists|i: int|
        0 <= i < files.len() && fails_to_open(#[trigger] files[i]@, error) && forall|j: int|
            0 <= j < i ==> spec_open(#[trigger] files[j]@) is Ok
}

/// Whether every file of `files` opens.
pub open spec fn all_open(files: Seq<Vec<u8>>) -> bool {
    forall|i: int| 0 <= i < files.len() ==> spec_open(#[trigger] files[i]@) is Ok
}

/// The records of the segments.
pub open spec fn records(segments: Seq<ManagedSegment>) -> Seq<SegmentMetadataView> {
    segments.map_values(|segment: ManagedSegment| segment.record())
}

/// A lookup failure across segments.
pub enum MultiLookupFailure {
    Segment(SegmentFailure),
    ComparisonCountOverflow,
    EncodedBytesOverflow,
}

/// Whether `error` reports `failure`.
pub open spec fn reports_failure(error: QueryError, failure: MultiLookupFailure) -> bool {
    match failure {
        MultiLookupFailure::Segment(f) => error matches QueryError::Segment(e) && describes(e, f),
        MultiLookupFailure::ComparisonCountOverflow => error == QueryError::ComparisonCountOverflow,
        MultiLookupFailure::EncodedBytesOverflow => error == QueryError::EncodedBytesOverflow,
    }
}

/// The message of the error that reports `failure`.
pub open spec fn multi_failure_message(failure: MultiLookupFailure) -> Seq<char> {
    match failure {
        MultiLookupFailure::Segment(f) => failure_message(f),
        MultiLookupFailure::ComparisonCountOverflow => "dictionary comparison count overflow"@,
        MultiLookupFailure::EncodedBytesOverflow => "encoded postings byte count overflow"@,
    }
}

/// The error that reports a failure has the failure's message.
pub proof fn lemma_multi_failure_message(error: QueryError, failure: MultiLookupFailure)
    requires
        reports_failure(error, failure),
    ensures
        query_error_message(error) == multi_failure_message(failure),
{
    if let MultiLookupFailure::Segment(f) = failure {
        if let QueryError::Segment(e) = error {
            lemma_failure_message(e, f);
        }
    }
}

/// The running result of a lookup across segments: the decoders of the
/// matching segments so far, and the counts.
pub struct LookupProgress {
    pub decoders: Seq<(SegmentId, DecoderState)>,
    pub comparisons: nat,
    pub matching: nat,
    pub encoded_bytes: nat,
}

/// Looking the valid query `term` up in the segments from position `k` on,
/// after `progress`: the segments are searched in order, comparisons are
/// added up, and every match adds its decoder and its encoded length.
pub open spec fn lookup_from(
    segments: Seq<ManagedSegment>,
    term: Seq<char>,
    k: nat,
    progress: LookupProgress,
) -> Result<LookupProgress, MultiLookupFailure>
    decreases segments.len() - k,
{
    if k >= segments.len() {
        Ok(progress)
    } else {
        let segment = segments[k as int];
        match segment_lookup(segment.file(), segment.layout(), term) {
            Err(failure) => Err(MultiLookupFailure::Segment(failure)),
            Ok((found, comparisons)) => if progress.comparisons + comparisons > u64::MAX {
                Err(MultiLookupFailure::ComparisonCountOverflow)
            } else {
                match found {
                    None => lookup_from(
                        segments,
                        term,
                        k + 1,
                        LookupProgress {
                            comparisons: progress.comparisons + comparisons,
                            ..progress
                        },
                    ),
                    Some(state) => if progress.encoded_bytes + state.remaining.len() > usize::MAX {
                        Err(MultiLookupFailure::EncodedBytesOverflow)
                    } else {
                        lookup_from(
                            segments,
                            term,
                            k + 1,
                            LookupProgress {
                                decoders: progress.decoders.push((segment.id(), state)),
                                comparisons: progress.comparisons + comparisons,
                                matching: progress.matching + 1,
                                encoded_bytes: progress.encoded_bytes + state.remaining.len(),
                            },
                        )
                    },
                }
            },
        }
    }
}

/// The lookup before any segment is searched.
pub open spec fn no_progress() -> LookupProgress {
    LookupProgress { decoders: Seq::empty(), comparisons: 0, matching: 0, encoded_bytes: 0 }
}

/// What a lookup of `term` across `segments` returns, per `lookup_from`.
pub open spec fn lookup_outcome<'a>(
    result: Result<MultiSegmentTermQueryResult<'a>, QueryError>,
    segments: Seq<ManagedSegment>,
    term: Seq<char>,
) -> bool {
    if !valid_query(term) {
        result matches Err(e) && e == QueryError::InvalidQuery
    } else {
        match lookup_from(segments, term, 0, no_progress()) {
            Err(failure) => result matches Err(e) && reports_failure(e, failure),
            Ok(progress) => result matches Ok(found) && found.postings.wf()
                && found.postings.segments() == progress.decoders && found.postings.current() == 0
                && found.dictionary_stats == MultiSegmentDictionaryStats {
                searched_segment_count: segments.len() as usize,
                matching_segment_count: progress.matching as usize,
                dictionary_comparisons: progress.comparisons as u64,
                encoded_postings_bytes: progress.encoded_bytes as usize,
            },
        }
    }
}

/// What looking the valid query `term` up in segment `k` alone gives.
pub open spec fn lookup_in(segments: Seq<ManagedSegment>, term: Seq<char>, k: int) -> Result<
    (Option<DecoderState>, nat),
    SegmentFailure,
> {
    segment_lookup(segments[k].file(), segments[k].layout(), term)
}

/// The sum of the dictionary comparisons of the lookups in the segments
/// from position `k` on.
pub open spec fn comparisons_from(segments: Seq<ManagedSegment>, term: Seq<char>, k: nat) -> nat
    decreases segments.len() - k,
{
    if k >= segments.len() {
        0
    } else {
        let own: nat = match lookup_in(segments, term, k as int) {
            Ok((_, comparisons)) => comparisons,
            Err(_) => 0,
        };
        own + comparisons_from(segments, term, k + 1)
    }
}

/// The decoders of the segments, from position `k` on, whose dictionary
/// holds the term, each with its segment's identifier.
pub open spec fn matches_from(segments: Seq<ManagedSegment>, term: Seq<char>, k: nat) -> Seq<
    (SegmentId, DecoderState),
>
    decreases segments.len() - k,
{
    if k >= segments.len() {
        Seq::empty()
    } else {
        let rest = matches_from(segments, term, k + 1);
        match lookup_in(segments, term, k as int) {
            Ok((Some(state), _)) => seq![(segments[k as int].id(), state)] + rest,
            _ => rest,
        }
    }
}

/// The sum of the encoded lengths of the postings lists that `decoders`
/// start from.
pub open spec fn encoded_total(decoders: Seq<(SegmentId, DecoderState)>) -> nat
    decreases decoders.len(),
{
    if decoders.len() == 0 {
        0
    } else {
        decoders[0].1.remaining.len() + encoded_total(decoders.drop_first())
    }
}

proof fn lemma_lookup_sums(
    segments: Seq<ManagedSegment>,
    term: Seq<char>,
    k: nat,
    progress: LookupProgress,
)
    ensures
        lookup_from(segments, term, k, progress) matches Ok(last) ==> {
            &&& last.decoders == progress.decoders + matches_from(segments, term, k)
            &&& last.comparisons == progress.comparisons + comparisons_from(segments, term, k)
            &&& last.matching == progress.matching + matches_from(segments, term, k).len()
            &&& last.encoded_bytes == progress.encoded_bytes + encoded_total(
                matches_from(segments, term, k),
            )
        },
    decreases segments.len() - k,
{
    if k >= segments.len() {
        assert(progress.decoders + Seq::<(SegmentId, DecoderState)>::empty() =~= progress.decoders);
    } else {
        let segment = segments[k as int];
        let rest = matches_from(segments, term, k + 1);
        match segment_lookup(segment.file(), segment.layout(), term) {
            Err(_) => {},
            Ok((found, comparisons)) => {
                if progress.comparisons + comparisons <= u64::MAX {
                    match found {
                        None => {
                            lemma_lookup_sums(
                                segments,
                                term,
                                k + 1,
                                LookupProgress {
                                    comparisons: progress.comparisons + comparisons,
                                    ..progress
                                },
                            );
                        },
                        Some(state) => {
                            if progress.encoded_bytes + state.remaining.len() <= usize::MAX {
                                let entry = (segment.id(), state);
                                let next = LookupProgress {
                                    decoders: progress.decoders.push(entry),
                                    comparisons: progress.comparisons + comparisons,
                                    matching: progress.matching + 1,
                                    encoded_bytes: progress.encoded_bytes + state.remaining.len(),
                                };
                                lemma_lookup_sums(segments, term, k + 1, next);
                                assert(progress.decoders.push(entry) + rest =~= progress.decoders
                                    + (seq![entry] + rest));
                                assert((seq![entry] + rest).drop_first() =~= rest);
                            }
                        },
                    }
                }
            },
        }
    }
}

/// A lookup across segments that succeeds searches every segment, adds up
/// their dictionary comparisons, and keeps, in segment order, the decoder of
/// each segment that holds the term; it counts those segments and adds up
/// the encoded lengths of their postings lists.
pub proof fn lemma_lookup_totals(segments: Seq<ManagedSegment>, term: Seq<char>)
    ensures
        lookup_from(segments, term, 0, no_progress()) matches Ok(last) ==> last == (LookupProgress {
            decoders: matches_from(segments, term, 0),
            comparisons: comparisons_from(segments, term, 0),
            matching: matches_from(segments, term, 0).len(),
            encoded_bytes: encoded_total(matches_from(segments, term, 0)),
        }),
{
    lemma_lookup_sums(segments, term, 0, no_progress());
    assert(Seq::<(SegmentId, DecoderState)>::empty() + matches_from(segments, term, 0) =~= matches_from(
        segments,
        term,
        0,
    ));
}

/// Whether the segments' identifiers strictly increase, as a valid
/// manifest's do.
pub open spec fn ids_increase(segments: Seq<ManagedSegment>) -> bool {
    forall|i: int, j: int|
        0 <= i < j < segments.len() ==> (#[trigger] segments[i]).record().id < (#[trigger] segments[
            j]).record().id
}

proof fn lemma_lookup_decoders_increase(
    segments: Seq<ManagedSegment>,
    term: Seq<char>,
    k: nat,
    progress: LookupProgress,
)
    requires
        ids_increase(segments),
        forall|i: int, j: int|
            0 <= i < j < progress.decoders.len() ==> (#[trigger] progress.decoders[i]).0.spec_value()
                < (#[trigger] progress.decoders[j]).0.spec_value(),
        forall|i: int, j: int|
            0 <= i < progress.decoders.len() && k <= j < segments.len() ==> (
            #[trigger] progress.decoders[i]).0.spec_value() < (#[trigger] segments[j]).record().id,
    ensures
        lookup_from(segments, term, k, progress) matches Ok(last) ==> forall|i: int, j: int|
            0 <= i < j < last.decoders.len() ==> (#[trigger] last.decoders[i]).0.spec_value()
                < (#[trigger] last.decoders[j]).0.spec_value(),
    decreases segments.len() - k,
{
    if k < segments.len() {
        let segment = segments[k as int];
        match segment_lookup(segment.file(), segment.layout(), term) {
            Err(_) => {},
            Ok((found, comparisons)) => {
                if progress.comparisons + comparisons <= u64::MAX {
                    match found {
                        None => {
                            lemma_lookup_decoders_increase(
                                segments,
                                term,
                                k + 1,
                                LookupProgress {
                                    comparisons: progress.comparisons + comparisons,
                                    ..progress
                                },
                            );
                        },
                        Some(state) => {
                            if progress.encoded_bytes + state.remaining.len() <= usize::MAX {
                                let next = LookupProgress {
                                    decoders: progress.decoders.push((segment.id(), state)),
                                    comparisons: progress.comparisons + comparisons,
                                    matching: progress.matching + 1,
                                    encoded_bytes: progress.encoded_bytes + state.remaining.len(),
                                };
                                assert(segment.id().spec_value() == segment.record().id);
                                assert forall|i: int, j: int|
                                    0 <= i < next.decoders.len() && k + 1 <= j < segments.len()
                                        implies (#[trigger] next.decoders[i]).0.spec_value()
                                    < (#[trigger] segments[j]).record().id by {
                                    if i < progress.decoders.len() {
                                        assert(next.decoders[i] == progress.decoders[i]);
                                    }
                                }
                                assert forall|i: int, j: int|
                                    0 <= i < j < next.decoders.len() implies (
                                    #[trigger] next.decoders[i]).0.spec_value() < (
                                    #[trigger] next.decoders[j]).0.spec_value() by {
                                    assert(next.decoders[i] == progress.decoders[i]);
                                    if j < progress.decoders.len() {
                                        assert(next.decoders[j] == progress.decoders[j]);
                                    }
                                }
                                lemma_lookup_decoders_increase(segments, term, k + 1, next);
                            }
                        },
                    }
                }
            },
        }
    }
}

/// When the segments' identifiers strictly increase, as a valid manifest's
/// do, the postings that a successful lookup hands out strictly increase in
/// address: by segment, then by document within a segment.
pub proof fn lemma_lookup_postings_increase(segments: Seq<ManagedSegment>, term: Seq<char>)
    requires
        ids_increase(segments),
    ensures
        lookup_from(segments, term, 0, no_progress()) matches Ok(last) ==> postings_increase(
            multi_drain(last.decoders, 0),
        ),
{
    lemma_lookup_decoders_increase(segments, term, 0, no_progress());
    if let Ok(last) = lookup_from(segments, term, 0, no_progress()) {
        lemma_multi_drain_increases(last.decoders);
    }
}

/// The segments of a manifest that passes validation hand out, on every
/// successful lookup, postings in strictly increasing address order.
pub proof fn lemma_valid_manifest_postings_increase(segments: Seq<ManagedSegment>, term: Seq<char>)
    requires
        first_violation(records(segments)) is None,
    ensures
        lookup_from(segments, term, 0, no_progress()) matches Ok(last) ==> postings_increase(
            multi_drain(last.decoders, 0),
        ),
{
    lemma_valid_records(records(segments));
    assert forall|i: int, j: int| 0 <= i < j < segments.len() implies (#[trigger] segments[i]).record().id
        < (#[trigger] segments[j]).record().id by {
        assert(records(segments)[i] == segments[i].record());
        assert(records(segments)[j] == segments[j].record());
    }
    lemma_lookup_postings_increase(segments, term);
}

/// Looks `term` up in every segment, in order, and chains the matches.
pub fn query_segments<'a>(segments: &'a [ManagedSegment], term: &str) -> (result: Result<
    MultiSegmentTermQueryResult<'a>,
    QueryError,
>)
    ensures
        lookup_outcome(result, segments@, term@),
{
    match validate_query_term(term) {
        Ok(()) => {},
        Err(error) => return Err(error),
    }
    let ghost whole = lookup_from(segments@, term@, 0, no_progress());
    let mut segment_decoders: Vec<(SegmentId, PostingsDecoder<'a>)> = Vec::new();
    let mut matching_segment_count: usize = 0;
    let mut dictionary_comparisons: u64 = 0;
    let mut encoded_postings_bytes: usize = 0;
    let mut k: usize = 0;
    assert(decoder_states(segment_decoders@) =~= Seq::<(SegmentId, DecoderState)>::empty());
    while k < segments.len()
        invariant
            k <= segments@.len(),
            valid_query(term@),
            decoders_wf(segment_decoders@),
            matching_segment_count <= k,
            whole == lookup_from(
                segments@,
                term@,
                k as nat,
                LookupProgress {
                    decoders: decoder_states(segment_decoders@),
                    comparisons: dictionary_comparisons as nat,
                    matching: matching_segment_count as nat,
                    encoded_bytes: encoded_postings_bytes as nat,
                },
            ),
            whole == lookup_from(segments@, term@, 0, no_progress()),
        decreases segments@.len() - k,
    {
        let segment = &segments[k];
        let found = match segment.query_engine.query_term_with_stats(term) {
            Ok(found) => found,
            Err(error) => return Err(error),
        };
        dictionary_comparisons = match dictionary_comparisons.checked_add(
            found.dictionary_comparisons as u64,
        ) {
            Some(total) => total,
            None => return Err(QueryError::ComparisonCountOverflow),
        };
        match found.postings {
            Some(decoder) => {
                encoded_postings_bytes = match encoded_postings_bytes.checked_add(
                    decoder.remaining_bytes(),
                ) {
                    Some(total) => total,
                    None => return Err(QueryError::EncodedBytesOverflow),
                };
                matching_segment_count = matching_segment_count + 1;
                let ghost before = segment_decoders@;
                segment_decoders.push((segment.metadata.id, decoder));
                assert(decoder_states(segment_decoders@) =~= decoder_states(before).push(
                    (segment.metadata.id, decoder.state()),
                ));
            },
            None => {},
        }
        k = k + 1;
    }
    Ok(
        MultiSegmentTermQueryResult {
            postings: MultiSegmentPostings::new(segment_decoders),
            dictionary_stats: MultiSegmentDictionaryStats {
                searched_segment_count: segments.len(),
                matching_segment_count,
                dictionary_comparisons,
                encoded_postings_bytes,
            },
        },
    )
}

/// The sum of the segments' document counts.
pub fn total_document_count(segments: &[ManagedSegment]) -> (total: u64)
    requires
        totals_fit(records(segments@)),
    ensures
        total == total_documents(records(segments@), segments@.len() as int),
{
    let ghost views = records(segments@);
    let mut total: u64 = 0;
    let mut i: usize = 0;
    while i < segments.len()
        invariant
            i <= views.len(),
            views == records(segments@),
            totals_fit(views),
            total == total_documents(views, i as int),
        decreases views.len() - i,
    {
        proof {
            lemma_prefix_totals(views, i as int + 1);
        }
        total = total + segments[i].metadata.document_count as u64;
        i = i + 1;
    }
    total
}

/// The sum of the segments' lengths in bytes.
pub fn total_segment_bytes(segments: &[ManagedSegment]) -> (total: u64)
    requires
        totals_fit(records(segments@)),
    ensures
        total == total_bytes(records(segments@), segments@.len() as int),
{
    let ghost views = records(segments@);
    let mut total: u64 = 0;
    let mut i: usize = 0;
    while i < segments.len()
        invariant
            i <= views.len(),
            views == records(segments@),
            totals_fit(views),
            total == total_bytes(views, i as int),
        decreases views.len() - i,
    {
        proof {
            lemma_prefix_totals(views, i as int + 1);
        }
        total = total + segments[i].metadata.length_bytes;
        i = i + 1;
    }
    total
}

/// The sum of the segments' term counts.
pub fn total_term_entries(segments: &[ManagedSegment]) -> (total: u64)
    requires
        totals_fit(records(segments@)),
    ensures
        total == total_terms(records(segments@), segments@.len() as int),
{
    let ghost views = records(segments@);
    let mut total: u64 = 0;
    let mut i: usize = 0;
    while i < segments.len()
        invariant
            i <= views.len(),
            views == records(segments@),
            totals_fit(views),
            total == total_terms(views, i as int),
        decreases views.len() - i,
    {
        proof {
            lemma_prefix_totals(views, i as int + 1);
        }
        total = total + segments[i].metadata.term_count as u64;
        i = i + 1;
    }
    total
}

/// Opens the segment files `files` of the segments that `records_list`
/// records, in order.
pub fn open_segments(records_list: &[SegmentMetadata], files: &Vec<Vec<u8>>) -> (result: Result<
    Vec<ManagedSegment>,
    SegmentReadError,
>)
    requires
        files@.len() == records_list@.len(),
    ensures
        match result {
            Ok(segments) => records(segments@) == metadata_views(records_list@) && all_open(files@)
                && segments@.len() == files@.len() && forall|i: int|
                0 <= i < segments@.len() ==> (#[trigger] segments@[i]).file() == files@[i]@
                    && spec_open(files@[i]@) == Ok::<(SegmentLayout, u32), SegmentFailure>(
                    (segments@[i].layout(), spec_open(files@[i]@)->Ok_0.1),
                ) && segments@[i].id() == records_list@[i].id,
            Err(error) => first_open_failure(files@, error),
        },
{
    let mut segments: Vec<ManagedSegment> = Vec::new();
    let mut i: usize = 0;
    while i < records_list.len()
        invariant
            i <= records_list@.len(),
            files@.len() == records_list@.len(),
            segments@.len() == i,
            records(segments@) == metadata_views(records_list@.subrange(0, i as int)),
            forall|j: int|
                0 <= j < i ==> (#[trigger] segments@[j]).file() == files@[j]@ && spec_open(
                    files@[j]@,
                ) == Ok::<(SegmentLayout, u32), SegmentFailure>(
                    (segments@[j].layout(), spec_open(files@[j]@)->Ok_0.1),
                ) && segments@[j].id() == records_list@[j].id,
        decreases records_list@.len() - i,
    {
        let bytes = files[i].clone();
        assert(bytes@ == files@[i as int]@);
        let segment = match ManagedSegment::open(records_list[i].duplicate(), bytes) {
            Ok(segment) => segment,
            Err(error) => {
                assert(fails_to_open(files@[i as int]@, error));
                assert forall|j: int| 0 <= j < i implies spec_open(#[trigger] files@[j]@) is Ok by {
                    assert(segments@[j].file() == files@[j]@);
                }
                return Err(error);
            },
        };
        let ghost before = segments@;
        segments.push(segment);
        proof {
            assert(segments@[i as int] == segment);
            assert forall|j: int| 0 <= j < i implies #[trigger] segments@[j] == before[j] by {}
            assert forall|j: int| 0 <= j <= i implies #[trigger] records(segments@)[j]
                == metadata_views(records_list@.subrange(0, i + 1))[j] by {
                if j < i {
                    assert(records(before)[j] == metadata_views(records_list@.subrange(0, i as int))[j]);
                }
            }
            assert(records(segments@) =~= metadata_views(records_list@.subrange(0, i + 1)));
        }
        i = i + 1;
    }
    assert(records_list@.subrange(0, i as int) =~= records_list@);
    assert forall|j: int| 0 <= j < files@.len() implies spec_open(#[trigger] files@[j]@) is Ok by {
        assert(segments@[j].file() == files@[j]@);
    }
    Ok(segments)
}

/// Lookup across the segments of one manifest.
pub struct MultiSegmentQueryEngine {
    segments: Vec<ManagedSegment>,
}

impl MultiSegmentQueryEngine {
    /// The open segments, in manifest order.
    pub closed spec fn managed(&self) -> Seq<ManagedSegment> {
        self.segments@
    }

    /// The segments' totals fit, as in every manifest.
    #[verifier::type_invariant]
    spec fn totals_in_range(self) -> bool {
        totals_fit(records(self.segments@))
    }

    /// Opens the segments of `manifest`, whose files are `segment_files` in
    /// manifest order.
    pub fn new(manifest: Manifest, segment_files: Vec<Vec<u8>>) -> (result: Result<
        MultiSegmentQueryEngine,
        SegmentReadError,
    >)
        requires
            segment_files@.len() == manifest@.len(),
        ensures
            match result {
                Ok(engine) => records(engine.managed()) == manifest@ && all_open(segment_files@)
                    && forall|i: int|
                    0 <= i < engine.managed().len() ==> (#[trigger] engine.managed()[i]).file()
                        == segment_files@[i]@,
                Err(error) => first_open_failure(segment_files@, error),
            },
    {
        let segments = match open_segments(manifest.segments(), &segment_files) {
            Ok(segments) => segments,
            Err(error) => return Err(error),
        };
        Ok(MultiSegmentQueryEngine { segments })
    }

    /// Looks `term` up in every segment and chains the postings.
    pub fn query_term(&self, term: &str) -> (result: Result<MultiSegmentPostings<'_>, QueryError>)
        ensures
            !valid_query(term@) ==> (result matches Err(e) && e == QueryError::InvalidQuery),
            valid_query(term@) ==> match lookup_from(self.managed(), term@, 0, no_progress()) {
                Err(failure) => result matches Err(e) && reports_failure(e, failure),
                Ok(progress) => result matches Ok(postings) && postings.wf()
                    && postings.segments() == progress.decoders && postings.current() == 0,
            },
    {
        match query_segments(self.segments.as_slice(), term) {
            Ok(found) => Ok(found.postings),
            Err(error) => Err(error),
        }
    }

    /// Looks `term` up in every segment, chains the postings and reports
    /// the work done.
    pub fn query_term_with_stats(&self, term: &str) -> (result: Result<
        MultiSegmentTermQueryResult<'_>,
        QueryError,
    >)
        ensures
            lookup_outcome(result, self.managed(), term@),
    {
        query_segments(self.segments.as_slice(), term)
    }

    /// The number of segments.
    pub fn segment_count(&self) -> (count: usize)
        ensures
            count == self.managed().len(),
    {
        self.segments.len()
    }

    /// The sum of the segments' document counts.
    pub fn total_document_count(&self) -> (total: u64)
        ensures
            total == total_documents(records(self.managed()), self.managed().len() as int),
    {
        proof {
            use_type_invariant(self);
        }
        total_document_count(self.segments.as_slice())
    }

    /// The sum of the segments' lengths in bytes.
    pub fn total_segment_bytes(&self) -> (total: u64)
        ensures
            total == total_bytes(records(self.managed()), self.managed().len() as int),
    {
        proof {
            use_type_invariant(self);
        }
        total_segment_bytes(self.segments.as_slice())
    }

    /// The sum of the segments' term counts.
    pub fn total_term_entries(&self) -> (total: u64)
        ensures
            total == total_terms(records(self.managed()), self.managed().len() as int),
    {
        proof {
            use_type_invariant(self);
        }
        total_term_entries(self.segments.as_slice())
    }
}

} // verus!
