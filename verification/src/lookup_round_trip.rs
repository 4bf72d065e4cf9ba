//! What a lookup across segments returns when every segment is a file the
//! writer produced: the term's postings of each segment, in segment order,
//! each tagged with its segment.

use crate::inverted_index::{dictionary_sorted, postings_of};
use crate::model::{AddressedPosting, DocumentId, Posting, SegmentId};
use crate::multi_segment_postings::{addressed, multi_collect, multi_next, SegmentDecodeError};
use crate::multi_segment_query_engine::{
    lookup_from, no_progress, LookupProgress, ManagedSegment, MultiLookupFailure,
};
use crate::postings::{
    self, initial_state, lemma_initial_state, lemma_step, spec_next, state_after, valid_postings,
    DecoderState,
};
use crate::query_engine::{lemma_lookup_written_segment, segment_lookup, valid_query};
use crate::segment_codec::{spec_segment_file, Entries};
use crate::segment_round_trip::{lemma_entry_fine, readable_terms, writable, written_layout};
use vstd::prelude::*;

verus! {

/// `postings` as found in segment `segment_id`.
pub open spec fn addressed_list(segment_id: SegmentId, postings: Seq<Posting>) -> Seq<
    AddressedPosting,
> {
    postings.map_values(|posting: Posting| addressed(segment_id, posting))
}

/// Whether each of `segments` is the file the writer produced for the
/// matching index of `indexes`, opened with the layout the writer laid out.
pub open spec fn written_segments(
    segments: Seq<ManagedSegment>,
    indexes: Seq<(Entries, DocumentId)>,
) -> bool {
    &&& segments.len() == indexes.len()
    &&& forall|k: int|
        #![trigger segments[k]]
        0 <= k < segments.len() ==> {
            let (entries, document_count) = indexes[k];
            &&& writable(entries)
            &&& readable_terms(entries)
            &&& dictionary_sorted(entries)
            &&& segments[k].file() == spec_segment_file(entries, document_count)
            &&& segments[k].layout() == written_layout(entries, document_count)
        }
}

/// The postings of `term` in the indexes from position `k` on, each tagged
/// with its segment, in segment order.
pub open spec fn written_postings(
    segments: Seq<ManagedSegment>,
    indexes: Seq<(Entries, DocumentId)>,
    term: Seq<char>,
    k: int,
) -> Seq<AddressedPosting>
    decreases segments.len() - k,
{
    if k < 0 || k >= segments.len() {
        Seq::empty()
    } else {
        addressed_list(segments[k].id(), postings_of(indexes[k].0, term)) + written_postings(
            segments,
            indexes,
            term,
            k + 1,
        )
    }
}

/// The segments, from position `k` on, whose index has `term`, with its
/// postings there.
spec fn matching(
    segments: Seq<ManagedSegment>,
    indexes: Seq<(Entries, DocumentId)>,
    term: Seq<char>,
    k: int,
) -> Seq<(SegmentId, Seq<Posting>)>
    decreases segments.len() - k,
{
    if k < 0 || k >= segments.len() {
        Seq::empty()
    } else {
        let found = postings_of(indexes[k].0, term);
        (if found.len() > 0 {
            seq![(segments[k].id(), found)]
        } else {
            Seq::empty()
        }) + matching(segments, indexes, term, k + 1)
    }
}

/// Fresh decoders over the encodings of the lists of `items`.
spec fn fresh_states(items: Seq<(SegmentId, Seq<Posting>)>) -> Seq<(SegmentId, DecoderState)> {
    Seq::new(items.len(), |j: int| (items[j].0, state_after(items[j].1, 0)))
}

/// The lists of `items` from position `k` on, tagged and concatenated.
spec fn addressed_all(items: Seq<(SegmentId, Seq<Posting>)>, k: int) -> Seq<AddressedPosting>
    decreases items.len() - k,
{
    if k < 0 || k >= items.len() {
        Seq::empty()
    } else {
        addressed_list(items[k].0, items[k].1) + addressed_all(items, k + 1)
    }
}

/// Collecting from decoders that are partway through valid lists gives the
/// rest of the current list and then every later list.
proof fn lemma_collect_fresh(
    items: Seq<(SegmentId, Seq<Posting>)>,
    states: Seq<(SegmentId, DecoderState)>,
    index: nat,
    i: nat,
)
    requires
        forall|j: int| 0 <= j < items.len() ==> valid_postings(#[trigger] items[j].1),
        states.len() == items.len(),
        index <= items.len(),
        index < items.len() ==> i <= items[index as int].1.len() && states[index as int] == (
            items[index as int].0,
            state_after(items[index as int].1, i),
        ),
        forall|j: int|
            index < j < items.len() ==> #[trigger] states[j] == (items[j].0, state_after(items[j].1, 0)),
    ensures
        multi_collect(states, index) == Ok::<Seq<AddressedPosting>, SegmentDecodeError>(
            if index < items.len() {
                addressed_list(
                    items[index as int].0,
                    items[index as int].1.subrange(i as int, items[index as int].1.len() as int),
                ) + addressed_all(items, index + 1int)
            } else {
                Seq::empty()
            },
        ),
    decreases items.len() - index, if index < items.len() {
        items[index as int].1.len() - i
    } else {
        0
    },
{
    if index >= items.len() {
        assert(multi_next(states, index).2 is None);
    } else {
        let (segment_id, list) = items[index as int];
        if i < list.len() {
            lemma_step(list, i);
            let updated = states.update(index as int, (segment_id, state_after(list, i + 1)));
            assert(multi_next(states, index) == (
                updated,
                index,
                Some(Ok::<AddressedPosting, SegmentDecodeError>(addressed(segment_id, list[i as int]))),
            ));
            lemma_collect_fresh(items, updated, index, i + 1);
            let head = addressed(segment_id, list[i as int]);
            let tail = addressed_list(segment_id, list.subrange(i + 1int, list.len() as int));
            let later = addressed_all(items, index + 1int);
            assert(addressed_list(segment_id, list.subrange(i as int, list.len() as int)) =~= seq![
                head,
            ] + tail);
            assert(seq![head] + (tail + later) =~= (seq![head] + tail) + later);
        } else {
            assert(state_after(list, i).remaining =~= Seq::<u8>::empty());
            let stopped = DecoderState { finished: true, ..state_after(list, i) };
            assert(spec_next(state_after(list, i)) == (stopped, None::<Result<Posting, postings::DecodeError>>));
            let updated = states.update(index as int, (segment_id, stopped));
            assert(multi_next(states, index) == multi_next(updated, index + 1));
            assert(multi_collect(states, index) == multi_collect(updated, index + 1));
            lemma_collect_fresh(items, updated, index + 1, 0);
            if index + 1 < items.len() {
                let next_list = items[index + 1int].1;
                assert(next_list.subrange(0, next_list.len() as int) =~= next_list);
            }
            assert(list.subrange(i as int, list.len() as int) =~= Seq::<Posting>::empty());
            assert(addressed_list(segment_id, Seq::<Posting>::empty()) =~= Seq::<AddressedPosting>::empty());
        }
    }
}

/// Looking a term up in written segments never fails on a segment, and the
/// decoders it gathers are fresh decoders over the matching lists.
proof fn lemma_lookup_from_written(
    segments: Seq<ManagedSegment>,
    indexes: Seq<(Entries, DocumentId)>,
    term: Seq<char>,
    k: nat,
    progress: LookupProgress,
)
    requires
        written_segments(segments, indexes),
        k <= segments.len(),
    ensures
        match lookup_from(segments, term, k, progress) {
            Ok(reached) => reached.decoders == progress.decoders + fresh_states(
                matching(segments, indexes, term, k as int),
            ),
            Err(failure) => !(failure is Segment),
        },
    decreases segments.len() - k,
{
    if k >= segments.len() {
        assert(fresh_states(matching(segments, indexes, term, k as int)) =~= Seq::empty());
        assert(progress.decoders + Seq::<(SegmentId, DecoderState)>::empty() =~= progress.decoders);
    } else {
        let segment = segments[k as int];
        let (entries, document_count) = indexes[k as int];
        lemma_lookup_written_segment(entries, document_count, term);
        let found = postings_of(entries, term);
        let rest = matching(segments, indexes, term, k + 1int);
        match segment_lookup(segment.file(), segment.layout(), term) {
            Err(_) => {},
            Ok((None, comparisons)) => {
                assert(found.len() == 0);
                assert(matching(segments, indexes, term, k as int) =~= rest);
                lemma_lookup_from_written(
                    segments,
                    indexes,
                    term,
                    k + 1,
                    LookupProgress { comparisons: progress.comparisons + comparisons, ..progress },
                );
            },
            Ok((Some(state), comparisons)) => {
                lemma_initial_state(found);
                assert(state == state_after(found, 0));
                assert(matching(segments, indexes, term, k as int) =~= seq![(segment.id(), found)]
                    + rest);
                assert(fresh_states(seq![(segment.id(), found)] + rest) =~= seq![
                    (segment.id(), state_after(found, 0)),
                ] + fresh_states(rest));
                let next = LookupProgress {
                    decoders: progress.decoders.push((segment.id(), state)),
                    comparisons: progress.comparisons + comparisons,
                    matching: progress.matching + 1,
                    encoded_bytes: progress.encoded_bytes + state.remaining.len(),
                };
                lemma_lookup_from_written(segments, indexes, term, k + 1, next);
                assert(progress.decoders.push((segment.id(), state)) + fresh_states(rest)
                    =~= progress.decoders + (seq![(segment.id(), state_after(found, 0))]
                    + fresh_states(rest)));
            },
        }
    }
}

/// Every list among the matching ones is valid and nonempty, and tagging
/// them all gives the written postings.
proof fn lemma_matching_lists(
    segments: Seq<ManagedSegment>,
    indexes: Seq<(Entries, DocumentId)>,
    term: Seq<char>,
    k: int,
)
    requires
        written_segments(segments, indexes),
        0 <= k <= segments.len(),
    ensures
        forall|j: int|
            0 <= j < matching(segments, indexes, term, k).len() ==> valid_postings(
                #[trigger] matching(segments, indexes, term, k)[j].1,
            ),
        addressed_all(matching(segments, indexes, term, k), 0) == written_postings(
            segments,
            indexes,
            term,
            k,
        ),
    decreases segments.len() - k,
{
    if k < segments.len() {
        lemma_matching_lists(segments, indexes, term, k + 1);
        let entries = indexes[k].0;
        let found = postings_of(entries, term);
        let rest = matching(segments, indexes, term, k + 1);
        let id = segments[k].id();
        assert(segments[k] == segments[k]);
        if found.len() > 0 {
            assert(exists|i: int| 0 <= i < entries.len() && entries[i].0 == term);
            let i = choose|i: int| 0 <= i < entries.len() && entries[i].0 == term;
            lemma_entry_fine(entries, i);
            crate::inverted_index::lemma_unique_term(entries, i);
            assert(found == entries[i].1);
            assert(valid_postings(found));
            let all = seq![(id, found)] + rest;
            assert(matching(segments, indexes, term, k) =~= all);
            assert forall|j: int| 0 <= j < all.len() implies valid_postings(#[trigger] all[j].1) by {
                if j > 0 {
                    assert(all[j] == rest[j - 1]);
                    assert(valid_postings(matching(segments, indexes, term, k + 1)[j - 1].1));
                } else {
                    assert(all[0].1 == found);
                }
            }
            lemma_addressed_all_shift(id, found, rest);
        } else {
            assert(matching(segments, indexes, term, k) =~= rest);
            assert(addressed_list(id, found) =~= Seq::<AddressedPosting>::empty());
            assert(written_postings(segments, indexes, term, k) =~= written_postings(
                segments,
                indexes,
                term,
                k + 1,
            ));
        }
    } else {
        assert(matching(segments, indexes, term, k) =~= Seq::empty());
    }
}

proof fn lemma_addressed_all_shift(
    id: SegmentId,
    found: Seq<Posting>,
    rest: Seq<(SegmentId, Seq<Posting>)>,
)
    ensures
        addressed_all(seq![(id, found)] + rest, 0) == addressed_list(id, found) + addressed_all(
            rest,
            0,
        ),
{
    let items = seq![(id, found)] + rest;
    lemma_addressed_all_suffix(items, 1);
    assert(items.subrange(1, items.len() as int) =~= rest);
}

proof fn lemma_addressed_all_suffix(items: Seq<(SegmentId, Seq<Posting>)>, offset: int)
    requires
        0 <= offset <= items.len(),
    ensures
        addressed_all(items, offset) == addressed_all(items.subrange(offset, items.len() as int), 0),
    decreases items.len() - offset,
{
    let sub = items.subrange(offset, items.len() as int);
    if offset < items.len() {
        lemma_addressed_all_suffix(items, offset + 1);
        lemma_addressed_all_suffix(sub, 1);
        assert(sub.subrange(1, sub.len() as int) =~= items.subrange(offset + 1, items.len() as int));
        assert(sub[0] == items[offset]);
    } else {
        assert(sub.len() == 0);
    }
}

proof fn lemma_addressed_all_drop(items: Seq<(SegmentId, Seq<Posting>)>)
    requires
        items.len() > 0,
    ensures
        addressed_all(items, 0) == addressed_list(items[0].0, items[0].1) + addressed_all(
            items.drop_first(),
            0,
        ),
{
    lemma_addressed_all_suffix(items, 1);
    assert(items.subrange(1, items.len() as int) =~= items.drop_first());
}

/// Looking a term up across segments that the writer produced never fails
/// on a segment, and when the counts of the work fit, decoding every
/// posting it hands out gives each segment's postings of the term in
/// segment order, each tagged with its segment.
pub proof fn lemma_lookup_written_segments(
    segments: Seq<ManagedSegment>,
    indexes: Seq<(Entries, DocumentId)>,
    term: Seq<char>,
)
    requires
        written_segments(segments, indexes),
        valid_query(term),
    ensures
        match lookup_from(segments, term, 0, no_progress()) {
            Ok(reached) => multi_collect(reached.decoders, 0) == Ok::<
                Seq<AddressedPosting>,
                SegmentDecodeError,
            >(written_postings(segments, indexes, term, 0)),
            Err(failure) => !(failure is Segment),
        },
{
    lemma_lookup_from_written(segments, indexes, term, 0, no_progress());
    let items = matching(segments, indexes, term, 0);
    lemma_matching_lists(segments, indexes, term, 0);
    if let Ok(reached) = lookup_from(segments, term, 0, no_progress()) {
        assert(reached.decoders =~= fresh_states(items));
        if items.len() > 0 {
            lemma_collect_fresh(items, fresh_states(items), 0, 0);
            assert(items[0].1.subrange(0, items[0].1.len() as int) =~= items[0].1);
            lemma_addressed_all_drop(items);
        } else {
            lemma_collect_fresh(items, fresh_states(items), 0, 0);
        }
    }
}

} // verus!
