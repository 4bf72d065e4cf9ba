//! The postings of one term across several segments, segment after segment,
//! each posting tagged with the segment it came from.

use crate::model::{address_less, AddressedPosting, DocumentAddress, Posting, SegmentId};
use crate::postings::{spec_next, DecodeError, DecoderState, PostingsDecoder};
use vstd::prelude::*;

verus! {

/// A postings list of one segment that failed to decode.
#[derive(Debug, Clone, Copy, PartialEq, Eq, Structural)]
pub struct SegmentDecodeError {
    pub segment_id: SegmentId,
    pub source: DecodeError,
}

/// `posting` as found in segment `segment_id`.
pub open spec fn addressed(segment_id: SegmentId, posting: Posting) -> AddressedPosting {
    AddressedPosting {
        address: DocumentAddress { segment_id, local_document_id: posting.document_id },
        term_frequency: posting.term_frequency,
    }
}

/// What one call of `next` does to the decoders `segments` when the one at
/// `index` is current: the decoders and current index after the call, and
/// what it returns. A decoder that is done hands over to the next one; a
/// decoding error is returned and the next segment becomes current.
pub open spec fn multi_next(segments: Seq<(SegmentId, DecoderState)>, index: nat) -> (
    Seq<(SegmentId, DecoderState)>,
    nat,
    Option<Result<AddressedPosting, SegmentDecodeError>>,
)
    decreases segments.len() - index,
{
    if index >= segments.len() {
        (segments, index, None)
    } else {
        let segment_id = segments[index as int].0;
        let (state, output) = spec_next(segments[index as int].1);
        let updated = segments.update(index as int, (segment_id, state));
        match output {
            Some(Ok(posting)) => (updated, index, Some(Ok(addressed(segment_id, posting)))),
            Some(Err(source)) => (
                updated,
                index + 1,
                Some(Err(SegmentDecodeError { segment_id, source })),
            ),
            None => multi_next(updated, index + 1),
        }
    }
}

/// How much decoding a decoder can still do.
pub open spec fn weight(state: DecoderState) -> nat {
    if state.finished {
        0
    } else {
        state.remaining_postings + 1
    }
}

/// How much decoding is left from the current segment on.
pub open spec fn potential(segments: Seq<(SegmentId, DecoderState)>, index: nat) -> nat
    decreases segments.len() - index,
{
    if index >= segments.len() {
        0
    } else {
        weight(segments[index as int].1) + 1 + potential(segments, index + 1)
    }
}

proof fn lemma_potential_update(
    segments: Seq<(SegmentId, DecoderState)>,
    i: int,
    entry: (SegmentId, DecoderState),
    j: nat,
)
    requires
        0 <= i < j,
        i < segments.len(),
    ensures
        potential(segments.update(i, entry), j) == potential(segments, j),
    decreases segments.len() - j,
{
    if j < segments.len() {
        assert(segments.update(i, entry)[j as int] == segments[j as int]);
        lemma_potential_update(segments, i, entry, j + 1);
    }
}

/// Every call that returns something leaves less decoding to do.
pub proof fn lemma_multi_next_progress(segments: Seq<(SegmentId, DecoderState)>, index: nat)
    ensures
        ({
            let (after, next_index, output) = multi_next(segments, index);
            output is Some ==> potential(after, next_index) < potential(segments, index)
        }),
    decreases segments.len() - index,
{
    if index < segments.len() {
        let segment_id = segments[index as int].0;
        let (state, output) = spec_next(segments[index as int].1);
        let updated = segments.update(index as int, (segment_id, state));
        lemma_potential_update(segments, index as int, (segment_id, state), index + 1);
        if output is None {
            lemma_multi_next_progress(updated, index + 1);
        }
    }
}

/// A call of `next` that returns something leaves a decoder with less to do.
pub proof fn lemma_decoder_progress(state: DecoderState)
    ensures
        spec_next(state).1 is Some ==> weight(spec_next(state).0) < weight(state),
{
}

/// What a decoder returns from `state` on, up to the first call that returns
/// nothing: its postings, and the error that stops it, if one does.
pub open spec fn decoder_items(state: DecoderState) -> Seq<Result<Posting, DecodeError>>
    decreases weight(state),
{
    let (after, output) = spec_next(state);
    match output {
        None => Seq::empty(),
        Some(item) => {
            proof {
                lemma_decoder_progress(state);
            }
            seq![item] + decoder_items(after)
        },
    }
}

/// The items of one segment's decoder, tagged with the segment they came
/// from.
pub open spec fn tagged_items(segment_id: SegmentId, items: Seq<Result<Posting, DecodeError>>) -> Seq<
    Result<AddressedPosting, SegmentDecodeError>,
> {
    items.map_values(
        |item: Result<Posting, DecodeError>|
            match item {
                Ok(posting) => Ok(addressed(segment_id, posting)),
                Err(source) => Err(SegmentDecodeError { segment_id, source }),
            },
    )
}

/// The items of the decoders from position `index` on, one segment after
/// another.
pub open spec fn segment_items(segments: Seq<(SegmentId, DecoderState)>, index: nat) -> Seq<
    Result<AddressedPosting, SegmentDecodeError>,
>
    decreases segments.len() - index,
{
    if index >= segments.len() {
        Seq::empty()
    } else {
        tagged_items(segments[index as int].0, decoder_items(segments[index as int].1))
            + segment_items(segments, index + 1)
    }
}

/// What successive calls of `next` return before the first that returns
/// nothing.
pub open spec fn multi_drain(segments: Seq<(SegmentId, DecoderState)>, index: nat) -> Seq<
    Result<AddressedPosting, SegmentDecodeError>,
>
    decreases potential(segments, index),
{
    let (after, next_index, output) = multi_next(segments, index);
    match output {
        None => Seq::empty(),
        Some(item) => {
            proof {
                lemma_multi_next_progress(segments, index);
            }
            seq![item] + multi_drain(after, next_index)
        },
    }
}

proof fn lemma_segment_items_update(
    segments: Seq<(SegmentId, DecoderState)>,
    i: int,
    entry: (SegmentId, DecoderState),
    j: nat,
)
    requires
        0 <= i < j,
        i < segments.len(),
    ensures
        segment_items(segments.update(i, entry), j) == segment_items(segments, j),
    decreases segments.len() - j,
{
    if j < segments.len() {
        assert(segments.update(i, entry)[j as int] == segments[j as int]);
        lemma_segment_items_update(segments, i, entry, j + 1);
    }
}

/// Calling `next` until it returns nothing yields, segment after segment in
/// the order given, what each segment's decoder returns up to its end or its
/// first error, each posting tagged with its segment and each error with the
/// segment that failed; an error ends only its own segment.
pub proof fn lemma_multi_drain(segments: Seq<(SegmentId, DecoderState)>, index: nat)
    ensures
        multi_drain(segments, index) == segment_items(segments, index),
    decreases potential(segments, index),
{
    if index < segments.len() {
        let segment_id = segments[index as int].0;
        let state = segments[index as int].1;
        let (after, output) = spec_next(state);
        let updated = segments.update(index as int, (segment_id, after));
        lemma_potential_update(segments, index as int, (segment_id, after), index + 1);
        lemma_segment_items_update(segments, index as int, (segment_id, after), index + 1);
        lemma_decoder_progress(state);
        match output {
            None => {
                assert(decoder_items(state) =~= Seq::<Result<Posting, DecodeError>>::empty());
                assert(tagged_items(segment_id, decoder_items(state)) =~= Seq::empty());
                lemma_multi_drain(updated, index + 1);
                assert(segment_items(segments, index) =~= segment_items(segments, index + 1));
            },
            Some(Ok(posting)) => {
                lemma_multi_next_progress(segments, index);
                lemma_multi_drain(updated, index);
                assert(decoder_items(state) == seq![Ok::<Posting, DecodeError>(posting)]
                    + decoder_items(after));
                assert(tagged_items(segment_id, decoder_items(state)) =~= seq![
                    Ok::<AddressedPosting, SegmentDecodeError>(addressed(segment_id, posting)),
                ] + tagged_items(segment_id, decoder_items(after)));
                assert(segment_items(segments, index) =~= seq![
                    Ok::<AddressedPosting, SegmentDecodeError>(addressed(segment_id, posting)),
                ] + segment_items(updated, index));
            },
            Some(Err(source)) => {
                lemma_multi_next_progress(segments, index);
                lemma_multi_drain(updated, index + 1);
                assert(after.finished);
                assert(decoder_items(after) =~= Seq::<Result<Posting, DecodeError>>::empty());
                assert(decoder_items(state) =~= seq![Err::<Posting, DecodeError>(source)]);
                assert(tagged_items(segment_id, decoder_items(state)) =~= seq![
                    Err::<AddressedPosting, SegmentDecodeError>(
                        SegmentDecodeError { segment_id, source },
                    ),
                ]);
            },
        }
    }
}

/// Whether the postings among `items`, errors left aside, come in strictly
/// increasing order of address.
pub open spec fn postings_increase(items: Seq<Result<AddressedPosting, SegmentDecodeError>>) -> bool {
    forall|a: int, b: int|
        0 <= a < b < items.len() && (#[trigger] items[a]) is Ok && (#[trigger] items[b]) is Ok
            ==> address_less(items[a]->Ok_0.address, items[b]->Ok_0.address)
}

/// A decoder returns postings of strictly increasing document identifiers,
/// all above the last one it had produced.
proof fn lemma_decoder_items_increase(state: DecoderState)
    ensures
        forall|a: int, b: int|
            0 <= a < b < decoder_items(state).len() && (#[trigger] decoder_items(state)[a]) is Ok
                && (#[trigger] decoder_items(state)[b]) is Ok ==> decoder_items(state)[a]->Ok_0.document_id
                < decoder_items(state)[b]->Ok_0.document_id,
        forall|a: int|
            0 <= a < decoder_items(state).len() && (#[trigger] decoder_items(state)[a]) is Ok
                && state.previous is Some ==> state.previous->Some_0 < decoder_items(
                state,
            )[a]->Ok_0.document_id,
    decreases weight(state),
{
    let (after, output) = spec_next(state);
    lemma_decoder_progress(state);
    let items = decoder_items(state);
    match output {
        None => {},
        Some(Err(_)) => {
            assert(after.finished);
            assert(decoder_items(after) =~= Seq::<Result<Posting, DecodeError>>::empty());
            assert(items.len() == 1);
        },
        Some(Ok(posting)) => {
            lemma_decoder_items_increase(after);
            let rest = decoder_items(after);
            assert(items == seq![Ok::<Posting, DecodeError>(posting)] + rest);
            assert(after.previous == Some(posting.document_id));
            assert forall|a: int, b: int|
                0 <= a < b < items.len() && (#[trigger] items[a]) is Ok && (#[trigger] items[b]) is Ok
                    implies items[a]->Ok_0.document_id < items[b]->Ok_0.document_id by {
                if a > 0 {
                    assert(items[a] == rest[a - 1] && items[b] == rest[b - 1]);
                } else {
                    assert(items[b] == rest[b - 1]);
                }
            }
            assert forall|a: int|
                0 <= a < items.len() && (#[trigger] items[a]) is Ok && state.previous is Some
                    implies state.previous->Some_0 < items[a]->Ok_0.document_id by {
                if a > 0 {
                    assert(items[a] == rest[a - 1]);
                }
            }
        },
    }
}

/// The postings of the decoders from `index` on strictly increase in address
/// when the segments' identifiers strictly increase, and all lie in segments
/// from `index` on.
proof fn lemma_segment_items_increase(segments: Seq<(SegmentId, DecoderState)>, index: nat)
    requires
        forall|i: int, j: int|
            index <= i < j < segments.len() ==> (#[trigger] segments[i]).0.spec_value()
                < (#[trigger] segments[j]).0.spec_value(),
    ensures
        postings_increase(segment_items(segments, index)),
        forall|a: int|
            0 <= a < segment_items(segments, index).len() && (#[trigger] segment_items(
                segments,
                index,
            )[a]) is Ok ==> segments[index as int].0.spec_value() <= segment_items(
                segments,
                index,
            )[a]->Ok_0.address.segment_id.spec_value(),
    decreases segments.len() - index,
{
    if index < segments.len() {
        lemma_segment_items_increase(segments, index + 1);
        let segment_id = segments[index as int].0;
        let own = decoder_items(segments[index as int].1);
        lemma_decoder_items_increase(segments[index as int].1);
        let first = tagged_items(segment_id, own);
        let rest = segment_items(segments, index + 1);
        let items = segment_items(segments, index);
        assert(items == first + rest);
        assert forall|a: int| 0 <= a < first.len() && (#[trigger] first[a]) is Ok implies own[a] is Ok
            && first[a]->Ok_0.address == (DocumentAddress {
                segment_id,
                local_document_id: own[a]->Ok_0.document_id,
            }) by {}
        assert forall|a: int, b: int|
            0 <= a < b < items.len() && (#[trigger] items[a]) is Ok && (#[trigger] items[b]) is Ok
                implies address_less(items[a]->Ok_0.address, items[b]->Ok_0.address) by {
            if b < first.len() {
                assert(items[a] == first[a] && items[b] == first[b]);
                assert(own[a] is Ok && own[b] is Ok);
            } else if a < first.len() {
                assert(items[a] == first[a] && items[b] == rest[b - first.len()]);
                assert(index + 1 < segments.len());
                assert(segments[index as int].0.spec_value() < segments[index + 1int].0.spec_value());
            } else {
                assert(items[a] == rest[a - first.len()] && items[b] == rest[b - first.len()]);
            }
        }
        assert forall|a: int| 0 <= a < items.len() && (#[trigger] items[a]) is Ok implies segment_id.spec_value()
            <= items[a]->Ok_0.address.segment_id.spec_value() by {
            if a < first.len() {
                assert(items[a] == first[a]);
            } else {
                assert(items[a] == rest[a - first.len()]);
                assert(segments[index as int].0.spec_value() < segments[index + 1int].0.spec_value());
            }
        }
    }
}

/// When the segments' identifiers strictly increase, the postings that
/// successive calls of `next` return strictly increase in address: by
/// segment, then by document within a segment.
pub proof fn lemma_multi_drain_increases(segments: Seq<(SegmentId, DecoderState)>)
    requires
        forall|i: int, j: int|
            0 <= i < j < segments.len() ==> (#[trigger] segments[i]).0.spec_value()
                < (#[trigger] segments[j]).0.spec_value(),
    ensures
        postings_increase(multi_drain(segments, 0)),
{
    lemma_multi_drain(segments, 0);
    lemma_segment_items_increase(segments, 0);
}

/// What calling `next` until it returns nothing yields: every posting in
/// order, or the first decoding error.
pub open spec fn multi_collect(segments: Seq<(SegmentId, DecoderState)>, index: nat) -> Result<
    Seq<AddressedPosting>,
    SegmentDecodeError,
>
    decreases potential(segments, index),
{
    let (after, next_index, output) = multi_next(segments, index);
    match output {
        None => Ok(Seq::empty()),
        Some(Err(error)) => Err(error),
        Some(Ok(posting)) => {
            proof {
                lemma_multi_next_progress(segments, index);
            }
            match multi_collect(after, next_index) {
                Ok(rest) => Ok(seq![posting] + rest),
                Err(error) => Err(error),
            }
        },
    }
}

/// The postings of one term in several segments, decoded lazily in segment
/// order.
pub struct MultiSegmentPostings<'a> {
    segment_decoders: Vec<(SegmentId, PostingsDecoder<'a>)>,
    current_segment_index: usize,
}

/// The abstract state of the decoders.
pub open spec fn decoder_states<'a>(decoders: Seq<(SegmentId, PostingsDecoder<'a>)>) -> Seq<
    (SegmentId, DecoderState),
> {
    decoders.map_values(|entry: (SegmentId, PostingsDecoder<'a>)| (entry.0, entry.1.state()))
}

/// Whether every decoder keeps its invariant.
pub open spec fn decoders_wf<'a>(decoders: Seq<(SegmentId, PostingsDecoder<'a>)>) -> bool {
    forall|i: int| 0 <= i < decoders.len() ==> (#[trigger] decoders[i]).1.wf()
}

impl<'a> MultiSegmentPostings<'a> {
    /// The segments' decoders, as abstract states.
    pub closed spec fn segments(&self) -> Seq<(SegmentId, DecoderState)> {
        decoder_states(self.segment_decoders@)
    }

    /// The position of the segment being decoded.
    pub closed spec fn current(&self) -> nat {
        self.current_segment_index as nat
    }

    /// Every decoder keeps its invariant.
    pub closed spec fn wf(&self) -> bool {
        decoders_wf(self.segment_decoders@)
    }

    /// The postings of the given decoders, one segment after another.
    pub fn new(segment_decoders: Vec<(SegmentId, PostingsDecoder<'a>)>) -> (postings: Self)
        requires
            decoders_wf(segment_decoders@),
        ensures
            postings.wf(),
            postings.segments() == decoder_states(segment_decoders@),
            postings.current() == 0,
    {
        MultiSegmentPostings { segment_decoders, current_segment_index: 0 }
    }

    /// The next posting of the current segment, moving on to the next
    /// segment when one is done; see `multi_next`.
    pub fn next(&mut self) -> (result: Option<Result<AddressedPosting, SegmentDecodeError>>)
        requires
            old(self).wf(),
        ensures
            final(self).wf(),
            (final(self).segments(), final(self).current(), result) == multi_next(
                old(self).segments(),
                old(self).current(),
            ),
    {
        let ghost start = multi_next(self.segments(), self.current());
        loop
            invariant
                self.wf(),
                multi_next(self.segments(), self.current()) == start,
                start == multi_next(old(self).segments(), old(self).current()),
            decreases self.segment_decoders@.len() - self.current_segment_index,
        {
            let index = self.current_segment_index;
            if index >= self.segment_decoders.len() {
                return None;
            }
            let (segment_id, decoder) = self.segment_decoders[index];
            let mut decoder = decoder;
            assert(self.segment_decoders@[index as int].1.wf());
            let output = decoder.next();
            let ghost before = self.segment_decoders@;
            self.segment_decoders.set(index, (segment_id, decoder));
            assert(decoder_states(self.segment_decoders@) =~= decoder_states(before).update(
                index as int,
                (segment_id, decoder.state()),
            ));
            match output {
                Some(Ok(posting)) => {
                    return Some(
                        Ok(
                            AddressedPosting {
                                address: DocumentAddress {
                                    segment_id,
                                    local_document_id: posting.document_id,
                                },
                                term_frequency: posting.term_frequency,
                            },
                        ),
                    );
                },
                Some(Err(source)) => {
                    self.current_segment_index = index + 1;
                    return Some(Err(SegmentDecodeError { segment_id, source }));
                },
                None => {
                    self.current_segment_index = index + 1;
                },
            }
        }
    }

    /// Decodes every remaining posting, stopping at the first error.
    pub fn collect(self) -> (result: Result<Vec<AddressedPosting>, SegmentDecodeError>)
        requires
            self.wf(),
        ensures
            match multi_collect(self.segments(), self.current()) {
                Ok(all) => result matches Ok(postings) && postings@ == all,
                Err(error) => result == Err::<Vec<AddressedPosting>, SegmentDecodeError>(error),
            },
    {
        let ghost whole = multi_collect(self.segments(), self.current());
        let mut remaining = self;
        let mut postings: Vec<AddressedPosting> = Vec::new();
        loop
            invariant
                remaining.wf(),
                whole == multi_collect(self.segments(), self.current()),
                whole == match multi_collect(remaining.segments(), remaining.current()) {
                    Ok(rest) => Ok(postings@ + rest),
                    Err(error) => Err(error),
                },
            decreases potential(remaining.segments(), remaining.current()),
        {
            let ghost before = remaining;
            proof {
                lemma_multi_next_progress(before.segments(), before.current());
            }
            match remaining.next() {
                None => {
                    assert(postings@ + Seq::<AddressedPosting>::empty() =~= postings@);
                    return Ok(postings);
                },
                Some(Err(error)) => return Err(error),
                Some(Ok(posting)) => {
                    let ghost previous = postings@;
                    postings.push(posting);
                    proof {
                        if let Ok(rest) = multi_collect(remaining.segments(), remaining.current()) {
                            assert(previous + (seq![posting] + rest) =~= postings@ + rest);
                        }
                    }
                },
            }
        }
    }
}

} // verus!
