//! The postings-list codec: document identifiers are delta-encoded and each
//! posting is written as two varints, the delta and the term frequency.

use crate::model::{DocumentId, Posting};
use crate::varint;
use vstd::prelude::*;

verus! {

/// Why a postings list cannot be encoded.
#[derive(Debug, Clone, Copy, PartialEq, Eq, Structural)]
pub enum EncodeError {
    ZeroFrequency { document_id: DocumentId },
    DocumentIdsNotStrictlyIncreasing { previous: DocumentId, current: DocumentId },
}

/// The problem with posting `i`, given the one before it, if there is one.
pub open spec fn posting_error_at(postings: Seq<Posting>, i: int) -> Option<EncodeError> {
    if i > 0 && postings[i - 1].document_id >= postings[i].document_id {
        Some(
            EncodeError::DocumentIdsNotStrictlyIncreasing {
                previous: postings[i - 1].document_id,
                current: postings[i].document_id,
            },
        )
    } else if postings[i].term_frequency == 0 {
        Some(EncodeError::ZeroFrequency { document_id: postings[i].document_id })
    } else {
        None
    }
}

/// The outcome of validating `postings` from index `i` on: the problem with
/// the first posting that has one.
pub open spec fn validate_from(postings: Seq<Posting>, i: nat) -> Result<(), EncodeError>
    decreases postings.len() - i,
{
    if i >= postings.len() {
        Ok(())
    } else {
        match posting_error_at(postings, i as int) {
            Some(error) => Err(error),
            None => validate_from(postings, i + 1),
        }
    }
}

/// Validation of a whole list.
pub open spec fn spec_validate(postings: Seq<Posting>) -> Result<(), EncodeError> {
    validate_from(postings, 0)
}

/// A list the codec accepts: strictly increasing document identifiers and no
/// zero frequency.
pub open spec fn valid_postings(postings: Seq<Posting>) -> bool {
    forall|i: int| 0 <= i < postings.len() ==> #[trigger] posting_error_at(postings, i) is None
}

/// The gap that posting `i` stores: its document identifier for the first
/// posting, the distance from the previous identifier otherwise.
pub open spec fn document_delta(postings: Seq<Posting>, i: int) -> u32 {
    if i == 0 {
        postings[0].document_id
    } else {
        (postings[i].document_id - postings[i - 1].document_id) as u32
    }
}

/// The bytes of posting `i`: its delta, then its frequency.
pub open spec fn posting_bytes(postings: Seq<Posting>, i: int) -> Seq<u8> {
    varint::spec_encode(document_delta(postings, i)) + varint::spec_encode(
        postings[i].term_frequency,
    )
}

/// The encoding of a whole list: the postings' bytes one after another.
pub open spec fn spec_encode(postings: Seq<Posting>) -> Seq<u8>
    decreases postings.len(),
{
    if postings.len() == 0 {
        Seq::empty()
    } else {
        spec_encode(postings.drop_last()) + posting_bytes(postings, postings.len() - 1)
    }
}

proof fn lemma_validate_from(postings: Seq<Posting>, i: nat)
    requires
        i <= postings.len(),
    ensures
        validate_from(postings, i) is Ok <==> (forall|j: int|
            i <= j < postings.len() ==> #[trigger] posting_error_at(postings, j) is None),
    decreases postings.len() - i,
{
    if i < postings.len() {
        lemma_validate_from(postings, i + 1);
    }
}

/// Validation succeeds exactly on the lists the codec accepts.
pub proof fn lemma_validate_ok(postings: Seq<Posting>)
    ensures
        spec_validate(postings) is Ok <==> valid_postings(postings),
{
    lemma_validate_from(postings, 0);
}

/// The codec accepts a list exactly when its document identifiers strictly
/// increase and none of its frequencies is zero; validation succeeds on
/// exactly those lists.
pub proof fn lemma_valid_postings_iff(postings: Seq<Posting>)
    ensures
        valid_postings(postings) <==> (forall|i: int, j: int|
            0 <= i < j < postings.len() ==> (#[trigger] postings[i]).document_id < (
            #[trigger] postings[j]).document_id) && (forall|i: int|
            0 <= i < postings.len() ==> (#[trigger] postings[i]).term_frequency != 0),
        spec_validate(postings) is Ok <==> valid_postings(postings),
{
    lemma_validate_ok(postings);
    if valid_postings(postings) {
        assert forall|i: int| 0 <= i < postings.len() implies (#[trigger] postings[i]).term_frequency
            != 0 by {
            assert(posting_error_at(postings, i) is None);
        }
        assert forall|i: int, j: int| 0 <= i < j < postings.len() implies (
        #[trigger] postings[i]).document_id < (#[trigger] postings[j]).document_id by {
            lemma_valid_increasing(postings, i, j);
        }
    }
    if (forall|i: int, j: int|
        0 <= i < j < postings.len() ==> (#[trigger] postings[i]).document_id < (
        #[trigger] postings[j]).document_id) && (forall|i: int|
        0 <= i < postings.len() ==> (#[trigger] postings[i]).term_frequency != 0) {
        assert forall|i: int| 0 <= i < postings.len() implies #[trigger] posting_error_at(postings, i)
            is None by {
            if i > 0 {
                assert(postings[i - 1].document_id < postings[i].document_id);
            }
        }
    }
}

proof fn lemma_valid_increasing(postings: Seq<Posting>, i: int, j: int)
    requires
        valid_postings(postings),
        0 <= i < j < postings.len(),
    ensures
        postings[i].document_id < postings[j].document_id,
    decreases j - i,
{
    assert(posting_error_at(postings, j) is None);
    if i < j - 1 {
        lemma_valid_increasing(postings, i, j - 1);
    }
}

/// Checks that document identifiers strictly increase and that no frequency
/// is zero, reporting the first posting that breaks either rule.
pub fn validate(postings: &[Posting]) -> (result: Result<(), EncodeError>)
    ensures
        result == spec_validate(postings@),
{
    let mut i: usize = 0;
    while i < postings.len()
        invariant
            i <= postings@.len(),
            validate_from(postings@, i as nat) == spec_validate(postings@),
        decreases postings@.len() - i,
    {
        let posting = postings[i];
        if i > 0 && postings[i - 1].document_id >= posting.document_id {
            return Err(
                EncodeError::DocumentIdsNotStrictlyIncreasing {
                    previous: postings[i - 1].document_id,
                    current: posting.document_id,
                },
            );
        }
        if posting.term_frequency == 0 {
            return Err(EncodeError::ZeroFrequency { document_id: posting.document_id });
        }
        i = i + 1;
    }
    Ok(())
}

/// Validates `postings` and, when they are valid, appends their encoding to
/// `output`; on an error `output` is left as it was.
pub fn encode(postings: &[Posting], output: &mut Vec<u8>) -> (result: Result<(), EncodeError>)
    ensures
        result == spec_validate(postings@),
        result is Ok ==> final(output)@ == old(output)@ + spec_encode(postings@),
        result is Err ==> final(output)@ == old(output)@,
{
    let validated = validate(postings);
    if let Err(error) = validated {
        return Err(error);
    }

    proof {
        lemma_validate_ok(postings@);
    }
    let ghost start = output@;
    let mut i: usize = 0;
    while i < postings.len()
        invariant
            i <= postings@.len(),
            valid_postings(postings@),
            validated == spec_validate(postings@),
            validated is Ok,
            output@ == start + spec_encode(postings@.subrange(0, i as int)),
        decreases postings@.len() - i,
    {
        let posting = postings[i];
        let delta = if i == 0 {
            posting.document_id
        } else {
            assert(posting_error_at(postings@, i as int) is None);
            posting.document_id - postings[i - 1].document_id
        };
        varint::encode(delta, output);
        varint::encode(posting.term_frequency, output);
        proof {
            let prefix = postings@.subrange(0, i + 1);
            assert(prefix.drop_last() =~= postings@.subrange(0, i as int));
            assert(posting_bytes(prefix, i as int) == posting_bytes(postings@, i as int));
        }
        i = i + 1;
    }
    assert(postings@.subrange(0, i as int) =~= postings@);
    validated
}

/// Why decoding a postings list stopped.
#[derive(Debug, Clone, Copy, PartialEq, Eq, Structural)]
pub enum DecodeError {
    InvalidDocumentDelta(varint::DecodeError),
    InvalidTermFrequency(varint::DecodeError),
    DocumentIdOverflow,
    ZeroDelta { previous_document_id: DocumentId },
    ZeroFrequency { document_id: DocumentId },
    TrailingBytes,
}

/// The abstract state of a decoder: the bytes it has not read, the last
/// document identifier it produced, how many postings it still expects, and
/// whether it has stopped.
pub struct DecoderState {
    pub remaining: Seq<u8>,
    pub previous: Option<DocumentId>,
    pub remaining_postings: nat,
    pub finished: bool,
}

/// A decoder over `bytes` that expects `posting_count` postings.
pub open spec fn initial_state(bytes: Seq<u8>, posting_count: nat) -> DecoderState {
    DecoderState { remaining: bytes, previous: None, remaining_postings: posting_count, finished: false }
}

/// What one call of `next` does: the state after it and what it returns.
///
/// A stopped decoder returns nothing. One that expects no more postings stops,
/// reporting trailing bytes if any are left. Otherwise it reads a delta (the
/// bytes stay consumed even when the delta is then rejected) and a frequency,
/// and stops at the first problem.
pub open spec fn spec_next(state: DecoderState) -> (DecoderState, Option<Result<Posting, DecodeError>>) {
    let stopped = DecoderState { finished: true, ..state };
    if state.finished {
        (state, None)
    } else if state.remaining_postings == 0 {
        (stopped, if state.remaining.len() == 0 { None } else { Some(Err(DecodeError::TrailingBytes)) })
    } else {
        match varint::spec_decode(state.remaining) {
            Err(error) => (stopped, Some(Err(DecodeError::InvalidDocumentDelta(error)))),
            Ok((delta, delta_length)) => {
                let after_delta = state.remaining.subrange(delta_length as int, state.remaining.len() as int);
                let failed = DecoderState { remaining: after_delta, finished: true, ..state };
                let identifier: Result<u32, DecodeError> = match state.previous {
                    Some(previous) => if delta == 0 {
                        Err(DecodeError::ZeroDelta { previous_document_id: previous })
                    } else if previous + delta > u32::MAX {
                        Err(DecodeError::DocumentIdOverflow)
                    } else {
                        Ok((previous + delta) as u32)
                    },
                    None => Ok(delta),
                };
                match identifier {
                    Err(error) => (failed, Some(Err(error))),
                    Ok(document_id) => match varint::spec_decode(after_delta) {
                        Err(error) => (failed, Some(Err(DecodeError::InvalidTermFrequency(error)))),
                        Ok((term_frequency, frequency_length)) => if term_frequency == 0 {
                            (failed, Some(Err(DecodeError::ZeroFrequency { document_id })))
                        } else {
                            (
                                DecoderState {
                                    remaining: after_delta.subrange(frequency_length as int, after_delta.len() as int),
                                    previous: Some(document_id),
                                    remaining_postings: (state.remaining_postings - 1) as nat,
                                    finished: false,
                                },
                                Some(Ok(Posting { document_id, term_frequency })),
                            )
                        },
                    },
                }
            },
        }
    }
}

/// What `count` successive calls of `next` return.
pub open spec fn drain(state: DecoderState, count: nat) -> Seq<Option<Result<Posting, DecodeError>>>
    decreases count,
{
    if count == 0 {
        Seq::empty()
    } else {
        let (next_state, output) = spec_next(state);
        seq![output] + drain(next_state, (count - 1) as nat)
    }
}

/// Lazily decodes an encoded postings list, one posting per call of `next`.
#[derive(Debug, Clone, Copy)]
pub struct PostingsDecoder<'a> {
    bytes: &'a [u8],
    position: usize,
    previous_document_id: Option<DocumentId>,
    remaining_postings: usize,
    finished: bool,
}

impl<'a> PostingsDecoder<'a> {
    /// The decoder's abstract state.
    pub closed spec fn state(&self) -> DecoderState {
        DecoderState {
            remaining: self.bytes@.subrange(self.position as int, self.bytes@.len() as int),
            previous: self.previous_document_id,
            remaining_postings: self.remaining_postings as nat,
            finished: self.finished,
        }
    }

    /// The decoder's invariant: its position lies within its bytes.
    pub closed spec fn wf(&self) -> bool {
        self.position <= self.bytes@.len()
    }

    /// A decoder over `bytes` that expects `posting_count` postings.
    pub fn new(bytes: &'a [u8], posting_count: usize) -> (decoder: Self)
        ensures
            decoder.wf(),
            decoder.state() == initial_state(bytes@, posting_count as nat),
    {
        let decoder = Self {
            bytes,
            position: 0,
            previous_document_id: None,
            remaining_postings: posting_count,
            finished: false,
        };
        assert(bytes@.subrange(0, bytes@.len() as int) =~= bytes@);
        decoder
    }

    /// How many postings the decoder still expects.
    pub fn remaining_postings(&self) -> (count: usize)
        ensures
            count == self.state().remaining_postings,
    {
        self.remaining_postings
    }

    /// How many bytes the decoder has not read.
    pub fn remaining_bytes(&self) -> (count: usize)
        requires
            self.wf(),
        ensures
            count == self.state().remaining.len(),
    {
        self.bytes.len() - self.position
    }

    fn fail(&mut self, error: DecodeError) -> (result: Option<Result<Posting, DecodeError>>)
        ensures
            result == Some(Err::<Posting, DecodeError>(error)),
            *final(self) == (PostingsDecoder { finished: true, ..*old(self) }),
    {
        self.finished = true;
        Some(Err(error))
    }

    /// Decodes the next posting; see `spec_next` for what exactly happens.
    pub fn next(&mut self) -> (result: Option<Result<Posting, DecodeError>>)
        requires
            old(self).wf(),
        ensures
            final(self).wf(),
            (final(self).state(), result) == spec_next(old(self).state()),
    {
        let ghost old_state = self.state();
        if self.finished {
            return None;
        }
        let length = self.bytes.len();
        if self.remaining_postings == 0 {
            self.finished = true;
            if self.position == length {
                return None;
            }
            return Some(Err(DecodeError::TrailingBytes));
        }
        let (document_delta, delta_bytes) = match varint::decode(&self.bytes[self.position..length]) {
            Ok(decoded) => decoded,
            Err(error) => {
                return self.fail(DecodeError::InvalidDocumentDelta(error));
            },
        };
        proof {
            varint::lemma_decode_canonical(old_state.remaining);
        }
        self.position = self.position + delta_bytes;
        proof {
            assert(self.bytes@.subrange(self.position as int, length as int) =~= old_state.remaining.subrange(
                delta_bytes as int,
                old_state.remaining.len() as int,
            ));
        }
        let document_id = match self.previous_document_id {
            Some(previous) => {
                if document_delta == 0 {
                    return self.fail(DecodeError::ZeroDelta { previous_document_id: previous });
                }
                match previous.checked_add(document_delta) {
                    Some(document_id) => document_id,
                    None => return self.fail(DecodeError::DocumentIdOverflow),
                }
            },
            None => document_delta,
        };
        let (term_frequency, frequency_bytes) = match varint::decode(&self.bytes[self.position..length]) {
            Ok(decoded) => decoded,
            Err(error) => {
                return self.fail(DecodeError::InvalidTermFrequency(error));
            },
        };
        if term_frequency == 0 {
            return self.fail(DecodeError::ZeroFrequency { document_id });
        }
        proof {
            varint::lemma_decode_canonical(self.bytes@.subrange(self.position as int, length as int));
        }
        let ghost after_delta = self.bytes@.subrange(self.position as int, length as int);
        self.position = self.position + frequency_bytes;
        proof {
            assert(self.bytes@.subrange(self.position as int, length as int) =~= after_delta.subrange(
                frequency_bytes as int,
                after_delta.len() as int,
            ));
        }
        self.remaining_postings = self.remaining_postings - 1;
        self.previous_document_id = Some(document_id);
        Some(Ok(Posting { document_id, term_frequency }))
    }
}

/// The bytes of postings `i` onwards.
pub open spec fn suffix_bytes(postings: Seq<Posting>, i: nat) -> Seq<u8>
    decreases postings.len() - i,
{
    if i >= postings.len() {
        Seq::empty()
    } else {
        posting_bytes(postings, i as int) + suffix_bytes(postings, i + 1)
    }
}

proof fn lemma_encode_split(postings: Seq<Posting>, k: nat)
    requires
        k <= postings.len(),
    ensures
        spec_encode(postings.subrange(0, k as int)) + suffix_bytes(postings, k) == spec_encode(
            postings,
        ),
    decreases postings.len() - k,
{
    if k == postings.len() {
        assert(postings.subrange(0, k as int) =~= postings);
        assert(spec_encode(postings) + Seq::<u8>::empty() =~= spec_encode(postings));
    } else {
        lemma_encode_split(postings, k + 1);
        let next = postings.subrange(0, (k + 1) as int);
        assert(next.drop_last() =~= postings.subrange(0, k as int));
        assert(posting_bytes(next, k as int) == posting_bytes(postings, k as int));
        assert(spec_encode(next) == spec_encode(postings.subrange(0, k as int)) + posting_bytes(
            postings,
            k as int,
        ));
        assert(spec_encode(postings.subrange(0, k as int)) + suffix_bytes(postings, k) =~= (
        spec_encode(postings.subrange(0, k as int)) + posting_bytes(postings, k as int))
            + suffix_bytes(postings, k + 1));
    }
}

/// The state of a decoder of a valid list's encoding after it has produced
/// the first `i` postings.
pub open spec fn state_after(postings: Seq<Posting>, i: nat) -> DecoderState {
    DecoderState {
        remaining: suffix_bytes(postings, i),
        previous: if i == 0 { None } else { Some(postings[i - 1].document_id) },
        remaining_postings: (postings.len() - i) as nat,
        finished: false,
    }
}

/// From the state after `i` postings of a valid list, the next call
/// produces posting `i` and moves to the state after `i + 1`.
pub proof fn lemma_step(postings: Seq<Posting>, i: nat)
    requires
        valid_postings(postings),
        i < postings.len(),
    ensures
        spec_next(state_after(postings, i)) == (state_after(postings, i + 1), Some(
            Ok::<Posting, DecodeError>(postings[i as int]),
        )),
{
    let delta = document_delta(postings, i as int);
    let frequency = postings[i as int].term_frequency;
    let rest = suffix_bytes(postings, i + 1);
    let bytes = suffix_bytes(postings, i);
    assert(posting_error_at(postings, i as int) is None);
    assert(bytes =~= varint::spec_encode(delta) + (varint::spec_encode(frequency) + rest));
    varint::lemma_decode_encode(delta, varint::spec_encode(frequency) + rest);
    let after_delta = bytes.subrange(varint::spec_encode(delta).len() as int, bytes.len() as int);
    assert(after_delta =~= varint::spec_encode(frequency) + rest);
    varint::lemma_decode_encode(frequency, rest);
    assert(after_delta.subrange(varint::spec_encode(frequency).len() as int, after_delta.len() as int)
        =~= rest);
}

proof fn lemma_drain_from(postings: Seq<Posting>, i: nat)
    requires
        valid_postings(postings),
        i <= postings.len(),
    ensures
        drain(state_after(postings, i), (postings.len() - i + 1) as nat) == postings.subrange(
            i as int,
            postings.len() as int,
        ).map_values(|posting: Posting| Some(Ok::<Posting, DecodeError>(posting))).push(None),
    decreases postings.len() - i,
{
    let wrap = |posting: Posting| Some(Ok::<Posting, DecodeError>(posting));
    if i == postings.len() {
        assert(suffix_bytes(postings, i).len() == 0);
        assert(spec_next(state_after(postings, i)).1 == None::<Result<Posting, DecodeError>>);
        reveal_with_fuel(drain, 2);
        assert(drain(state_after(postings, i), 1) =~= seq![None]);
        assert(postings.subrange(i as int, postings.len() as int).map_values(wrap).push(None)
            =~= seq![None]);
    } else {
        lemma_step(postings, i);
        lemma_drain_from(postings, i + 1);
        assert(drain(state_after(postings, i), (postings.len() - i + 1) as nat) =~= seq![
            wrap(postings[i as int]),
        ] + drain(state_after(postings, i + 1), (postings.len() - i) as nat));
        assert(postings.subrange(i as int, postings.len() as int).map_values(wrap).push(None)
            =~= seq![wrap(postings[i as int])] + postings.subrange(
            (i + 1) as int,
            postings.len() as int,
        ).map_values(wrap).push(None));
    }
}

/// A fresh decoder over a list's encoding is in the state after no posting.
pub proof fn lemma_initial_state(postings: Seq<Posting>)
    ensures
        initial_state(spec_encode(postings), postings.len()) == state_after(postings, 0),
{
    lemma_encode_split(postings, 0);
    assert(postings.subrange(0, 0) =~= Seq::<Posting>::empty());
    assert(spec_encode(Seq::<Posting>::empty()) + suffix_bytes(postings, 0) =~= suffix_bytes(
        postings,
        0,
    ));
}

/// Decoding the encoding of a valid list gives back every posting in order
/// and then reports the end of the list.
pub proof fn lemma_postings_round_trip(postings: Seq<Posting>)
    requires
        valid_postings(postings),
    ensures
        drain(initial_state(spec_encode(postings), postings.len()), postings.len() + 1)
            == postings.map_values(|posting: Posting| Some(Ok::<Posting, DecodeError>(posting))).push(
            None,
        ),
{
    lemma_encode_split(postings, 0);
    assert(postings.subrange(0, 0) =~= Seq::<Posting>::empty());
    assert(spec_encode(Seq::<Posting>::empty()) + suffix_bytes(postings, 0) =~= suffix_bytes(
        postings,
        0,
    ));
    assert(initial_state(spec_encode(postings), postings.len()) == state_after(postings, 0));
    lemma_drain_from(postings, 0);
    assert(postings.subrange(0, postings.len() as int) =~= postings);
}

/// Once a decoder has stopped it keeps returning nothing.
pub proof fn lemma_stopped_decoder(state: DecoderState)
    requires
        state.finished,
    ensures
        spec_next(state) == (state, None::<Result<Posting, DecodeError>>),
{
}

} // verus!
