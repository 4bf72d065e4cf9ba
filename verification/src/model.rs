//! Shared index types: postings, segment identifiers and physical document
//! addresses.

use core::cmp::Ordering;
use vstd::prelude::*;
use vstd::std_specs::cmp::PartialOrdSpecImpl;

verus! {

/// A document identifier local to one segment.
pub type DocumentId = u32;

/// How many times a term occurs in one document.
pub type TermFrequency = u32;

/// One document that contains a term, with the term's frequency in it.
#[derive(Debug, Clone, Copy, PartialEq, Eq, Structural)]
pub struct Posting {
    pub document_id: DocumentId,
    pub term_frequency: TermFrequency,
}

/// The identifier of an immutable segment; never zero.
#[derive(Debug, Clone, Copy, PartialEq, Eq, Structural, Ord, Hash)]
pub struct SegmentId(u64);

impl SegmentId {
    /// The number this identifier stands for.
    pub closed spec fn spec_value(self) -> u64 {
        self.0
    }

    /// An identifier's number is never zero.
    #[verifier::type_invariant]
    pub open spec fn nonzero(self) -> bool {
        self.spec_value() > 0
    }

    /// Identifiers are equal exactly when their numbers are.
    pub proof fn lemma_value(self, other: SegmentId)
        ensures
            self == other <==> self.spec_value() == other.spec_value(),
    {
    }

    /// Accepts every nonzero number; rejects zero with a message.
    pub fn new(segment_id: u64) -> (result: Result<SegmentId, String>)
        ensures
            result is Ok <==> segment_id > 0,
            result matches Ok(id) ==> id.spec_value() == segment_id,
            result matches Err(message) ==> message@ == "Segment ID LTE to 0 not allowed"@,
    {
        if segment_id <= 0 {
            return Err(String::from_str("Segment ID LTE to 0 not allowed"));
        }
        Ok(SegmentId(segment_id))
    }

    /// The number this identifier stands for.
    pub fn value(&self) -> (value: u64)
        ensures
            value == self.spec_value(),
            value > 0,
    {
        proof {
            use_type_invariant(self);
        }
        self.0
    }
}

/// Identifiers are ordered by their numbers.
impl PartialOrd for SegmentId {
    fn partial_cmp(&self, other: &Self) -> (result: Option<Ordering>) {
        if self.0 < other.0 {
            Some(Ordering::Less)
        } else if self.0 > other.0 {
            Some(Ordering::Greater)
        } else {
            Some(Ordering::Equal)
        }
    }
}

impl PartialOrdSpecImpl for SegmentId {
    open spec fn obeys_partial_cmp_spec() -> bool {
        true
    }

    open spec fn partial_cmp_spec(&self, other: &Self) -> Option<Ordering> {
        if self.spec_value() < other.spec_value() {
            Some(Ordering::Less)
        } else if self.spec_value() > other.spec_value() {
            Some(Ordering::Greater)
        } else {
            Some(Ordering::Equal)
        }
    }
}

/// Where a document lives: its segment and its identifier inside it.
#[derive(Debug, Clone, Copy, PartialEq, Eq, Structural, Ord)]
pub struct DocumentAddress {
    pub segment_id: SegmentId,
    pub local_document_id: u32,
}

/// A posting together with the segment it was found in.
#[derive(Debug, Clone, Copy, PartialEq, Eq, Structural)]
pub struct AddressedPosting {
    pub address: DocumentAddress,
    pub term_frequency: u32,
}

/// Addresses are ordered by segment first, then by local document identifier.
pub open spec fn address_less(a: DocumentAddress, b: DocumentAddress) -> bool {
    a.segment_id.spec_value() < b.segment_id.spec_value() || (a.segment_id.spec_value()
        == b.segment_id.spec_value() && a.local_document_id < b.local_document_id)
}

impl PartialOrd for DocumentAddress {
    fn partial_cmp(&self, other: &Self) -> (result: Option<Ordering>) {
        if self.segment_id.0 < other.segment_id.0 {
            Some(Ordering::Less)
        } else if self.segment_id.0 > other.segment_id.0 {
            Some(Ordering::Greater)
        } else if self.local_document_id < other.local_document_id {
            Some(Ordering::Less)
        } else if self.local_document_id > other.local_document_id {
            Some(Ordering::Greater)
        } else {
            Some(Ordering::Equal)
        }
    }
}

impl PartialOrdSpecImpl for DocumentAddress {
    open spec fn obeys_partial_cmp_spec() -> bool {
        true
    }

    open spec fn partial_cmp_spec(&self, other: &Self) -> Option<Ordering> {
        if address_less(*self, *other) {
            Some(Ordering::Less)
        } else if address_less(*other, *self) {
            Some(Ordering::Greater)
        } else {
            Some(Ordering::Equal)
        }
    }
}

/// The order on addresses is a strict total order that puts every address of
/// an earlier segment before every address of a later one.
pub proof fn lemma_address_order(a: DocumentAddress, b: DocumentAddress, c: DocumentAddress)
    ensures
        !address_less(a, a),
        address_less(a, b) ==> !address_less(b, a),
        address_less(a, b) && address_less(b, c) ==> address_less(a, c),
        address_less(a, b) || address_less(b, a) || a == b,
        a.segment_id.spec_value() < b.segment_id.spec_value() ==> address_less(a, b),
{
    a.segment_id.lemma_value(b.segment_id);
}

} // verus!
