//! The order of segment identifiers and document addresses, stated over
//! their numbers.

use crate::model::{DocumentAddress, SegmentId};
use core::cmp::Ordering;
use vstd::prelude::*;
use vstd::std_specs::cmp::PartialOrdSpec;

verus! {

/// Segment identifiers compare as their numbers do: less exactly when the
/// number is smaller, greater exactly when it is larger, equal exactly when
/// the identifiers are the same; swapping the two swaps less and greater.
pub proof fn lemma_segment_id_comparison(a: SegmentId, b: SegmentId)
    ensures
        a.partial_cmp_spec(&b) == Some(Ordering::Less) <==> a.spec_value() < b.spec_value(),
        a.partial_cmp_spec(&b) == Some(Ordering::Greater) <==> a.spec_value() > b.spec_value(),
        a.partial_cmp_spec(&b) == Some(Ordering::Equal) <==> a == b,
        a.partial_cmp_spec(&b) == Some(Ordering::Less) <==> b.partial_cmp_spec(&a) == Some(
            Ordering::Greater,
        ),
{
    a.lemma_value(b);
}

/// Addresses compare by segment identifier first and by local document
/// identifier within one segment: less exactly when the segment's number is
/// smaller or, in the same segment, the document identifier is; greater in
/// the mirrored case; equal exactly when the addresses are the same. The
/// comparison is antisymmetric: swapping the two swaps less and greater.
pub proof fn lemma_address_comparison(a: DocumentAddress, b: DocumentAddress)
    ensures
        a.partial_cmp_spec(&b) == Some(Ordering::Less) <==> (a.segment_id.spec_value()
            < b.segment_id.spec_value() || (a.segment_id.spec_value() == b.segment_id.spec_value()
            && a.local_document_id < b.local_document_id)),
        a.partial_cmp_spec(&b) == Some(Ordering::Greater) <==> (b.segment_id.spec_value()
            < a.segment_id.spec_value() || (a.segment_id.spec_value() == b.segment_id.spec_value()
            && b.local_document_id < a.local_document_id)),
        a.partial_cmp_spec(&b) == Some(Ordering::Equal) <==> a == b,
        a.partial_cmp_spec(&b) == Some(Ordering::Less) <==> b.partial_cmp_spec(&a) == Some(
            Ordering::Greater,
        ),
        a.partial_cmp_spec(&b) is Some,
{
    a.segment_id.lemma_value(b.segment_id);
}

} // verus!
