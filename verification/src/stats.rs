//! What a lookup reports about the snapshot it searched, the work it did and
//! how long it took.

use core::time::Duration;
use vstd::prelude::*;

verus! {

/// A lookup's report.
#[derive(Debug, PartialEq, Eq)]
pub struct LookupStats {
    pub snapshot: SnapshotStats,
    pub query: TermLookupStats,
    pub timings: LookupTimings,
}

/// The snapshot a lookup searched.
#[derive(Debug, Clone, PartialEq, Eq)]
pub struct SnapshotStats {
    pub manifest_generation: Option<u64>,
    pub segment_count: usize,
    pub total_segment_bytes: u64,
    pub total_document_count: u64,
    pub total_term_entries: u64,
}

/// The work a lookup did.
#[derive(Debug, Clone, PartialEq, Eq)]
pub struct TermLookupStats {
    pub searched_segment_count: usize,
    pub matching_segment_count: usize,
    pub dictionary_comparisons: u64,
    pub matched_document_count: usize,
    pub encoded_postings_bytes: usize,
}

impl TermLookupStats {
    /// Whether some segment has the term.
    pub fn term_found(&self) -> (found: bool)
        ensures
            found == (self.matching_segment_count > 0),
    {
        self.matching_segment_count > 0
    }
}

/// How long the parts of a lookup took.
#[derive(Debug, PartialEq, Eq)]
pub struct LookupTimings {
    pub dictionary_lookup_duration: Duration,
    pub postings_decode_duration: Duration,
    pub total_duration: Duration,
}

} // verus!
