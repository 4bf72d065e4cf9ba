//! What creating an index from a corpus reports.

use core::time::Duration;
use vstd::prelude::*;

verus! {

/// The report of one index creation.
#[derive(Debug, PartialEq, Eq)]
pub struct IndexCreationStats {
    pub corpus: CorpusStats,
    pub index: IndexStats,
    pub segment: SegmentStats,
    pub timings: IndexCreationTimings,
}

/// The corpus that was read.
#[derive(Debug, Clone, PartialEq, Eq)]
pub struct CorpusStats {
    pub input_bytes: u64,
    pub document_count: u32,
    pub token_count: u64,
}

/// The index that was built.
#[derive(Debug, Clone, PartialEq, Eq)]
pub struct IndexStats {
    pub unique_term_count: usize,
    pub posting_count: usize,
}

/// The segment that was written.
#[derive(Debug, Clone, PartialEq, Eq)]
pub struct SegmentStats {
    pub segment_bytes: u64,
}

/// How long each step took.
#[derive(Debug, PartialEq, Eq)]
pub struct IndexCreationTimings {
    pub validation_duration: Duration,
    pub indexing_duration: Duration,
    pub finalization_duration: Duration,
    pub segment_write_duration: Duration,
    pub total_duration: Duration,
}

} // verus!
