//! One lookup against a snapshot: find the term's postings in every
//! segment, decode them all, and report the work done and its timings.

use crate::clock::{elapsed, now};
use crate::debug_text::{decode_error_debug, decode_error_text};
use crate::index_snapshot::IndexSnapshot;
use crate::manifest::{total_bytes, total_documents, total_terms};
use crate::model::AddressedPosting;
use crate::multi_segment_postings::multi_collect;
use crate::multi_segment_query_engine::{
    lemma_multi_failure_message, lookup_from, multi_failure_message, no_progress, records,
};
use crate::query_engine::{query_error_message, valid_query};
use crate::stats::{LookupStats, LookupTimings, SnapshotStats, TermLookupStats};
use crate::text::{decimal, format_decimal, join2, join3};
use core::time::Duration;
use vstd::prelude::*;

verus! {

/// The postings a lookup found and its report.
#[derive(Debug)]
pub struct LookupResult {
    pub postings: Vec<AddressedPosting>,
    pub stats: LookupStats,
}

/// Runs lookups against snapshots.
pub struct LookupExecutor;

impl Default for LookupExecutor {
    fn default() -> (executor: Self)
        ensures
            executor == LookupExecutor,
    {
        LookupExecutor::new()
    }
}

/// The snapshot part of a lookup's report on `snapshot`.
pub open spec fn snapshot_stats(snapshot: IndexSnapshot) -> SnapshotStats {
    let segments = records(snapshot.managed());
    SnapshotStats {
        manifest_generation: snapshot.spec_generation(),
        segment_count: snapshot.managed().len() as usize,
        total_segment_bytes: total_bytes(segments, segments.len() as int) as u64,
        total_document_count: total_documents(segments, segments.len() as int) as u64,
        total_term_entries: total_terms(segments, segments.len() as int) as u64,
    }
}

/// What a lookup of `term` in `snapshot` gives: the message of the first
/// failure, or every posting in segment order with the counts of the work.
pub open spec fn lookup_report(
    result: Result<LookupResult, String>,
    snapshot: IndexSnapshot,
    term: Seq<char>,
) -> bool {
    if !valid_query(term) {
        result matches Err(message) && message@ == "failed to query index: "@
            + "query must be one ASCII-alphanumeric word"@
    } else {
        match lookup_from(snapshot.managed(), term, 0, no_progress()) {
            Err(failure) => result matches Err(message) && message@ == "failed to query index: "@
                + multi_failure_message(failure),
            Ok(progress) => match multi_collect(progress.decoders, 0) {
                Err(error) => result matches Err(message) && message@
                    == "failed to decode postings in segment "@ + decimal(
                    error.segment_id.spec_value() as nat,
                ) + ": "@ + decode_error_text(error.source),
                Ok(postings) => result matches Ok(found) && found.postings@ == postings
                    && found.stats.snapshot == snapshot_stats(snapshot) && found.stats.query
                    == TermLookupStats {
                    searched_segment_count: snapshot.managed().len() as usize,
                    matching_segment_count: progress.matching as usize,
                    dictionary_comparisons: progress.comparisons as u64,
                    matched_document_count: postings.len() as usize,
                    encoded_postings_bytes: progress.encoded_bytes as usize,
                },
            },
        }
    }
}

impl LookupExecutor {
    /// An executor.
    pub fn new() -> (executor: Self)
        ensures
            executor == LookupExecutor,
    {
        LookupExecutor
    }

    /// Looks `term` up in every segment of `index_snapshot`, decodes all
    /// its postings, and reports the snapshot, the work and the timings.
    pub fn lookup(&self, index_snapshot: &IndexSnapshot, term: &str) -> (result: Result<
        LookupResult,
        String,
    >)
        ensures
            lookup_report(result, *index_snapshot, term@),
    {
        let total_started = now();
        let dictionary_lookup_started = now();
        let query_result = match index_snapshot.query_term_with_stats(term) {
            Ok(found) => found,
            Err(error) => {
                proof {
                    if valid_query(term@) {
                        if let Err(failure) = lookup_from(
                            index_snapshot.managed(),
                            term@,
                            0,
                            no_progress(),
                        ) {
                            lemma_multi_failure_message(error, failure);
                        }
                    }
                }
                let text = error.message();
                return Err(join2("failed to query index: ", text.as_str()));
            },
        };
        let dictionary_lookup_duration = elapsed(&dictionary_lookup_started);
        let dictionary_stats = query_result.dictionary_stats;
        let postings_decode_started = now();
        let postings = match query_result.postings.collect() {
            Ok(postings) => postings,
            Err(error) => {
                let segment = format_decimal(error.segment_id.value(), 0);
                let source = decode_error_debug(error.source);
                let start = join3("failed to decode postings in segment ", segment.as_str(), ": ");
                return Err(join2(start.as_str(), source.as_str()));
            },
        };
        let postings_decode_duration = elapsed(&postings_decode_started);
        let snapshot = SnapshotStats {
            manifest_generation: index_snapshot.generation(),
            segment_count: index_snapshot.segment_count(),
            total_segment_bytes: index_snapshot.total_segment_bytes(),
            total_document_count: index_snapshot.total_document_count(),
            total_term_entries: index_snapshot.total_term_entries(),
        };
        let query = TermLookupStats {
            searched_segment_count: dictionary_stats.searched_segment_count,
            matching_segment_count: dictionary_stats.matching_segment_count,
            dictionary_comparisons: dictionary_stats.dictionary_comparisons,
            matched_document_count: postings.len(),
            encoded_postings_bytes: dictionary_stats.encoded_postings_bytes,
        };
        let timings = LookupTimings {
            dictionary_lookup_duration,
            postings_decode_duration,
            total_duration: elapsed(&total_started),
        };
        Ok(LookupResult { postings, stats: LookupStats { snapshot, query, timings } })
    }
}

} // verus!
