//! A snapshot of the index: the open segments of one manifest generation,
//! searched together.

use crate::binary_file::ErrorKind;
use crate::manifest::{
    metadata_views, total_bytes, total_documents, total_terms, totals_fit, validation_outcome,
    Manifest, ManifestError, SegmentMetadata,
};
use crate::multi_segment_postings::MultiSegmentPostings;
use crate::multi_segment_query_engine::{
    all_open, first_open_failure, lookup_from, lookup_outcome, no_progress, open_segments, query_segments,
    records, reports_failure, total_document_count, total_segment_bytes, total_term_entries,
    ManagedSegment, MultiSegmentTermQueryResult,
};
use crate::query_engine::{valid_query, QueryError};
use crate::segment_reader::SegmentReadError;
use vstd::prelude::*;

verus! {

/// Why a snapshot could not be built.
#[derive(Debug, PartialEq, Eq)]
pub enum SnapshotError {
    ZeroGeneration,
    Segment(SegmentReadError),
}

impl SnapshotError {
    /// The class of the error.
    pub fn kind(&self) -> (kind: ErrorKind)
        ensures
            self matches SnapshotError::ZeroGeneration ==> kind == ErrorKind::InvalidInput,
            self matches SnapshotError::Segment(e) ==> kind == (match e {
                SegmentReadError::File(crate::binary_file::FileError::TooSmall(_)) => ErrorKind::UnexpectedEof,
                SegmentReadError::Field(f) => if f.problem
                    == crate::binary_file::FieldProblem::Truncated {
                    ErrorKind::UnexpectedEof
                } else {
                    ErrorKind::InvalidData
                },
                SegmentReadError::TermIndexOutOfRange => ErrorKind::InvalidInput,
                _ => ErrorKind::InvalidData,
            }),
    {
        match self {
            SnapshotError::ZeroGeneration => ErrorKind::InvalidInput,
            SnapshotError::Segment(error) => error.kind(),
        }
    }
}

/// The open segments of one manifest generation, or of none.
pub struct IndexSnapshot {
    generation: Option<u64>,
    segments: Vec<ManagedSegment>,
}

impl IndexSnapshot {
    /// The manifest generation the snapshot shows, if any.
    pub closed spec fn spec_generation(&self) -> Option<u64> {
        self.generation
    }

    /// The open segments, in manifest order.
    pub closed spec fn managed(&self) -> Seq<ManagedSegment> {
        self.segments@
    }

    /// The segments' totals fit, as in every manifest.
    #[verifier::type_invariant]
    spec fn totals_in_range(self) -> bool {
        totals_fit(records(self.segments@))
    }

    /// A snapshot of no manifest: no generation and no segment.
    pub fn empty() -> (snapshot: IndexSnapshot)
        ensures
            snapshot.spec_generation() is None,
            snapshot.managed().len() == 0,
    {
        let snapshot = IndexSnapshot { generation: None, segments: Vec::new() };
        assert(records(snapshot.segments@) =~= Seq::empty());
        snapshot
    }

    /// The snapshot of generation `generation`, whose manifest is `manifest`
    /// and whose segment files are `segment_files`, in manifest order.
    pub fn from_manifest(generation: u64, manifest: &Manifest, segment_files: &Vec<Vec<u8>>) -> (result:
        Result<IndexSnapshot, SnapshotError>)
        requires
            segment_files@.len() == manifest@.len(),
        ensures
            generation == 0 ==> result == Err::<IndexSnapshot, SnapshotError>(
                SnapshotError::ZeroGeneration,
            ),
            generation > 0 ==> match result {
                Ok(snapshot) => snapshot.spec_generation() == Some(generation) && records(
                    snapshot.managed(),
                ) == manifest@ && all_open(segment_files@) && forall|i: int|
                    0 <= i < snapshot.managed().len() ==> (#[trigger] snapshot.managed()[i]).file()
                        == segment_files@[i]@,
                Err(error) => error matches SnapshotError::Segment(e) && first_open_failure(
                    segment_files@,
                    e,
                ),
            },
    {
        if generation == 0 {
            return Err(SnapshotError::ZeroGeneration);
        }
        let segments = match open_segments(manifest.segments(), segment_files) {
            Ok(segments) => segments,
            Err(error) => return Err(SnapshotError::Segment(error)),
        };
        Ok(IndexSnapshot { generation: Some(generation), segments })
    }

    /// Replaces this snapshot by that of generation `generation`; on failure
    /// the snapshot stays as it was.
    pub fn refresh(&mut self, generation: u64, manifest: Manifest, segment_files: Vec<Vec<u8>>) -> (result:
        Result<(), SnapshotError>)
        requires
            segment_files@.len() == manifest@.len(),
        ensures
            generation == 0 ==> result == Err::<(), SnapshotError>(SnapshotError::ZeroGeneration),
            result is Err ==> final(self).spec_generation() == old(self).spec_generation()
                && final(self).managed() == old(self).managed(),
            result is Err && generation > 0 ==> (result matches Err(SnapshotError::Segment(e))
                && first_open_failure(segment_files@, e)),
            result is Ok ==> generation > 0 && final(self).spec_generation() == Some(generation)
                && records(final(self).managed()) == manifest@ && all_open(segment_files@)
                && forall|i: int|
                0 <= i < final(self).managed().len() ==> (#[trigger] final(self).managed()[i]).file()
                    == segment_files@[i]@,
    {
        match IndexSnapshot::from_manifest(generation, &manifest, &segment_files) {
            Ok(refreshed) => {
                *self = refreshed;
                Ok(())
            },
            Err(error) => Err(error),
        }
    }

    /// The manifest of this snapshot's segments followed by `new_segment`,
    /// if it is valid.
    pub fn manifest_with_segment(&self, new_segment: SegmentMetadata) -> (result: Result<
        Manifest,
        ManifestError,
    >)
        ensures
            validation_outcome(
                match result {
                    Ok(_) => Ok(()),
                    Err(error) => Err(error),
                },
                records(self.managed()).push(new_segment@),
            ),
            result matches Ok(manifest) ==> manifest@ == records(self.managed()).push(new_segment@),
    {
        let mut segments: Vec<SegmentMetadata> = Vec::new();
        let mut i: usize = 0;
        while i < self.segments.len()
            invariant
                i <= self.segments@.len(),
                segments@.len() == i,
                metadata_views(segments@) == records(self.segments@.subrange(0, i as int)),
            decreases self.segments@.len() - i,
        {
            let copy = self.segments[i].metadata();
            let ghost before = segments@;
            segments.push(copy);
            assert forall|j: int| 0 <= j <= i implies #[trigger] metadata_views(segments@)[j]
                == records(self.segments@.subrange(0, i + 1))[j] by {
                if j < i {
                    assert(metadata_views(before)[j] == records(
                        self.segments@.subrange(0, i as int),
                    )[j]);
                    assert(segments@[j] == before[j]);
                } else {
                    assert(segments@[j] == copy);
                    assert(self.segments@.subrange(0, i + 1)[j] == self.segments@[j]);
                }
            }
            assert(metadata_views(segments@) =~= records(self.segments@.subrange(0, i + 1)));
            i = i + 1;
        }
        assert(self.segments@.subrange(0, i as int) =~= self.segments@);
        let ghost existing = segments@;
        segments.push(new_segment);
        assert(metadata_views(segments@) =~= metadata_views(existing).push(new_segment@));
        Manifest::new(segments)
    }

    /// The manifest generation the snapshot shows, if any.
    pub fn generation(&self) -> (generation: Option<u64>)
        ensures
            generation == self.spec_generation(),
    {
        self.generation
    }

    /// Looks `term` up in every segment and chains the postings.
    pub fn query_term(&self, term: &str) -> (result: Result<MultiSegmentPostings<'_>, QueryError>)
        ensures
            !valid_query(term@) ==> (result matches Err(e) && e == QueryError::InvalidQuery),
            valid_query(term@) ==> match lookup_from(self.managed(), term@, 0, no_progress()) {
                Err(failure) => result matches Err(e) && reports_failure(e, failure),
                Ok(progress) => result matches Ok(postings) && postings.wf()
                    && postings.segments() == progress.decoders && postings.current() == 0,
            },
    {
        match query_segments(self.segments.as_slice(), term) {
            Ok(found) => Ok(found.postings),
            Err(error) => Err(error),
        }
    }

    /// Looks `term` up in every segment, chains the postings and reports
    /// the work done.
    pub fn query_term_with_stats(&self, term: &str) -> (result: Result<
        MultiSegmentTermQueryResult<'_>,
        QueryError,
    >)
        ensures
            lookup_outcome(result, self.managed(), term@),
    {
        query_segments(self.segments.as_slice(), term)
    }

    /// The number of segments.
    pub fn segment_count(&self) -> (count: usize)
        ensures
            count == self.managed().len(),
    {
        self.segments.len()
    }

    /// The sum of the segments' document counts.
    pub fn total_document_count(&self) -> (total: u64)
        ensures
            total == total_documents(records(self.managed()), self.managed().len() as int),
    {
        proof {
            use_type_invariant(self);
        }
        total_document_count(self.segments.as_slice())
    }

    /// The sum of the segments' lengths in bytes.
    pub fn total_segment_bytes(&self) -> (total: u64)
        ensures
            total == total_bytes(records(self.managed()), self.managed().len() as int),
    {
        proof {
            use_type_invariant(self);
        }
        total_segment_bytes(self.segments.as_slice())
    }

    /// The sum of the segments' term counts.
    pub fn total_term_entries(&self) -> (total: u64)
        ensures
            total == total_terms(records(self.managed()), self.managed().len() as int),
    {
        proof {
            use_type_invariant(self);
        }
        total_term_entries(self.segments.as_slice())
    }
}

} // verus!
