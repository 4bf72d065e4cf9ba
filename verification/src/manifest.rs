//! A manifest lists the segments that make up one generation of the index,
//! in strictly increasing segment-ID order.

use crate::model::SegmentId;
use vstd::prelude::*;

verus! {

/// The start of every published manifest file name.
pub const MANIFEST_FILE_PREFIX: &'static str = "manifest-";

/// The end of every published manifest file name.
pub const MANIFEST_FILE_SUFFIX: &'static str = ".bin";

/// The start of every published segment file name.
pub const SEGMENT_FILE_PREFIX: &'static str = "segment-";

/// The end of every published segment file name.
pub const SEGMENT_FILE_SUFFIX: &'static str = ".idx";

/// The number of digits of the number in a published file name.
pub const FILE_NUMBER_WIDTH: usize = 20;

/// Why a list of segments is not a valid manifest.
#[derive(Debug, Clone, PartialEq, Eq)]
pub enum ManifestError {
    SegmentIdsNotStrictlyIncreasing { previous: SegmentId, current: SegmentId },
    DuplicateFileName(String),
    UnsafeFileName(String),
    TotalDocumentCountOverflow,
    TotalSegmentBytesOverflow,
    TotalTermEntriesOverflow,
    SegmentCountOverflow,
}

/// What the manifest records about one segment.
#[derive(Debug, Clone, PartialEq, Eq)]
pub struct SegmentMetadata {
    pub id: SegmentId,
    pub file_name: String,
    pub document_count: u32,
    pub term_count: u32,
    pub length_bytes: u64,
    pub checksum: u32,
}

/// The abstract value of a `SegmentMetadata`.
pub struct SegmentMetadataView {
    pub id: u64,
    pub file_name: Seq<char>,
    pub document_count: u32,
    pub term_count: u32,
    pub length_bytes: u64,
    pub checksum: u32,
}

impl View for SegmentMetadata {
    type V = SegmentMetadataView;

    open spec fn view(&self) -> SegmentMetadataView {
        SegmentMetadataView {
            id: self.id.spec_value(),
            file_name: self.file_name@,
            document_count: self.document_count,
            term_count: self.term_count,
            length_bytes: self.length_bytes,
            checksum: self.checksum,
        }
    }
}

impl SegmentMetadata {
    /// A copy of this record.
    pub fn duplicate(&self) -> (copy: SegmentMetadata)
        ensures
            copy@ == self@,
            copy.id == self.id,
    {
        SegmentMetadata {
            id: self.id,
            file_name: self.file_name.clone(),
            document_count: self.document_count,
            term_count: self.term_count,
            length_bytes: self.length_bytes,
            checksum: self.checksum,
        }
    }
}

/// The abstract values of a list of segment records.
pub open spec fn metadata_views(segments: Seq<SegmentMetadata>) -> Seq<SegmentMetadataView> {
    segments.map_values(|segment: SegmentMetadata| segment@)
}

/// The sum of the document counts of the first `count` segments.
pub open spec fn total_documents(segments: Seq<SegmentMetadataView>, count: int) -> int
    decreases count,
{
    if count <= 0 {
        0
    } else {
        total_documents(segments, count - 1) + segments[count - 1].document_count
    }
}

/// The sum of the lengths of the first `count` segments.
pub open spec fn total_bytes(segments: Seq<SegmentMetadataView>, count: int) -> int
    decreases count,
{
    if count <= 0 {
        0
    } else {
        total_bytes(segments, count - 1) + segments[count - 1].length_bytes
    }
}

/// The sum of the term counts of the first `count` segments.
pub open spec fn total_terms(segments: Seq<SegmentMetadataView>, count: int) -> int
    decreases count,
{
    if count <= 0 {
        0
    } else {
        total_terms(segments, count - 1) + segments[count - 1].term_count
    }
}

/// The three totals of all segments fit in a `u64`.
pub open spec fn totals_fit(segments: Seq<SegmentMetadataView>) -> bool {
    &&& total_documents(segments, segments.len() as int) <= u64::MAX
    &&& total_bytes(segments, segments.len() as int) <= u64::MAX
    &&& total_terms(segments, segments.len() as int) <= u64::MAX
}

/// A file name that names a file inside the segment directory: nonempty,
/// without a `/` or `\\` separator, and neither `.` nor `..`, so that as a
/// path it is exactly one normal component.
pub open spec fn safe_file_name(name: Seq<char>) -> bool {
    &&& name.len() > 0
    &&& !name.contains('/')
    &&& !name.contains('\\')
    &&& name != seq!['.']
    &&& name != seq!['.', '.']
}

/// The rules a manifest's segment records break.
#[derive(PartialEq, Eq, Structural)]
pub enum Violation {
    IdsNotIncreasing,
    UnsafeName,
    DuplicateName,
    DocumentCountOverflow,
    SegmentBytesOverflow,
    TermEntriesOverflow,
}

/// The first rule that record `i` breaks, given the records before it.
pub open spec fn violation_at(segments: Seq<SegmentMetadataView>, i: int) -> Option<Violation> {
    if i > 0 && segments[i].id <= segments[i - 1].id {
        Some(Violation::IdsNotIncreasing)
    } else if !safe_file_name(segments[i].file_name) {
        Some(Violation::UnsafeName)
    } else if exists|j: int| 0 <= j < i && segments[j].file_name == segments[i].file_name {
        Some(Violation::DuplicateName)
    } else if total_documents(segments, i + 1) > u64::MAX {
        Some(Violation::DocumentCountOverflow)
    } else if total_bytes(segments, i + 1) > u64::MAX {
        Some(Violation::SegmentBytesOverflow)
    } else if total_terms(segments, i + 1) > u64::MAX {
        Some(Violation::TermEntriesOverflow)
    } else {
        None
    }
}

/// The first record, from index `i` on, that breaks a rule, and the rule.
pub open spec fn first_violation_from(segments: Seq<SegmentMetadataView>, i: nat) -> Option<
    (int, Violation),
>
    decreases segments.len() - i,
{
    if i >= segments.len() {
        None
    } else {
        match violation_at(segments, i as int) {
            Some(violation) => Some((i as int, violation)),
            None => first_violation_from(segments, i + 1),
        }
    }
}

/// The first record that breaks a rule, and the rule.
pub open spec fn first_violation(segments: Seq<SegmentMetadataView>) -> Option<(int, Violation)> {
    first_violation_from(segments, 0)
}

/// Whether `error` reports that record `i` breaks `violation`.
pub open spec fn reports(
    error: ManifestError,
    segments: Seq<SegmentMetadataView>,
    i: int,
    violation: Violation,
) -> bool {
    match violation {
        Violation::IdsNotIncreasing => error matches ManifestError::SegmentIdsNotStrictlyIncreasing {
            previous,
            current,
        } && previous.spec_value() == segments[i - 1].id && current.spec_value() == segments[i].id,
        Violation::UnsafeName => error matches ManifestError::UnsafeFileName(name) && name@
            == segments[i].file_name,
        Violation::DuplicateName => error matches ManifestError::DuplicateFileName(name) && name@
            == segments[i].file_name,
        Violation::DocumentCountOverflow => error == ManifestError::TotalDocumentCountOverflow,
        Violation::SegmentBytesOverflow => error == ManifestError::TotalSegmentBytesOverflow,
        Violation::TermEntriesOverflow => error == ManifestError::TotalTermEntriesOverflow,
    }
}

/// Whether `result` is the outcome of validating `segments`: success when no
/// record breaks a rule, otherwise the report of the first that does.
pub open spec fn validation_outcome(
    result: Result<(), ManifestError>,
    segments: Seq<SegmentMetadataView>,
) -> bool {
    match first_violation(segments) {
        None => result is Ok,
        Some((i, violation)) => result matches Err(error) && reports(error, segments, i, violation),
    }
}

proof fn lemma_first_violation_from(segments: Seq<SegmentMetadataView>, i: nat)
    requires
        i <= segments.len(),
    ensures
        first_violation_from(segments, i) is None <==> forall|j: int|
            i <= j < segments.len() ==> #[trigger] violation_at(segments, j) is None,
    decreases segments.len() - i,
{
    if i < segments.len() {
        lemma_first_violation_from(segments, i + 1);
    }
}

/// A list without violations has totals that fit.
pub proof fn lemma_valid_totals_fit(segments: Seq<SegmentMetadataView>)
    requires
        first_violation(segments) is None,
    ensures
        totals_fit(segments),
{
    lemma_first_violation_from(segments, 0);
    if segments.len() > 0 {
        assert(violation_at(segments, segments.len() - 1) is None);
    }
}

/// In a list without violations the identifiers strictly increase and the
/// file names are pairwise distinct and safe.
pub proof fn lemma_valid_records(segments: Seq<SegmentMetadataView>)
    requires
        first_violation(segments) is None,
    ensures
        forall|i: int, j: int|
            0 <= i < j < segments.len() ==> (#[trigger] segments[i]).id < (#[trigger] segments[j]).id
                && segments[i].file_name != segments[j].file_name,
        forall|i: int| 0 <= i < segments.len() ==> safe_file_name((#[trigger] segments[i]).file_name),
{
    lemma_first_violation_from(segments, 0);
    assert forall|i: int| 0 <= i < segments.len() implies safe_file_name(
        (#[trigger] segments[i]).file_name,
    ) by {
        assert(violation_at(segments, i) is None);
    }
    assert forall|i: int, j: int| 0 <= i < j < segments.len() implies (#[trigger] segments[i]).id
        < (#[trigger] segments[j]).id && segments[i].file_name != segments[j].file_name by {
        assert(violation_at(segments, j) is None);
        lemma_ids_increase_between(segments, i, j);
    }
}

proof fn lemma_ids_increase_between(segments: Seq<SegmentMetadataView>, i: int, j: int)
    requires
        0 <= i < j < segments.len(),
        forall|k: int| 0 <= k < segments.len() ==> #[trigger] violation_at(segments, k) is None,
    ensures
        segments[i].id < segments[j].id,
    decreases j - i,
{
    assert(violation_at(segments, j) is None);
    if i < j - 1 {
        lemma_ids_increase_between(segments, i, j - 1);
    }
}

/// Whether a file name is safe to join to the segment directory.
pub fn is_safe_file_name(file_name: &str) -> (safe: bool)
    ensures
        safe == safe_file_name(file_name@),
{
    let length = file_name.unicode_len();
    if length == 0 {
        return false;
    }
    let mut index: usize = 0;
    while index < length
        invariant
            length == file_name@.len(),
            index <= length,
            forall|j: int| 0 <= j < index ==> file_name@[j] != '/' && file_name@[j] != '\\',
        decreases length - index,
    {
        let character = file_name.get_char(index);
        if character == '/' || character == '\\' {
            assert(file_name@.contains(character));
            return false;
        }
        index = index + 1;
    }
    if length == 1 && file_name.get_char(0) == '.' {
        assert(file_name@ =~= seq!['.']);
        return false;
    }
    if length == 2 && file_name.get_char(0) == '.' && file_name.get_char(1) == '.' {
        assert(file_name@ =~= seq!['.', '.']);
        return false;
    }
    assert(file_name@ != seq!['.']) by {
        if length == 1 {
            assert(file_name@[0] != seq!['.'][0]);
        }
    }
    assert(file_name@ != seq!['.', '.']) by {
        if length == 2 {
            assert(file_name@[0] != '.' || file_name@[1] != '.');
        }
    }
    true
}

/// Checks that segment IDs strictly increase, that file names are safe and
/// distinct, and that the document, byte and term totals fit in a `u64`,
/// reporting the first record that breaks a rule.
#[verifier::loop_isolation(false)]
pub fn validate_segments(segments: &[SegmentMetadata]) -> (result: Result<(), ManifestError>)
    ensures
        validation_outcome(result, metadata_views(segments@)),
        result is Ok ==> ids_nonzero(metadata_views(segments@)),
{
    let ghost views = metadata_views(segments@);
    let mut total_document_count: u64 = 0;
    let mut total_segment_bytes: u64 = 0;
    let mut total_term_entries: u64 = 0;
    let mut i: usize = 0;
    while i < segments.len()
        invariant
            i <= segments@.len(),
            views == metadata_views(segments@),
            first_violation_from(views, i as nat) == first_violation(views),
            total_document_count == total_documents(views, i as int),
            total_segment_bytes == total_bytes(views, i as int),
            total_term_entries == total_terms(views, i as int),
            forall|k: int| 0 <= k < i ==> (#[trigger] views[k]).id > 0,
        decreases segments@.len() - i,
    {
        let segment = &segments[i];
        proof {
            use_type_invariant(&segment.id);
        }
        assert(views[i as int] == segment@);
        if i > 0 && segment.id.value() <= segments[i - 1].id.value() {
            return Err(
                ManifestError::SegmentIdsNotStrictlyIncreasing {
                    previous: segments[i - 1].id,
                    current: segment.id,
                },
            );
        }
        if !is_safe_file_name(segment.file_name.as_str()) {
            return Err(ManifestError::UnsafeFileName(segment.file_name.clone()));
        }
        let mut j: usize = 0;
        while j < i
            invariant
                i < segments@.len(),
                j <= i,
                views == metadata_views(segments@),
                forall|k: int| 0 <= k < j ==> views[k].file_name != views[i as int].file_name,
            decreases i - j,
        {
            if segments[j].file_name == segment.file_name {
                assert(views[j as int].file_name == views[i as int].file_name);
                return Err(ManifestError::DuplicateFileName(segment.file_name.clone()));
            }
            j = j + 1;
        }
        total_document_count = match total_document_count.checked_add(segment.document_count as u64) {
            Some(total) => total,
            None => return Err(ManifestError::TotalDocumentCountOverflow),
        };
        total_segment_bytes = match total_segment_bytes.checked_add(segment.length_bytes) {
            Some(total) => total,
            None => return Err(ManifestError::TotalSegmentBytesOverflow),
        };
        total_term_entries = match total_term_entries.checked_add(segment.term_count as u64) {
            Some(total) => total,
            None => return Err(ManifestError::TotalTermEntriesOverflow),
        };
        assert(violation_at(views, i as int) is None);
        i = i + 1;
    }
    Ok(())
}

/// Whether every record's segment identifier is nonzero, as every
/// `SegmentId` is.
pub open spec fn ids_nonzero(segments: Seq<SegmentMetadataView>) -> bool {
    forall|i: int| 0 <= i < segments.len() ==> (#[trigger] segments[i]).id > 0
}

/// A validated list of segment records.
#[derive(Debug, PartialEq, Eq)]
pub struct Manifest {
    segments: Vec<SegmentMetadata>,
}

impl View for Manifest {
    type V = Seq<SegmentMetadataView>;

    closed spec fn view(&self) -> Seq<SegmentMetadataView> {
        metadata_views(self.segments@)
    }
}

impl Manifest {
    /// Every manifest's totals fit in a `u64`.
    #[verifier::type_invariant]
    spec fn totals_in_range(self) -> bool {
        &&& totals_fit(metadata_views(self.segments@))
        &&& ids_nonzero(metadata_views(self.segments@))
    }

    /// A manifest of `segments` if they pass `validate_segments`.
    pub fn new(segments: Vec<SegmentMetadata>) -> (result: Result<Self, ManifestError>)
        ensures
            validation_outcome(
                match result {
                    Ok(_) => Ok(()),
                    Err(error) => Err(error),
                },
                metadata_views(segments@),
            ),
            result matches Ok(manifest) ==> manifest@ == metadata_views(segments@),
    {
        match validate_segments(segments.as_slice()) {
            Ok(()) => {
                proof {
                    lemma_valid_totals_fit(metadata_views(segments@));
                }
                Ok(Self { segments })
            },
            Err(error) => Err(error),
        }
    }

    /// A manifest of `segments` without checking ordering, names or
    /// uniqueness; their totals must fit.
    pub fn from_decoded_segments_unchecked(segments: Vec<SegmentMetadata>) -> (manifest: Self)
        requires
            totals_fit(metadata_views(segments@)),
            ids_nonzero(metadata_views(segments@)),
        ensures
            manifest@ == metadata_views(segments@),
    {
        Self { segments }
    }

    /// Runs `validate_segments` on this manifest's records.
    pub fn validate(&self) -> (result: Result<(), ManifestError>)
        ensures
            validation_outcome(result, self@),
    {
        validate_segments(self.segments.as_slice())
    }

    /// The segment records, in manifest order.
    pub fn segments(&self) -> (segments: &[SegmentMetadata])
        ensures
            metadata_views(segments@) == self@,
            totals_fit(self@),
            ids_nonzero(self@),
    {
        proof {
            use_type_invariant(self);
        }
        self.segments.as_slice()
    }

    /// The segment records, in manifest order.
    pub fn into_segments(self) -> (segments: Vec<SegmentMetadata>)
        ensures
            metadata_views(segments@) == self@,
            totals_fit(self@),
            ids_nonzero(self@),
    {
        proof {
            use_type_invariant(&self);
        }
        self.segments
    }

    /// The number of segments.
    pub fn segment_count(&self) -> (count: usize)
        ensures
            count == self@.len(),
    {
        self.segments.len()
    }

    /// The sum of the segments' document counts.
    pub fn total_document_count(&self) -> (total: u64)
        ensures
            total == total_documents(self@, self@.len() as int),
    {
        proof {
            use_type_invariant(self);
        }
        let ghost views = self@;
        let mut total: u64 = 0;
        let mut i: usize = 0;
        while i < self.segments.len()
            invariant
                i <= views.len(),
                views == metadata_views(self.segments@),
                totals_fit(views),
                total == total_documents(views, i as int),
            decreases views.len() - i,
        {
            proof {
                lemma_prefix_totals(views, i as int + 1);
            }
            total = total + self.segments[i].document_count as u64;
            i = i + 1;
        }
        total
    }

    /// The sum of the segments' lengths in bytes.
    pub fn total_segment_bytes(&self) -> (total: u64)
        ensures
            total == total_bytes(self@, self@.len() as int),
    {
        proof {
            use_type_invariant(self);
        }
        let ghost views = self@;
        let mut total: u64 = 0;
        let mut i: usize = 0;
        while i < self.segments.len()
            invariant
                i <= views.len(),
                views == metadata_views(self.segments@),
                totals_fit(views),
                total == total_bytes(views, i as int),
            decreases views.len() - i,
        {
            proof {
                lemma_prefix_totals(views, i as int + 1);
            }
            total = total + self.segments[i].length_bytes;
            i = i + 1;
        }
        total
    }

    /// The sum of the segments' term counts.
    pub fn total_term_entries(&self) -> (total: u64)
        ensures
            total == total_terms(self@, self@.len() as int),
    {
        proof {
            use_type_invariant(self);
        }
        let ghost views = self@;
        let mut total: u64 = 0;
        let mut i: usize = 0;
        while i < self.segments.len()
            invariant
                i <= views.len(),
                views == metadata_views(self.segments@),
                totals_fit(views),
                total == total_terms(views, i as int),
            decreases views.len() - i,
        {
            proof {
                lemma_prefix_totals(views, i as int + 1);
            }
            total = total + self.segments[i].term_count as u64;
            i = i + 1;
        }
        total
    }
}

proof fn lemma_totals_push_prefix(segments: Seq<SegmentMetadataView>, extra: SegmentMetadataView, count: int)
    requires
        0 <= count <= segments.len(),
    ensures
        total_documents(segments.push(extra), count) == total_documents(segments, count),
        total_bytes(segments.push(extra), count) == total_bytes(segments, count),
        total_terms(segments.push(extra), count) == total_terms(segments, count),
    decreases count,
{
    if count > 0 {
        lemma_totals_push_prefix(segments, extra, count - 1);
    }
}

/// Appending a segment adds its counts to the totals.
pub proof fn lemma_totals_push(segments: Seq<SegmentMetadataView>, extra: SegmentMetadataView)
    ensures
        total_documents(segments.push(extra), segments.len() + 1int) == total_documents(
            segments,
            segments.len() as int,
        ) + extra.document_count,
        total_bytes(segments.push(extra), segments.len() + 1int) == total_bytes(
            segments,
            segments.len() as int,
        ) + extra.length_bytes,
        total_terms(segments.push(extra), segments.len() + 1int) == total_terms(
            segments,
            segments.len() as int,
        ) + extra.term_count,
{
    lemma_totals_push_prefix(segments, extra, segments.len() as int);
}

/// Totals only grow as more segments are counted.
pub proof fn lemma_prefix_totals(segments: Seq<SegmentMetadataView>, count: int)
    requires
        0 <= count <= segments.len(),
    ensures
        total_documents(segments, count) <= total_documents(segments, segments.len() as int),
        total_bytes(segments, count) <= total_bytes(segments, segments.len() as int),
        total_terms(segments, count) <= total_terms(segments, segments.len() as int),
    decreases segments.len() - count,
{
    if count < segments.len() {
        lemma_prefix_totals(segments, count + 1);
    }
}

} // verus!
