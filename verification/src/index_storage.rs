//! Where the index lives on disk and how its files are numbered: manifest
//! generations and segment identifiers are handed out from counters that
//! start after the highest numbers already published.

use crate::manifest::{
    first_violation, metadata_views, reports, Manifest, ManifestError, SegmentMetadata,
    SegmentMetadataView, MANIFEST_FILE_PREFIX, MANIFEST_FILE_SUFFIX, SEGMENT_FILE_PREFIX,
    SEGMENT_FILE_SUFFIX, FILE_NUMBER_WIDTH,
};
use crate::model::SegmentId;
use crate::debug_text::{manifest_error_debug, manifest_error_text};
use crate::segment_reader::{describes, read_error_message, spec_open, SegmentReadError, SegmentReader};
use crate::text::{
    affixed, all_digits, between_affixes, decimal, decimal_value, digits_between, format_decimal,
    has_affixes, join2, join3, lemma_decimal_reads_back, lemma_zero_padded_reads_back, parse_decimal,
    zero_padded,
};
use crate::manifest_codec::{spec_generation, ManifestCodecError};
use vstd::prelude::*;
use vstd::string::StringSliceAdditionalSpecFns;

verus! {

/// The directory that holds the index.
pub const INDEX_DIRECTORY: &'static str = "index";

/// The subdirectory of the index that holds the manifests.
pub const MANIFEST_DIRECTORY: &'static str = "manifests";

/// The subdirectory of the index that holds the segments.
pub const SEGMENT_DIRECTORY: &'static str = "segments";

/// A counter that has run out of numbers.
#[derive(Debug, Clone, Copy, PartialEq, Eq, Structural)]
pub enum CounterError {
    ManifestGenerationExhausted,
    SegmentIdExhausted,
}

impl CounterError {
    /// The error's message.
    pub fn message(&self) -> (message: String)
        ensures
            message@ == (match self {
                CounterError::ManifestGenerationExhausted => "manifest generation counter exhausted"@,
                CounterError::SegmentIdExhausted => "segment ID counter exhausted"@,
            }),
    {
        match self {
            CounterError::ManifestGenerationExhausted => String::from_str(
                "manifest generation counter exhausted",
            ),
            CounterError::SegmentIdExhausted => String::from_str("segment ID counter exhausted"),
        }
    }
}

/// Why the storage could not set itself up or build a manifest.
#[derive(Debug, PartialEq, Eq)]
pub enum IndexStorageError {
    Segment(SegmentReadError),
    Counter(CounterError),
    InvalidSegmentId(u64),
    Manifest(ManifestError),
}

/// The message of a storage error.
pub open spec fn storage_error_message(error: IndexStorageError) -> Seq<char> {
    match error {
        IndexStorageError::Segment(e) => "index storage I/O error: "@ + read_error_message(e),
        IndexStorageError::Counter(e) => match e {
            CounterError::ManifestGenerationExhausted => "manifest generation counter exhausted"@,
            CounterError::SegmentIdExhausted => "segment ID counter exhausted"@,
        },
        IndexStorageError::InvalidSegmentId(id) => "published segment has invalid ID "@ + decimal(
            id as nat,
        ),
        IndexStorageError::Manifest(e) => "invalid segment manifest: "@ + manifest_error_text(e),
    }
}

impl IndexStorageError {
    /// The error's message, such as `published segment has invalid ID 0`.
    pub fn message(&self) -> (message: String)
        ensures
            message@ == storage_error_message(*self),
    {
        match self {
            IndexStorageError::Segment(e) => {
                let text = e.message();
                join2("index storage I/O error: ", text.as_str())
            },
            IndexStorageError::Counter(e) => e.message(),
            IndexStorageError::InvalidSegmentId(id) => {
                let number = format_decimal(*id, 0);
                join2("published segment has invalid ID ", number.as_str())
            },
            IndexStorageError::Manifest(e) => {
                let text = manifest_error_debug(e);
                join2("invalid segment manifest: ", text.as_str())
            },
        }
    }
}

/// The number in `name` between `prefix` and `suffix`, if `name` has both
/// and only ASCII digits between them, at least one, denoting a `u64`.
pub open spec fn file_number(name: Seq<char>, prefix: Seq<char>, suffix: Seq<char>) -> Option<u64> {
    if !affixed(name, prefix, suffix) {
        None
    } else {
        let digits = between_affixes(name, prefix, suffix);
        if digits.len() == 0 || !all_digits(digits) || decimal_value(digits) > u64::MAX {
            None
        } else {
            Some(decimal_value(digits) as u64)
        }
    }
}

/// Reads the number out of a file name of the form `prefix`, digits,
/// `suffix`.
pub fn parse_file_number(file_name: &str, file_prefix: &str, file_suffix: &str) -> (number: Option<
    u64,
>)
    ensures
        number == file_number(file_name@, file_prefix@, file_suffix@),
{
    if !has_affixes(file_name, file_prefix, file_suffix) {
        return None;
    }
    let start = file_prefix.unicode_len();
    let end = file_name.unicode_len() - file_suffix.unicode_len();
    if start == end || !digits_between(file_name, start, end) {
        return None;
    }
    parse_decimal(file_name, start, end)
}

/// The highest of the numbers that the names `names` carry, or zero.
pub open spec fn highest_number(names: Seq<String>, prefix: Seq<char>, suffix: Seq<char>, count: int) -> u64
    decreases count,
{
    if count <= 0 {
        0
    } else {
        let before = highest_number(names, prefix, suffix, count - 1);
        match file_number(names[count - 1]@, prefix, suffix) {
            Some(number) => if number > before {
                number
            } else {
                before
            },
            None => before,
        }
    }
}

/// The highest number is the largest that any of the names carries: no name
/// carries a larger one, and it is the number of one of them, or zero when
/// none carries a number. So it does not depend on the order of the names.
pub proof fn lemma_highest_number_is_largest(names: Seq<String>, prefix: Seq<char>, suffix: Seq<char>)
    ensures
        forall|i: int|
            0 <= i < names.len() && (#[trigger] file_number(names[i]@, prefix, suffix)) is Some
                ==> file_number(names[i]@, prefix, suffix)->Some_0 <= highest_number(
                names,
                prefix,
                suffix,
                names.len() as int,
            ),
        highest_number(names, prefix, suffix, names.len() as int) == 0 || exists|i: int|
            0 <= i < names.len() && #[trigger] file_number(names[i]@, prefix, suffix) == Some(
                highest_number(names, prefix, suffix, names.len() as int),
            ),
{
    lemma_highest_number_prefix(names, prefix, suffix, names.len() as int);
}

proof fn lemma_highest_number_prefix(names: Seq<String>, prefix: Seq<char>, suffix: Seq<char>, count: int)
    requires
        count <= names.len(),
    ensures
        forall|i: int|
            0 <= i < count && (#[trigger] file_number(names[i]@, prefix, suffix)) is Some
                ==> file_number(names[i]@, prefix, suffix)->Some_0 <= highest_number(
                names,
                prefix,
                suffix,
                count,
            ),
        highest_number(names, prefix, suffix, count) == 0 || exists|i: int|
            0 <= i < count && #[trigger] file_number(names[i]@, prefix, suffix) == Some(
                highest_number(names, prefix, suffix, count),
            ),
    decreases count,
{
    if count > 0 {
        lemma_highest_number_prefix(names, prefix, suffix, count - 1);
        let before = highest_number(names, prefix, suffix, count - 1);
        let now = highest_number(names, prefix, suffix, count);
        if now != before {
            assert(file_number(names[count - 1]@, prefix, suffix) == Some(now));
        } else if now != 0 {
            let i = choose|i: int|
                0 <= i < count - 1 && #[trigger] file_number(names[i]@, prefix, suffix) == Some(
                    before,
                );
            assert(file_number(names[i]@, prefix, suffix) == Some(now));
        }
    }
}

/// The highest number among the file names `file_names` that have the form
/// `file_prefix`, digits, `file_suffix`; zero when none has.
pub fn highest_file_number(file_names: &Vec<String>, file_prefix: &str, file_suffix: &str) -> (highest:
    u64)
    ensures
        highest == highest_number(file_names@, file_prefix@, file_suffix@, file_names@.len() as int),
{
    let mut highest: u64 = 0;
    let mut i: usize = 0;
    while i < file_names.len()
        invariant
            i <= file_names@.len(),
            highest == highest_number(file_names@, file_prefix@, file_suffix@, i as int),
        decreases file_names@.len() - i,
    {
        match parse_file_number(file_names[i].as_str(), file_prefix, file_suffix) {
            Some(number) => {
                if number > highest {
                    highest = number;
                }
            },
            None => {},
        }
        i = i + 1;
    }
    highest
}

/// The numbered names among `names`, with their numbers, in the order of
/// the names.
pub open spec fn numbered(names: Seq<String>, prefix: Seq<char>, suffix: Seq<char>, count: int) -> Seq<
    (u64, Seq<char>),
>
    decreases count,
{
    if count <= 0 {
        Seq::empty()
    } else {
        let before = numbered(names, prefix, suffix, count - 1);
        match file_number(names[count - 1]@, prefix, suffix) {
            Some(number) => before.push((number, names[count - 1]@)),
            None => before,
        }
    }
}

/// `entry` placed into `sorted` after every entry with a number no larger.
pub open spec fn insert_by_number(sorted: Seq<(u64, Seq<char>)>, entry: (u64, Seq<char>)) -> Seq<
    (u64, Seq<char>),
>
    decreases sorted.len(),
{
    if sorted.len() == 0 {
        seq![entry]
    } else if sorted.last().0 <= entry.0 {
        sorted.push(entry)
    } else {
        insert_by_number(sorted.drop_last(), entry).push(sorted.last())
    }
}

/// The entries in order of their numbers, entries with equal numbers keeping
/// their order.
pub open spec fn sort_by_number(entries: Seq<(u64, Seq<char>)>) -> Seq<(u64, Seq<char>)>
    decreases entries.len(),
{
    if entries.len() == 0 {
        Seq::empty()
    } else {
        insert_by_number(sort_by_number(entries.drop_last()), entries.last())
    }
}

/// Whether the entries are in order of their numbers.
pub open spec fn ordered_by_number(entries: Seq<(u64, Seq<char>)>) -> bool {
    forall|a: int, b: int| 0 <= a < b < entries.len() ==> entries[a].0 <= entries[b].0
}

proof fn lemma_insert_by_number(sorted: Seq<(u64, Seq<char>)>, entry: (u64, Seq<char>), j: int)
    requires
        ordered_by_number(sorted),
        0 <= j <= sorted.len(),
        forall|k: int| 0 <= k < j ==> #[trigger] sorted[k].0 <= entry.0,
        forall|k: int| j <= k < sorted.len() ==> #[trigger] sorted[k].0 > entry.0,
    ensures
        insert_by_number(sorted, entry) == sorted.insert(j, entry),
        ordered_by_number(sorted.insert(j, entry)),
    decreases sorted.len(),
{
    if sorted.len() == 0 {
        assert(sorted.insert(j, entry) =~= seq![entry]);
    } else if sorted.last().0 <= entry.0 {
        assert(j == sorted.len());
        assert(sorted.insert(j, entry) =~= sorted.push(entry));
    } else {
        let shorter = sorted.drop_last();
        lemma_insert_by_number(shorter, entry, j);
        assert(sorted.insert(j, entry) =~= shorter.insert(j, entry).push(sorted.last()));
    }
}

/// A published file with its number and name.
pub struct NumberedFile {
    pub number: u64,
    pub file_name: String,
}

/// The file names among `file_names` that have the form `file_prefix`,
/// digits, `file_suffix`, with their numbers, in order of the numbers.
pub fn numbered_files(file_names: &Vec<String>, file_prefix: &str, file_suffix: &str) -> (files: Vec<
    NumberedFile,
>)
    ensures
        files@.map_values(|file: NumberedFile| (file.number, file.file_name@)) == sort_by_number(
            numbered(file_names@, file_prefix@, file_suffix@, file_names@.len() as int),
        ),
{
    let mut files: Vec<NumberedFile> = Vec::new();
    let mut i: usize = 0;
    while i < file_names.len()
        invariant
            i <= file_names@.len(),
            files@.map_values(|file: NumberedFile| (file.number, file.file_name@)) == sort_by_number(
                numbered(file_names@, file_prefix@, file_suffix@, i as int),
            ),
            ordered_by_number(files@.map_values(|file: NumberedFile| (file.number, file.file_name@))),
        decreases file_names@.len() - i,
    {
        match parse_file_number(file_names[i].as_str(), file_prefix, file_suffix) {
            Some(number) => {
                let ghost view = files@.map_values(
                    |file: NumberedFile| (file.number, file.file_name@),
                );
                let mut j = files.len();
                while j > 0 && files[j - 1].number > number
                    invariant
                        j <= files@.len(),
                        view == files@.map_values(
                            |file: NumberedFile| (file.number, file.file_name@),
                        ),
                        ordered_by_number(view),
                        forall|k: int| j <= k < view.len() ==> #[trigger] view[k].0 > number,
                    decreases j,
                {
                    j = j - 1;
                }
                let ghost entry = (number, file_names[i as int]@);
                proof {
                    assert forall|k: int| 0 <= k < j implies #[trigger] view[k].0 <= number by {
                        assert(view[k].0 <= view[j - 1].0);
                    }
                    lemma_insert_by_number(view, entry, j as int);
                    let prefix = numbered(file_names@, file_prefix@, file_suffix@, i + 1);
                    assert(prefix == numbered(file_names@, file_prefix@, file_suffix@, i as int).push(
                        entry,
                    ));
                    assert(prefix.drop_last() =~= numbered(
                        file_names@,
                        file_prefix@,
                        file_suffix@,
                        i as int,
                    ));
                }
                files.insert(j, NumberedFile { number, file_name: file_names[i].clone() });
                assert(files@.map_values(|file: NumberedFile| (file.number, file.file_name@))
                    =~= view.insert(j as int, entry));
            },
            None => {},
        }
        i = i + 1;
    }
    files
}

/// A published segment file: its number, its name and its bytes.
pub struct PublishedSegment {
    pub number: u64,
    pub file_name: String,
    pub bytes: Vec<u8>,
}

/// The paths of the index's files and the counters that number them.
pub struct IndexStorage {
    manifest_generation_next: u64,
    segment_id_next: u64,
}

/// `directory`, a slash, then `name`.
pub open spec fn joined(directory: Seq<char>, name: Seq<char>) -> Seq<char> {
    directory + "/"@ + name
}

/// The name of a file numbered `number` between `prefix` and `suffix`.
pub open spec fn numbered_name(prefix: Seq<char>, number: u64, suffix: Seq<char>) -> Seq<char> {
    prefix + zero_padded(decimal(number as nat), FILE_NUMBER_WIDTH as nat) + suffix
}

/// The number a storage file name carries reads back from it: the name is
/// the prefix, exactly twenty digits, and the suffix.
pub proof fn lemma_numbered_name_reads_back(prefix: Seq<char>, number: u64, suffix: Seq<char>)
    ensures
        affixed(numbered_name(prefix, number, suffix), prefix, suffix),
        between_affixes(numbered_name(prefix, number, suffix), prefix, suffix) == zero_padded(
            decimal(number as nat),
            FILE_NUMBER_WIDTH as nat,
        ),
        between_affixes(numbered_name(prefix, number, suffix), prefix, suffix).len()
            == FILE_NUMBER_WIDTH,
        all_digits(between_affixes(numbered_name(prefix, number, suffix), prefix, suffix)),
        decimal_value(between_affixes(numbered_name(prefix, number, suffix), prefix, suffix))
            == number,
        file_number(numbered_name(prefix, number, suffix), prefix, suffix) == Some(number),
{
    let digits = zero_padded(decimal(number as nat), FILE_NUMBER_WIDTH as nat);
    lemma_decimal_reads_back(number as nat);
    lemma_zero_padded_reads_back(decimal(number as nat), FILE_NUMBER_WIDTH as nat);
    let name = numbered_name(prefix, number, suffix);
    assert(name =~= prefix + digits + suffix);
    assert(name.subrange(0, prefix.len() as int) =~= prefix);
    assert(name.subrange(name.len() - suffix.len(), name.len() as int) =~= suffix);
    assert(between_affixes(name, prefix, suffix) =~= digits);
}

/// A manifest path the storage hands out names its generation: reading the
/// generation back from the file name gives it, for every generation above
/// zero.
pub proof fn lemma_manifest_name_reads_back(generation: u64)
    requires
        generation > 0,
    ensures
        spec_generation(numbered_name(MANIFEST_FILE_PREFIX@, generation, MANIFEST_FILE_SUFFIX@))
            == Ok::<u64, ManifestCodecError>(generation),
{
    lemma_numbered_name_reads_back(MANIFEST_FILE_PREFIX@, generation, MANIFEST_FILE_SUFFIX@);
}

impl IndexStorage {
    /// The next manifest generation to hand out.
    pub closed spec fn next_generation(&self) -> u64 {
        self.manifest_generation_next
    }

    /// The next segment identifier to hand out.
    pub closed spec fn next_segment_id(&self) -> u64 {
        self.segment_id_next
    }

    /// Storage whose counters continue after the highest published manifest
    /// generation and segment identifier.
    pub fn from_highest_numbers(manifest_generation_highest: u64, segment_id_highest: u64) -> (result:
        Result<IndexStorage, CounterError>)
        ensures
            manifest_generation_highest == u64::MAX ==> result == Err::<IndexStorage, CounterError>(
                CounterError::ManifestGenerationExhausted,
            ),
            manifest_generation_highest < u64::MAX && segment_id_highest == u64::MAX ==> result
                == Err::<IndexStorage, CounterError>(CounterError::SegmentIdExhausted),
            manifest_generation_highest < u64::MAX && segment_id_highest < u64::MAX ==> (result matches Ok(
                storage,
            ) && storage.next_generation() == manifest_generation_highest + 1
                && storage.next_segment_id() == segment_id_highest + 1),
    {
        let manifest_generation_next = match manifest_generation_highest.checked_add(1) {
            Some(next) => next,
            None => return Err(CounterError::ManifestGenerationExhausted),
        };
        let segment_id_next = match segment_id_highest.checked_add(1) {
            Some(next) => next,
            None => return Err(CounterError::SegmentIdExhausted),
        };
        Ok(IndexStorage { manifest_generation_next, segment_id_next })
    }

    /// The directory of the index.
    pub fn index_directory(&self) -> (directory: &'static str)
        ensures
            directory@ == INDEX_DIRECTORY@,
    {
        INDEX_DIRECTORY
    }

    /// The directory of the manifests.
    pub fn manifest_directory(&self) -> (directory: String)
        ensures
            directory@ == joined(INDEX_DIRECTORY@, MANIFEST_DIRECTORY@),
    {
        join3(INDEX_DIRECTORY, "/", MANIFEST_DIRECTORY)
    }

    /// The directory of the segments.
    pub fn segment_directory(&self) -> (directory: String)
        ensures
            directory@ == joined(INDEX_DIRECTORY@, SEGMENT_DIRECTORY@),
    {
        join3(INDEX_DIRECTORY, "/", SEGMENT_DIRECTORY)
    }

    /// The path of the manifest of generation `generation`.
    pub fn manifest_file_path(&self, generation: u64) -> (path: String)
        ensures
            path@ == joined(
                joined(INDEX_DIRECTORY@, MANIFEST_DIRECTORY@),
                numbered_name(MANIFEST_FILE_PREFIX@, generation, MANIFEST_FILE_SUFFIX@),
            ),
    {
        let directory = self.manifest_directory();
        let number = format_decimal(generation, FILE_NUMBER_WIDTH);
        let name = join3(MANIFEST_FILE_PREFIX, number.as_str(), MANIFEST_FILE_SUFFIX);
        join3(directory.as_str(), "/", name.as_str())
    }

    /// The path of the segment with identifier `segment_id`.
    pub fn segment_file_path(&self, segment_id: u64) -> (path: String)
        ensures
            path@ == joined(
                joined(INDEX_DIRECTORY@, SEGMENT_DIRECTORY@),
                numbered_name(SEGMENT_FILE_PREFIX@, segment_id, SEGMENT_FILE_SUFFIX@),
            ),
    {
        let directory = self.segment_directory();
        let number = format_decimal(segment_id, FILE_NUMBER_WIDTH);
        let name = join3(SEGMENT_FILE_PREFIX, number.as_str(), SEGMENT_FILE_SUFFIX);
        join3(directory.as_str(), "/", name.as_str())
    }

    /// Hands out the next manifest generation.
    pub fn reserve_manifest_generation(&mut self) -> (result: Result<u64, CounterError>)
        ensures
            old(self).next_generation() < u64::MAX ==> result == Ok::<u64, CounterError>(
                old(self).next_generation(),
            ) && final(self).next_generation() == old(self).next_generation() + 1,
            old(self).next_generation() == u64::MAX ==> result == Err::<u64, CounterError>(
                CounterError::ManifestGenerationExhausted,
            ) && final(self).next_generation() == old(self).next_generation(),
            final(self).next_segment_id() == old(self).next_segment_id(),
    {
        let reserved = self.manifest_generation_next;
        match reserved.checked_add(1) {
            Some(next) => {
                self.manifest_generation_next = next;
                Ok(reserved)
            },
            None => Err(CounterError::ManifestGenerationExhausted),
        }
    }

    /// Hands out the next segment identifier.
    pub fn reserve_segment_id(&mut self) -> (result: Result<u64, CounterError>)
        ensures
            old(self).next_segment_id() < u64::MAX ==> result == Ok::<u64, CounterError>(
                old(self).next_segment_id(),
            ) && final(self).next_segment_id() == old(self).next_segment_id() + 1,
            old(self).next_segment_id() == u64::MAX ==> result == Err::<u64, CounterError>(
                CounterError::SegmentIdExhausted,
            ) && final(self).next_segment_id() == old(self).next_segment_id(),
            final(self).next_generation() == old(self).next_generation(),
    {
        let reserved = self.segment_id_next;
        match reserved.checked_add(1) {
            Some(next) => {
                self.segment_id_next = next;
                Ok(reserved)
            },
            None => Err(CounterError::SegmentIdExhausted),
        }
    }

    /// Hands out the path of the next manifest generation.
    pub fn reserve_manifest_file_path(&mut self) -> (result: Result<String, CounterError>)
        ensures
            old(self).next_generation() < u64::MAX ==> (result matches Ok(path) && path@ == joined(
                joined(INDEX_DIRECTORY@, MANIFEST_DIRECTORY@),
                numbered_name(
                    MANIFEST_FILE_PREFIX@,
                    old(self).next_generation(),
                    MANIFEST_FILE_SUFFIX@,
                ),
            ) && final(self).next_generation() == old(self).next_generation() + 1),
            old(self).next_generation() == u64::MAX ==> result == Err::<String, CounterError>(
                CounterError::ManifestGenerationExhausted,
            ) && final(self).next_generation() == old(self).next_generation(),
            final(self).next_segment_id() == old(self).next_segment_id(),
    {
        let generation = match self.reserve_manifest_generation() {
            Ok(generation) => generation,
            Err(error) => return Err(error),
        };
        Ok(self.manifest_file_path(generation))
    }

    /// Hands out the path of the next segment identifier.
    pub fn reserve_segment_file_path(&mut self) -> (result: Result<String, CounterError>)
        ensures
            old(self).next_segment_id() < u64::MAX ==> (result matches Ok(path) && path@ == joined(
                joined(INDEX_DIRECTORY@, SEGMENT_DIRECTORY@),
                numbered_name(SEGMENT_FILE_PREFIX@, old(self).next_segment_id(), SEGMENT_FILE_SUFFIX@),
            ) && final(self).next_segment_id() == old(self).next_segment_id() + 1),
            old(self).next_segment_id() == u64::MAX ==> result == Err::<String, CounterError>(
                CounterError::SegmentIdExhausted,
            ) && final(self).next_segment_id() == old(self).next_segment_id(),
            final(self).next_generation() == old(self).next_generation(),
    {
        let segment_id = match self.reserve_segment_id() {
            Ok(segment_id) => segment_id,
            Err(error) => return Err(error),
        };
        Ok(self.segment_file_path(segment_id))
    }

    /// The manifest of the published segments `published`, in the order
    /// given: each must have a nonzero number and open as a segment, and
    /// together they must form a valid manifest.
    pub fn manifest_from_published_segments(&self, published: Vec<PublishedSegment>) -> (result:
        Result<Manifest, IndexStorageError>)
        ensures
            match manifest_records(published@, 0) {
                Err(failure) => result matches Err(e) && storage_describes(e, failure),
                Ok(records) => match first_violation(records) {
                    None => result matches Ok(manifest) && manifest@ == records,
                    Some((i, violation)) => result matches Err(IndexStorageError::Manifest(e))
                        && reports(e, records, i, violation),
                },
            },
    {
        let mut segments: Vec<SegmentMetadata> = Vec::new();
        let mut i: usize = 0;
        while i < published.len()
            invariant
                i <= published@.len(),
                manifest_records(published@, 0) == match manifest_records(published@, i as nat) {
                    Ok(rest) => Ok(metadata_views(segments@) + rest),
                    Err(failure) => Err(failure),
                },
            decreases published@.len() - i,
        {
            let record = match published_segment_metadata(&published[i]) {
                Ok(record) => record,
                Err(error) => return Err(error),
            };
            let ghost before = metadata_views(segments@);
            segments.push(record);
            proof {
                let rest = manifest_records(published@, (i + 1) as nat);
                assert(metadata_views(segments@) =~= before.push(record@));
                if let Ok(tail) = rest {
                    assert(before + (seq![record@] + tail) =~= metadata_views(segments@) + tail);
                }
            }
            i = i + 1;
        }
        assert(metadata_views(segments@) + Seq::<SegmentMetadataView>::empty() =~= metadata_views(
            segments@,
        ));
        match Manifest::new(segments) {
            Ok(manifest) => Ok(manifest),
            Err(error) => Err(IndexStorageError::Manifest(error)),
        }
    }
}

/// Why building a manifest from published segments failed before the
/// manifest itself was checked.
pub enum PublishedFailure {
    InvalidSegmentId(u64),
    Segment(crate::segment_reader::SegmentFailure),
}

/// Whether `error` reports `failure`.
pub open spec fn storage_describes(error: IndexStorageError, failure: PublishedFailure) -> bool {
    match failure {
        PublishedFailure::InvalidSegmentId(number) => error == IndexStorageError::InvalidSegmentId(
            number,
        ),
        PublishedFailure::Segment(f) => error matches IndexStorageError::Segment(e) && describes(
            e,
            f,
        ),
    }
}

/// The record of a published segment: the segment's number as identifier,
/// its name, the counts and checksum its header and footer hold, and its
/// length; or why there is none.
pub open spec fn published_record(segment: PublishedSegment) -> Result<
    SegmentMetadataView,
    PublishedFailure,
> {
    if segment.number == 0 {
        Err(PublishedFailure::InvalidSegmentId(segment.number))
    } else {
        match spec_open(segment.bytes@) {
            Err(failure) => Err(PublishedFailure::Segment(failure)),
            Ok((layout, checksum)) => Ok(
                SegmentMetadataView {
                    id: segment.number,
                    file_name: segment.file_name@,
                    document_count: layout.document_count,
                    term_count: layout.term_count,
                    length_bytes: segment.bytes@.len() as u64,
                    checksum,
                },
            ),
        }
    }
}

/// The records of the published segments from position `i` on, or the
/// first failure.
pub open spec fn manifest_records(published: Seq<PublishedSegment>, i: nat) -> Result<
    Seq<SegmentMetadataView>,
    PublishedFailure,
>
    decreases published.len() - i,
{
    if i >= published.len() {
        Ok(Seq::empty())
    } else {
        match published_record(published[i as int]) {
            Err(failure) => Err(failure),
            Ok(record) => match manifest_records(published, i + 1) {
                Err(failure) => Err(failure),
                Ok(rest) => Ok(seq![record] + rest),
            },
        }
    }
}

/// The record of a published segment, read from its header and footer.
pub fn published_segment_metadata(segment: &PublishedSegment) -> (result: Result<
    SegmentMetadata,
    IndexStorageError,
>)
    ensures
        match published_record(*segment) {
            Ok(record) => result matches Ok(metadata) && metadata@ == record,
            Err(failure) => result matches Err(e) && storage_describes(e, failure),
        },
{
    let id = match SegmentId::new(segment.number) {
        Ok(id) => id,
        Err(_) => return Err(IndexStorageError::InvalidSegmentId(segment.number)),
    };
    let reader = match SegmentReader::open(segment.bytes.clone()) {
        Ok(reader) => reader,
        Err(error) => return Err(IndexStorageError::Segment(error)),
    };
    Ok(
        SegmentMetadata {
            id,
            file_name: segment.file_name.clone(),
            document_count: reader.document_count(),
            term_count: reader.term_count(),
            length_bytes: segment.bytes.len() as u64,
            checksum: reader.checksum(),
        },
    )
}

} // verus!
