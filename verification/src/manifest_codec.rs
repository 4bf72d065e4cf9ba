//! The binary manifest format: the common file header, the manifest
//! generation, the segment count, one record per segment, and the checksum.

use crate::debug_text::{manifest_error_debug, manifest_error_text};
use crate::binary_file::{
    field_error_message, file_error_message, append_checksum, check_file, file_header, read_problem, sealed, spec_check_file, start_file,
    varint_problem, Decoder, ErrorKind, FieldError, FieldProblem, FileError, FileType,
    CHECKSUM_LENGTH, COMMON_HEADER_LENGTH,
};
use crate::manifest::{
    first_violation, ids_nonzero, metadata_views, reports, totals_fit, total_bytes, total_documents,
    total_terms, Manifest, ManifestError, SegmentMetadata, SegmentMetadataView,
    MANIFEST_FILE_PREFIX, MANIFEST_FILE_SUFFIX,
};
use crate::model::SegmentId;
use crate::text::{
    affixed, all_digits, between_affixes, decimal_value, digits_between, has_affixes,
    parse_decimal, str_from_utf8,
};
use crate::varint;
use crate::wire::{push_bytes, push_u32_le, push_u64_le};
use vstd::bytes::*;
use vstd::prelude::*;
use vstd::string::StringSliceAdditionalSpecFns;
use vstd::utf8::{decode_utf8, encode_utf8, valid_utf8};

verus! {

/// Length of the manifest header: common header, generation, segment count.
pub const HEADER_LENGTH: usize = 22;

/// Bytes of a segment record besides the file name and its length prefix.
pub const SEGMENT_RECORD_FIXED_LENGTH: usize = 28;

/// The smallest possible segment record.
pub const SEGMENT_RECORD_MIN_LENGTH: usize = 29;

/// Why a manifest could not be written or read.
#[derive(Debug, PartialEq, Eq)]
pub enum ManifestCodecError {
    AlreadyExists,
    MissingFileName,
    InvalidFileName,
    InvalidGeneration,
    GenerationOverflow,
    ZeroGeneration,
    InvalidManifest(ManifestError),
    SegmentCountTooLarge,
    FileNameTooLong,
    LengthOverflow,
    File(FileError),
    Field(FieldError),
    GenerationMismatch,
    SegmentCountExceedsLength,
    ZeroSegmentId,
    FileNameNotUtf8,
    TotalDocumentCountOverflow,
    TotalSegmentBytesOverflow,
    TotalTermEntriesOverflow,
    TrailingBytes,
}

impl ManifestCodecError {
    /// The class of the error.
    pub fn kind(&self) -> (kind: ErrorKind)
        ensures
            kind == (match self {
                ManifestCodecError::AlreadyExists => ErrorKind::AlreadyExists,
                ManifestCodecError::MissingFileName | ManifestCodecError::InvalidFileName
                | ManifestCodecError::InvalidGeneration | ManifestCodecError::GenerationOverflow
                | ManifestCodecError::ZeroGeneration | ManifestCodecError::InvalidManifest(_)
                | ManifestCodecError::SegmentCountTooLarge | ManifestCodecError::FileNameTooLong
                | ManifestCodecError::LengthOverflow => ErrorKind::InvalidInput,
                ManifestCodecError::File(FileError::TooSmall(_)) => ErrorKind::UnexpectedEof,
                ManifestCodecError::Field(e) => if e.problem == FieldProblem::Truncated {
                    ErrorKind::UnexpectedEof
                } else {
                    ErrorKind::InvalidData
                },
                _ => ErrorKind::InvalidData,
            }),
    {
        match self {
            ManifestCodecError::AlreadyExists => ErrorKind::AlreadyExists,
            ManifestCodecError::MissingFileName | ManifestCodecError::InvalidFileName
            | ManifestCodecError::InvalidGeneration | ManifestCodecError::GenerationOverflow
            | ManifestCodecError::ZeroGeneration | ManifestCodecError::InvalidManifest(_)
            | ManifestCodecError::SegmentCountTooLarge | ManifestCodecError::FileNameTooLong
            | ManifestCodecError::LengthOverflow => ErrorKind::InvalidInput,
            ManifestCodecError::File(error) => error.kind(),
            ManifestCodecError::Field(error) => error.kind(),
            _ => ErrorKind::InvalidData,
        }
    }
}

/// The message of a manifest codec error.
pub open spec fn codec_error_message(error: ManifestCodecError) -> Seq<char> {
    match error {
        ManifestCodecError::AlreadyExists => "manifest path already exists"@,
        ManifestCodecError::MissingFileName => "manifest path must have a UTF-8 file name"@,
        ManifestCodecError::InvalidFileName => "invalid manifest file name"@,
        ManifestCodecError::InvalidGeneration => "invalid manifest generation in file name"@,
        ManifestCodecError::GenerationOverflow => "manifest generation overflow"@,
        ManifestCodecError::ZeroGeneration => "manifest generation must be greater than zero"@,
        ManifestCodecError::InvalidManifest(e) => "invalid manifest: "@ + manifest_error_text(e),
        ManifestCodecError::SegmentCountTooLarge => "segment count exceeds the manifest format limit"@,
        ManifestCodecError::FileNameTooLong => "segment file name is too long"@,
        ManifestCodecError::LengthOverflow => "manifest length overflow"@,
        ManifestCodecError::File(e) => file_error_message(e),
        ManifestCodecError::Field(e) => field_error_message(e.problem, e.field@),
        ManifestCodecError::GenerationMismatch => "manifest generation does not match file name"@,
        ManifestCodecError::SegmentCountExceedsLength => "segment count exceeds manifest length"@,
        ManifestCodecError::ZeroSegmentId => "segment ID must be nonzero"@,
        ManifestCodecError::FileNameNotUtf8 => "segment file name is not valid UTF-8"@,
        ManifestCodecError::TotalDocumentCountOverflow => "total document count overflow"@,
        ManifestCodecError::TotalSegmentBytesOverflow => "total segment bytes overflow"@,
        ManifestCodecError::TotalTermEntriesOverflow => "total term entries overflow"@,
        ManifestCodecError::TrailingBytes => "trailing manifest bytes"@,
    }
}

impl ManifestCodecError {
    /// The error's message, such as `trailing manifest bytes`.
    pub fn message(&self) -> (message: String)
        ensures
            message@ == codec_error_message(*self),
    {
        match self {
            ManifestCodecError::AlreadyExists => String::from_str("manifest path already exists"),
            ManifestCodecError::MissingFileName => String::from_str(
                "manifest path must have a UTF-8 file name",
            ),
            ManifestCodecError::InvalidFileName => String::from_str("invalid manifest file name"),
            ManifestCodecError::InvalidGeneration => String::from_str(
                "invalid manifest generation in file name",
            ),
            ManifestCodecError::GenerationOverflow => String::from_str("manifest generation overflow"),
            ManifestCodecError::ZeroGeneration => String::from_str(
                "manifest generation must be greater than zero",
            ),
            ManifestCodecError::InvalidManifest(e) => {
                let text = manifest_error_debug(e);
                crate::text::join2("invalid manifest: ", text.as_str())
            },
            ManifestCodecError::SegmentCountTooLarge => String::from_str(
                "segment count exceeds the manifest format limit",
            ),
            ManifestCodecError::FileNameTooLong => String::from_str("segment file name is too long"),
            ManifestCodecError::LengthOverflow => String::from_str("manifest length overflow"),
            ManifestCodecError::File(e) => e.message(),
            ManifestCodecError::Field(e) => e.message(),
            ManifestCodecError::GenerationMismatch => String::from_str(
                "manifest generation does not match file name",
            ),
            ManifestCodecError::SegmentCountExceedsLength => String::from_str(
                "segment count exceeds manifest length",
            ),
            ManifestCodecError::ZeroSegmentId => String::from_str("segment ID must be nonzero"),
            ManifestCodecError::FileNameNotUtf8 => String::from_str(
                "segment file name is not valid UTF-8",
            ),
            ManifestCodecError::TotalDocumentCountOverflow => String::from_str(
                "total document count overflow",
            ),
            ManifestCodecError::TotalSegmentBytesOverflow => String::from_str(
                "total segment bytes overflow",
            ),
            ManifestCodecError::TotalTermEntriesOverflow => String::from_str(
                "total term entries overflow",
            ),
            ManifestCodecError::TrailingBytes => String::from_str("trailing manifest bytes"),
        }
    }
}

/// The generation number that a manifest file name carries: the name must be
/// `manifest-`, twenty ASCII digits, `.bin`, and the number must fit in a
/// `u64` and not be zero.
pub open spec fn spec_generation(name: Seq<char>) -> Result<u64, ManifestCodecError> {
    let prefix = MANIFEST_FILE_PREFIX@;
    let suffix = MANIFEST_FILE_SUFFIX@;
    if !affixed(name, prefix, suffix) {
        Err(ManifestCodecError::InvalidFileName)
    } else {
        let digits = between_affixes(name, prefix, suffix);
        if digits.len() != 20 || !all_digits(digits) {
            Err(ManifestCodecError::InvalidGeneration)
        } else if decimal_value(digits) > u64::MAX {
            Err(ManifestCodecError::GenerationOverflow)
        } else if decimal_value(digits) == 0 {
            Err(ManifestCodecError::ZeroGeneration)
        } else {
            Ok(decimal_value(digits) as u64)
        }
    }
}

/// Reads the generation number out of a manifest file name.
pub fn generation_from_file_name(file_name: &str) -> (result: Result<u64, ManifestCodecError>)
    ensures
        result == spec_generation(file_name@),
{
    proof {
        reveal_strlit("manifest-");
        reveal_strlit(".bin");
    }
    if !has_affixes(file_name, MANIFEST_FILE_PREFIX, MANIFEST_FILE_SUFFIX) {
        return Err(ManifestCodecError::InvalidFileName);
    }
    let length = file_name.unicode_len();
    let start: usize = 9;
    let end = length - 4;
    if end - start != 20 || !digits_between(file_name, start, end) {
        return Err(ManifestCodecError::InvalidGeneration);
    }
    let generation = match parse_decimal(file_name, start, end) {
        Some(generation) => generation,
        None => return Err(ManifestCodecError::GenerationOverflow),
    };
    if generation == 0 {
        return Err(ManifestCodecError::ZeroGeneration);
    }
    Ok(generation)
}

/// The UTF-8 bytes of a segment's file name.
pub open spec fn name_bytes(segment: SegmentMetadataView) -> Seq<u8> {
    encode_utf8(segment.file_name)
}

/// The encoding of one segment record.
pub open spec fn spec_record(segment: SegmentMetadataView) -> Seq<u8> {
    spec_u64_to_le_bytes(segment.id) + varint::spec_encode(name_bytes(segment).len() as u32)
        + name_bytes(segment) + spec_u32_to_le_bytes(segment.document_count)
        + spec_u32_to_le_bytes(segment.term_count) + spec_u64_to_le_bytes(segment.length_bytes)
        + spec_u32_to_le_bytes(segment.checksum)
}

/// The encodings of all records, one after another.
pub open spec fn spec_records(segments: Seq<SegmentMetadataView>) -> Seq<u8>
    decreases segments.len(),
{
    if segments.len() == 0 {
        Seq::empty()
    } else {
        spec_records(segments.drop_last()) + spec_record(segments.last())
    }
}

/// A complete manifest file of generation `generation` listing `segments`.
pub open spec fn spec_manifest_file(generation: u64, segments: Seq<SegmentMetadataView>) -> Seq<u8> {
    sealed(
        file_header(FileType::Manifest) + spec_u64_to_le_bytes(generation) + spec_u32_to_le_bytes(
            segments.len() as u32,
        ) + spec_records(segments),
    )
}

/// The space a segment record takes.
pub open spec fn record_length(segment: SegmentMetadataView) -> nat {
    (SEGMENT_RECORD_FIXED_LENGTH + varint::spec_encode(name_bytes(segment).len() as u32).len()
        + name_bytes(segment).len()) as nat
}

/// The length of a manifest file of the first `count` segments, or the
/// first reason it cannot be computed: a file name longer than a `u32` can
/// count, or a length past `usize::MAX`.
pub open spec fn length_check(segments: Seq<SegmentMetadataView>, count: int) -> Result<
    nat,
    ManifestCodecError,
>
    decreases count,
{
    if count <= 0 {
        Ok((HEADER_LENGTH + CHECKSUM_LENGTH) as nat)
    } else {
        match length_check(segments, count - 1) {
            Err(error) => Err(error),
            Ok(length) => if name_bytes(segments[count - 1]).len() > u32::MAX {
                Err(ManifestCodecError::FileNameTooLong)
            } else if length + record_length(segments[count - 1]) > usize::MAX {
                Err(ManifestCodecError::LengthOverflow)
            } else {
                Ok(length + record_length(segments[count - 1]))
            },
        }
    }
}

proof fn lemma_records_length(segments: Seq<SegmentMetadataView>, count: int)
    requires
        0 <= count <= segments.len(),
        length_check(segments, count) is Ok,
    ensures
        length_check(segments, count) == Ok::<nat, ManifestCodecError>(
            (HEADER_LENGTH + CHECKSUM_LENGTH + spec_records(segments.subrange(0, count)).len()) as nat,
        ),
    decreases count,
{
    crate::wire::lemma_le_round_trips();
    if count > 0 {
        lemma_records_length(segments, count - 1);
        let prefix = segments.subrange(0, count);
        assert(prefix.drop_last() =~= segments.subrange(0, count - 1));
        assert(prefix.last() == segments[count - 1]);
    } else {
        assert(segments.subrange(0, 0).len() == 0);
    }
}

proof fn lemma_length_check_error(segments: Seq<SegmentMetadataView>, count: int, later: int)
    requires
        0 <= count <= later,
        length_check(segments, count) is Err,
    ensures
        length_check(segments, later) == length_check(segments, count),
    decreases later - count,
{
    if later > count {
        lemma_length_check_error(segments, count, later - 1);
    }
}

/// Computes the length of the manifest file of `manifest`.
fn encoded_length(manifest: &Manifest) -> (result: Result<usize, ManifestCodecError>)
    ensures
        match length_check(manifest@, manifest@.len() as int) {
            Ok(length) => result == Ok::<usize, ManifestCodecError>(length as usize),
            Err(error) => result == Err::<usize, ManifestCodecError>(error),
        },
{
    let segments = manifest.segments();
    let ghost views = manifest@;
    let mut length: usize = HEADER_LENGTH + CHECKSUM_LENGTH;
    let mut i: usize = 0;
    while i < segments.len()
        invariant
            i <= segments@.len(),
            views == metadata_views(segments@),
            views == manifest@,
            length_check(views, i as int) == Ok::<nat, ManifestCodecError>(length as nat),
        decreases segments@.len() - i,
    {
        let name = segments[i].file_name.as_str();
        assert(views[i as int] == segments@[i as int]@);
        let name_length = name.as_bytes().len();
        if name_length > 4294967295 {
            proof {
                lemma_length_check_error(views, i as int + 1, views.len() as int);
            }
            return Err(ManifestCodecError::FileNameTooLong);
        }
        let varint_length = varint::encoded_length(name_length as u32);
        let record = SEGMENT_RECORD_FIXED_LENGTH + varint_length;
        let next = match length.checked_add(record) {
            Some(next) => match next.checked_add(name_length) {
                Some(next) => next,
                None => {
                    proof {
                        lemma_length_check_error(views, i as int + 1, views.len() as int);
                    }
                    return Err(ManifestCodecError::LengthOverflow);
                },
            },
            None => {
                proof {
                    lemma_length_check_error(views, i as int + 1, views.len() as int);
                }
                return Err(ManifestCodecError::LengthOverflow);
            },
        };
        length = next;
        i = i + 1;
    }
    Ok(length)
}

fn encode_segment_record(output: &mut Vec<u8>, segment: &SegmentMetadata)
    requires
        name_bytes(segment@).len() <= u32::MAX,
    ensures
        final(output)@ == old(output)@ + spec_record(segment@),
{
    let ghost start = output@;
    let name = segment.file_name.as_str().as_bytes();
    push_u64_le(output, segment.id.value());
    varint::encode(name.len() as u32, output);
    push_bytes(output, name);
    push_u32_le(output, segment.document_count);
    push_u32_le(output, segment.term_count);
    push_u64_le(output, segment.length_bytes);
    push_u32_le(output, segment.checksum);
    assert(output@ =~= start + spec_record(segment@));
}

/// Whether `result` is what encoding `segments` under file name `name`
/// gives: the checks in order (file name, manifest validity, segment count,
/// length), then the manifest file itself.
pub open spec fn encode_outcome(
    result: Result<Vec<u8>, ManifestCodecError>,
    name: Seq<char>,
    segments: Seq<SegmentMetadataView>,
) -> bool {
    match spec_generation(name) {
        Err(error) => result matches Err(e) && e == error,
        Ok(generation) => match first_violation(segments) {
            Some((i, violation)) => result matches Err(ManifestCodecError::InvalidManifest(e))
                && reports(e, segments, i, violation),
            None => if segments.len() > u32::MAX {
                result matches Err(ManifestCodecError::SegmentCountTooLarge)
            } else {
                match length_check(segments, segments.len() as int) {
                    Err(error) => result matches Err(e) && e == error,
                    Ok(_) => result matches Ok(bytes) && bytes@ == spec_manifest_file(
                        generation,
                        segments,
                    ),
                }
            },
        },
    }
}

/// Builds the bytes of the manifest file named `file_name` (the generation
/// comes from the name), after validating the manifest again.
pub fn encode(file_name: &str, manifest: &Manifest) -> (result: Result<
    Vec<u8>,
    ManifestCodecError,
>)
    ensures
        encode_outcome(result, file_name@, manifest@),
{
    let generation = match generation_from_file_name(file_name) {
        Ok(generation) => generation,
        Err(error) => return Err(error),
    };
    match manifest.validate() {
        Ok(()) => {},
        Err(error) => return Err(ManifestCodecError::InvalidManifest(error)),
    }
    let segment_count = manifest.segment_count();
    if segment_count > 4294967295 {
        return Err(ManifestCodecError::SegmentCountTooLarge);
    }
    let total_length = match encoded_length(manifest) {
        Ok(length) => length,
        Err(error) => return Err(error),
    };
    let mut output = start_file(FileType::Manifest);
    output.reserve(total_length - COMMON_HEADER_LENGTH);
    push_u64_le(&mut output, generation);
    push_u32_le(&mut output, segment_count as u32);
    let ghost header = output@;
    let segments = manifest.segments();
    let ghost views = manifest@;
    let mut i: usize = 0;
    while i < segments.len()
        invariant
            i <= segments@.len(),
            views == metadata_views(segments@),
            length_check(views, views.len() as int) is Ok,
            output@ == header + spec_records(views.subrange(0, i as int)),
        decreases segments@.len() - i,
    {
        proof {
            lemma_length_check_prefix(views, i as int + 1);
        }
        assert(views[i as int] == segments@[i as int]@);
        encode_segment_record(&mut output, &segments[i]);
        let ghost prefix = views.subrange(0, i as int + 1);
        assert(prefix.drop_last() =~= views.subrange(0, i as int));
        i = i + 1;
    }
    assert(views.subrange(0, views.len() as int) =~= views);
    append_checksum(&mut output);
    Ok(output)
}

proof fn lemma_length_check_prefix(segments: Seq<SegmentMetadataView>, count: int)
    requires
        0 < count <= segments.len(),
        length_check(segments, segments.len() as int) is Ok,
    ensures
        length_check(segments, count) is Ok,
        name_bytes(segments[count - 1]).len() <= u32::MAX,
    decreases segments.len() - count,
{
    if count < segments.len() {
        lemma_length_check_prefix(segments, count + 1);
    }
}

/// Why a manifest file is rejected, with field names as text.
pub enum ManifestFailure {
    Plain(ManifestCodecError),
    Field(FieldProblem, Seq<char>),
}

/// Whether `error` is the error that reports `failure`.
pub open spec fn describes(error: ManifestCodecError, failure: ManifestFailure) -> bool {
    match failure {
        ManifestFailure::Plain(expected) => error == expected,
        ManifestFailure::Field(problem, field) => error matches ManifestCodecError::Field(e)
            && e.problem == problem && e.field@ == field,
    }
}

/// Reading `length` bytes of field `field` at `position` of `input`.
pub open spec fn read_field(input: Seq<u8>, position: nat, length: nat, field: Seq<char>) -> Result<
    Seq<u8>,
    ManifestFailure,
> {
    match read_problem(position, length, input.len()) {
        Some(problem) => Err(ManifestFailure::Field(problem, field)),
        None => Ok(input.subrange(position as int, (position + length) as int)),
    }
}

/// Reading the four fixed-width fields that end a segment record, at
/// `position` of `input`: document count, term count, length, checksum.
pub open spec fn parse_record_tail(input: Seq<u8>, position: nat) -> Result<
    (u32, u32, u64, u32),
    ManifestFailure,
> {
    match read_field(input, position, 4, "segment document count"@) {
        Err(failure) => Err(failure),
        Ok(document_count) => match read_field(input, position + 4, 4, "segment term count"@) {
            Err(failure) => Err(failure),
            Ok(term_count) => match read_field(input, position + 8, 8, "segment length"@) {
                Err(failure) => Err(failure),
                Ok(length) => match read_field(input, position + 16, 4, "segment checksum"@) {
                    Err(failure) => Err(failure),
                    Ok(checksum) => Ok(
                        (
                            spec_u32_from_le_bytes(document_count),
                            spec_u32_from_le_bytes(term_count),
                            spec_u64_from_le_bytes(length),
                            spec_u32_from_le_bytes(checksum),
                        ),
                    ),
                },
            },
        },
    }
}

/// Reading one segment record at `position` of `input`: the record and the
/// position after it, or the first problem.
pub open spec fn parse_record(input: Seq<u8>, position: nat) -> Result<
    (SegmentMetadataView, nat),
    ManifestFailure,
> {
    match read_field(input, position, 8, "segment ID"@) {
        Err(failure) => Err(failure),
        Ok(id_bytes) => {
            let id = spec_u64_from_le_bytes(id_bytes);
            if id == 0 {
                Err(ManifestFailure::Plain(ManifestCodecError::ZeroSegmentId))
            } else {
                let after_id = position + 8;
                match varint::spec_decode(input.subrange(after_id as int, input.len() as int)) {
                    Err(error) => Err(
                        ManifestFailure::Field(varint_problem(error), "segment file-name length"@),
                    ),
                    Ok((name_length, prefix_length)) => {
                        let name_start = after_id + prefix_length;
                        match read_field(input, name_start, name_length as nat, "segment file name"@) {
                            Err(failure) => Err(failure),
                            Ok(name) => if !valid_utf8(name) {
                                Err(ManifestFailure::Plain(ManifestCodecError::FileNameNotUtf8))
                            } else {
                                let tail_start = (name_start + name_length) as nat;
                                match parse_record_tail(input, tail_start) {
                                    Err(failure) => Err(failure),
                                    Ok((document_count, term_count, length_bytes, checksum)) => Ok(
                                        (
                                            SegmentMetadataView {
                                                id,
                                                file_name: decode_utf8(name),
                                                document_count,
                                                term_count,
                                                length_bytes,
                                                checksum,
                                            },
                                            (tail_start + 20) as nat,
                                        ),
                                    ),
                                }
                            },
                        }
                    },
                }
            }
        },
    }
}

/// Reading `count` more records at `position` after the records `read`:
/// all records and the position after the last one, or the first problem.
/// The running totals are checked after every record.
pub open spec fn parse_records(
    input: Seq<u8>,
    position: nat,
    count: nat,
    read: Seq<SegmentMetadataView>,
) -> Result<(Seq<SegmentMetadataView>, nat), ManifestFailure>
    decreases count,
{
    if count == 0 {
        Ok((read, position))
    } else {
        match parse_record(input, position) {
            Err(failure) => Err(failure),
            Ok((segment, next)) => {
                let all = read.push(segment);
                if total_documents(all, all.len() as int) > u64::MAX {
                    Err(ManifestFailure::Plain(ManifestCodecError::TotalDocumentCountOverflow))
                } else if total_bytes(all, all.len() as int) > u64::MAX {
                    Err(ManifestFailure::Plain(ManifestCodecError::TotalSegmentBytesOverflow))
                } else if total_terms(all, all.len() as int) > u64::MAX {
                    Err(ManifestFailure::Plain(ManifestCodecError::TotalTermEntriesOverflow))
                } else {
                    parse_records(input, next, (count - 1) as nat, all)
                }
            },
        }
    }
}

/// Reading a whole manifest file named `name`: the framing, the generation
/// (which must match the name), the segment count (which must fit the
/// bytes that follow), the records, and nothing after them.
pub open spec fn spec_decode_manifest(name: Seq<char>, bytes: Seq<u8>) -> Result<
    Seq<SegmentMetadataView>,
    ManifestFailure,
> {
    match spec_check_file(FileType::Manifest, bytes) {
        Err(error) => Err(ManifestFailure::Plain(ManifestCodecError::File(error))),
        Ok(_) => match spec_generation(name) {
            Err(error) => Err(ManifestFailure::Plain(error)),
            Ok(generation) => {
                let input = bytes.subrange(0, bytes.len() - CHECKSUM_LENGTH);
                match read_field(input, 10, 8, "manifest generation"@) {
                    Err(failure) => Err(failure),
                    Ok(stored) => if spec_u64_from_le_bytes(stored) != generation {
                        Err(ManifestFailure::Plain(ManifestCodecError::GenerationMismatch))
                    } else {
                        match read_field(input, 18, 4, "segment count"@) {
                            Err(failure) => Err(failure),
                            Ok(count_bytes) => {
                                let count = spec_u32_from_le_bytes(count_bytes);
                                if count > (input.len() - HEADER_LENGTH) / (SEGMENT_RECORD_MIN_LENGTH as int) {
                                    Err(ManifestFailure::Plain(ManifestCodecError::SegmentCountExceedsLength))
                                } else {
                                    match parse_records(input, 22, count as nat, Seq::empty()) {
                                        Err(failure) => Err(failure),
                                        Ok((segments, end)) => if end != input.len() {
                                            Err(ManifestFailure::Plain(ManifestCodecError::TrailingBytes))
                                        } else {
                                            Ok(segments)
                                        },
                                    }
                                }
                            },
                        }
                    },
                }
            },
        },
    }
}

fn decode_segment_record(decoder: &mut Decoder) -> (result: Result<SegmentMetadata, ManifestCodecError>)
    requires
        old(decoder).wf(),
    ensures
        final(decoder).wf(),
        final(decoder).input() == old(decoder).input(),
        match parse_record(old(decoder).input(), old(decoder).position()) {
            Ok((segment, next)) => result matches Ok(m) && m@ == segment && final(decoder).position()
                == next,
            Err(failure) => result matches Err(e) && describes(e, failure),
        },
{
    proof {
        reveal_strlit("segment ID");
    }
    let ghost input = decoder.input();
    let ghost start = decoder.position();
    let segment_id = match decoder.read_u64("segment ID") {
        Ok(value) => value,
        Err(error) => return Err(ManifestCodecError::Field(error)),
    };
    assert(input.subrange(start as int, start + 8int) =~= old(decoder).rest().subrange(0, 8));
    let id = match SegmentId::new(segment_id) {
        Ok(id) => id,
        Err(_) => return Err(ManifestCodecError::ZeroSegmentId),
    };
    assert(decoder.rest() =~= input.subrange(start + 8int, input.len() as int));
    let name_length = match decoder.read_varint("segment file-name length") {
        Ok(value) => value,
        Err(error) => return Err(ManifestCodecError::Field(error)),
    };
    let name_bytes = match decoder.read_exact(name_length as usize, "segment file name") {
        Ok(bytes) => bytes,
        Err(error) => return Err(ManifestCodecError::Field(error)),
    };
    let name = match str_from_utf8(name_bytes) {
        Some(name) => name,
        None => return Err(ManifestCodecError::FileNameNotUtf8),
    };
    proof {
        vstd::utf8::encode_utf8_decode_utf8(name@);
    }
    let file_name = name.to_owned();
    let ghost tail = decoder.position();
    let document_count = match decoder.read_u32("segment document count") {
        Ok(value) => value,
        Err(error) => return Err(ManifestCodecError::Field(error)),
    };
    assert(input.subrange(tail as int, tail + 4int) =~= decoder.input().subrange(tail as int, decoder.input().len() as int).subrange(0, 4));
    let term_count = match decoder.read_u32("segment term count") {
        Ok(value) => value,
        Err(error) => return Err(ManifestCodecError::Field(error)),
    };
    assert(input.subrange(tail + 4int, tail + 8int) =~= input.subrange(tail + 4int, input.len() as int).subrange(0, 4));
    let length_bytes = match decoder.read_u64("segment length") {
        Ok(value) => value,
        Err(error) => return Err(ManifestCodecError::Field(error)),
    };
    assert(input.subrange(tail + 8int, tail + 16int) =~= input.subrange(tail + 8int, input.len() as int).subrange(0, 8));
    let checksum = match decoder.read_u32("segment checksum") {
        Ok(value) => value,
        Err(error) => return Err(ManifestCodecError::Field(error)),
    };
    assert(input.subrange(tail + 16int, tail + 20int) =~= input.subrange(tail + 16int, input.len() as int).subrange(0, 4));
    Ok(SegmentMetadata { id, file_name, document_count, term_count, length_bytes, checksum })
}

proof fn lemma_parse_records_totals(
    input: Seq<u8>,
    position: nat,
    count: nat,
    read: Seq<SegmentMetadataView>,
)
    requires
        totals_fit(read),
    ensures
        parse_records(input, position, count, read) matches Ok((segments, _)) ==> totals_fit(
            segments,
        ),
    decreases count,
{
    if count > 0 {
        if let Ok((segment, next)) = parse_record(input, position) {
            let all = read.push(segment);
            if totals_fit(all) {
                lemma_parse_records_totals(input, next, (count - 1) as nat, all);
            }
        }
    }
}

/// Reads a manifest from the bytes of the file named `file_name`. Only what
/// is needed to decode safely is checked: framing, generation, counts,
/// canonical varints, UTF-8 names, nonzero IDs and total overflow.
#[verifier::loop_isolation(false)]
pub fn decode(file_name: &str, bytes: &[u8]) -> (result: Result<
    Manifest,
    ManifestCodecError,
>)
    ensures
        match spec_decode_manifest(file_name@, bytes@) {
            Ok(segments) => result matches Ok(manifest) && manifest@ == segments,
            Err(failure) => result matches Err(e) && describes(e, failure),
        },
{
    proof {
        reveal_strlit("manifest generation");
        reveal_strlit("segment count");
    }
    match check_file(FileType::Manifest, bytes) {
        Ok(_) => {},
        Err(error) => return Err(ManifestCodecError::File(error)),
    }
    let expected_generation = match generation_from_file_name(file_name) {
        Ok(generation) => generation,
        Err(error) => return Err(error),
    };
    let payload = &bytes[0..bytes.len() - CHECKSUM_LENGTH];
    let ghost input = payload@;
    let mut decoder = Decoder::new(payload);
    let magic = decoder.read_exact(COMMON_HEADER_LENGTH, "file header");
    assert(magic is Ok);
    let generation = match decoder.read_u64("manifest generation") {
        Ok(value) => value,
        Err(error) => return Err(ManifestCodecError::Field(error)),
    };
    assert(input.subrange(10, 18) =~= input.subrange(10, input.len() as int).subrange(0, 8));
    if generation != expected_generation {
        return Err(ManifestCodecError::GenerationMismatch);
    }
    let segment_count = match decoder.read_u32("segment count") {
        Ok(value) => value,
        Err(error) => return Err(ManifestCodecError::Field(error)),
    };
    assert(input.subrange(18, 22) =~= input.subrange(18, input.len() as int).subrange(0, 4));
    let segment_count = segment_count as usize;
    if segment_count > decoder.remaining() / SEGMENT_RECORD_MIN_LENGTH {
        return Err(ManifestCodecError::SegmentCountExceedsLength);
    }
    let mut segments: Vec<SegmentMetadata> = Vec::new();
    let mut total_document_count: u64 = 0;
    let mut total_segment_bytes: u64 = 0;
    let mut total_term_entries: u64 = 0;
    let ghost target = parse_records(input, 22, segment_count as nat, Seq::empty());
    assert(metadata_views(segments@) =~= Seq::<SegmentMetadataView>::empty());
    assert(decoder.position() == 22);
    let mut i: usize = 0;
    while i < segment_count
        invariant
            decoder.wf(),
            decoder.input() == input,
            i <= segment_count,
            parse_records(input, decoder.position(), (segment_count - i) as nat, metadata_views(segments@))
                == target,
            totals_fit(metadata_views(segments@)),
            total_document_count == total_documents(metadata_views(segments@), segments@.len() as int),
            total_segment_bytes == total_bytes(metadata_views(segments@), segments@.len() as int),
            total_term_entries == total_terms(metadata_views(segments@), segments@.len() as int),
            ids_nonzero(metadata_views(segments@)),
        decreases segment_count - i,
    {
        let ghost before = metadata_views(segments@);
        let segment = match decode_segment_record(&mut decoder) {
            Ok(segment) => segment,
            Err(error) => return Err(error),
        };
        proof {
            use_type_invariant(&segment.id);
        }
        let ghost all = before.push(segment@);
        assert(metadata_views(segments@.push(segment)) =~= all);
        assert(all.drop_last() =~= before);
        proof {
            crate::manifest::lemma_totals_push(before, segment@);
        }
        total_document_count = match total_document_count.checked_add(segment.document_count as u64) {
            Some(total) => total,
            None => return Err(ManifestCodecError::TotalDocumentCountOverflow),
        };
        total_segment_bytes = match total_segment_bytes.checked_add(segment.length_bytes) {
            Some(total) => total,
            None => return Err(ManifestCodecError::TotalSegmentBytesOverflow),
        };
        total_term_entries = match total_term_entries.checked_add(segment.term_count as u64) {
            Some(total) => total,
            None => return Err(ManifestCodecError::TotalTermEntriesOverflow),
        };
        segments.push(segment);
        i = i + 1;
    }
    if !decoder.is_finished() {
        return Err(ManifestCodecError::TrailingBytes);
    }
    Ok(Manifest::from_decoded_segments_unchecked(segments))
}

proof fn lemma_parse_record_of_record(input: Seq<u8>, position: nat, segment: SegmentMetadataView)
    requires
        position + spec_record(segment).len() <= input.len(),
        input.len() <= usize::MAX,
        input.subrange(position as int, (position + spec_record(segment).len()) as int) == spec_record(
            segment,
        ),
        segment.id > 0,
        name_bytes(segment).len() <= u32::MAX,
    ensures
        parse_record(input, position) == Ok::<(SegmentMetadataView, nat), ManifestFailure>(
            (segment, position + spec_record(segment).len()),
        ),
{
    crate::wire::lemma_le_round_trips();
    vstd::utf8::encode_utf8_valid_utf8(segment.file_name);
    vstd::utf8::encode_utf8_decode_utf8(segment.file_name);
    let record = spec_record(segment);
    let names = name_bytes(segment);
    let length_prefix = varint::spec_encode(names.len() as u32);
    let p0 = position as int;
    let p1 = p0 + 8;
    let p2 = p1 + length_prefix.len();
    let p3 = p2 + names.len();
    let end = p0 + record.len();
    assert(record.len() == 8 + length_prefix.len() + names.len() + 20);
    assert(input.subrange(p0, p1) =~= record.subrange(0, 8));
    assert(record.subrange(0, 8) =~= spec_u64_to_le_bytes(segment.id));
    let rest = input.subrange(p2, input.len() as int);
    assert(input.subrange(p1, input.len() as int) =~= length_prefix + rest) by {
        assert forall|i: int| 0 <= i < length_prefix.len() implies input.subrange(
            p1,
            input.len() as int,
        )[i] == length_prefix[i] by {
            assert(input[p1 + i] == record[8 + i]);
        }
    }
    varint::lemma_decode_encode(names.len() as u32, rest);
    assert(input.subrange(p2, p3) =~= names) by {
        assert forall|i: int| 0 <= i < names.len() implies input.subrange(p2, p3)[i] == names[i] by {
            assert(input[p2 + i] == record[8 + length_prefix.len() + i]);
        }
    }
    assert(input.subrange(p3, p3 + 4) =~= spec_u32_to_le_bytes(segment.document_count)) by {
        assert forall|i: int| 0 <= i < 4 implies input.subrange(p3, p3 + 4)[i]
            == spec_u32_to_le_bytes(segment.document_count)[i] by {
            assert(input[p3 + i] == record[p3 - p0 + i]);
        }
    }
    assert(input.subrange(p3 + 4, p3 + 8) =~= spec_u32_to_le_bytes(segment.term_count)) by {
        assert forall|i: int| 0 <= i < 4 implies input.subrange(p3 + 4, p3 + 8)[i]
            == spec_u32_to_le_bytes(segment.term_count)[i] by {
            assert(input[p3 + 4 + i] == record[p3 - p0 + 4 + i]);
        }
    }
    assert(input.subrange(p3 + 8, p3 + 16) =~= spec_u64_to_le_bytes(segment.length_bytes)) by {
        assert forall|i: int| 0 <= i < 8 implies input.subrange(p3 + 8, p3 + 16)[i]
            == spec_u64_to_le_bytes(segment.length_bytes)[i] by {
            assert(input[p3 + 8 + i] == record[p3 - p0 + 8 + i]);
        }
    }
    assert(input.subrange(p3 + 16, p3 + 20) =~= spec_u32_to_le_bytes(segment.checksum)) by {
        assert forall|i: int| 0 <= i < 4 implies input.subrange(p3 + 16, p3 + 20)[i]
            == spec_u32_to_le_bytes(segment.checksum)[i] by {
            assert(input[p3 + 16 + i] == record[p3 - p0 + 16 + i]);
        }
    }
}

proof fn lemma_records_prefix(segments: Seq<SegmentMetadataView>, count: int)
    requires
        0 <= count <= segments.len(),
    ensures
        spec_records(segments.subrange(0, count)).len() <= spec_records(segments).len(),
        spec_records(segments).subrange(0, spec_records(segments.subrange(0, count)).len() as int)
            == spec_records(segments.subrange(0, count)),
    decreases segments.len() - count,
{
    if count == segments.len() {
        assert(segments.subrange(0, count) =~= segments);
        assert(spec_records(segments).subrange(0, spec_records(segments).len() as int) =~= spec_records(segments));
    } else {
        lemma_records_prefix(segments, count + 1);
        let longer = segments.subrange(0, count + 1);
        assert(longer.drop_last() =~= segments.subrange(0, count));
        let shorter_bytes = spec_records(segments.subrange(0, count));
        let longer_bytes = spec_records(longer);
        assert(longer_bytes == shorter_bytes + spec_record(segments[count]));
        assert(spec_records(segments).subrange(0, shorter_bytes.len() as int) =~= longer_bytes.subrange(
            0,
            shorter_bytes.len() as int,
        ));
        assert(longer_bytes.subrange(0, shorter_bytes.len() as int) =~= shorter_bytes);
    }
}

proof fn lemma_records_min_length(segments: Seq<SegmentMetadataView>)
    ensures
        spec_records(segments).len() >= SEGMENT_RECORD_MIN_LENGTH * segments.len(),
    decreases segments.len(),
{
    crate::wire::lemma_le_round_trips();
    if segments.len() > 0 {
        lemma_records_min_length(segments.drop_last());
        varint::lemma_encode_length(name_bytes(segments.last()).len() as u32);
    }
}

proof fn lemma_parse_records_of_records(
    input: Seq<u8>,
    segments: Seq<SegmentMetadataView>,
    count: int,
)
    requires
        0 <= count <= segments.len(),
        input.len() == HEADER_LENGTH + spec_records(segments).len(),
        input.len() <= usize::MAX,
        input.subrange(HEADER_LENGTH as int, input.len() as int) == spec_records(segments),
        totals_fit(segments),
        forall|i: int| 0 <= i < segments.len() ==> (#[trigger] segments[i]).id > 0,
        length_check(segments, segments.len() as int) is Ok,
    ensures
        parse_records(
            input,
            (HEADER_LENGTH + spec_records(segments.subrange(0, count)).len()) as nat,
            (segments.len() - count) as nat,
            segments.subrange(0, count),
        ) == Ok::<(Seq<SegmentMetadataView>, nat), ManifestFailure>((segments, input.len())),
    decreases segments.len() - count,
{
    if count == segments.len() {
        assert(segments.subrange(0, count) =~= segments);
    } else {
        let before = segments.subrange(0, count);
        let longer = segments.subrange(0, count + 1);
        let segment = segments[count];
        assert(longer.drop_last() =~= before);
        assert(before.push(segment) =~= longer);
        lemma_records_prefix(segments, count + 1);
        let start = spec_records(before).len();
        let record = spec_record(segment);
        assert(spec_records(longer) == spec_records(before) + record);
        let position = (HEADER_LENGTH + start) as nat;
        assert(input.subrange(position as int, (position + record.len()) as int) =~= record) by {
            assert forall|i: int| 0 <= i < record.len() implies input.subrange(
                position as int,
                (position + record.len()) as int,
            )[i] == record[i] by {
                assert(input[position + i] == spec_records(segments)[start + i]);
                assert(spec_records(segments)[start + i] == spec_records(longer)[start + i]);
            }
        }
        lemma_length_check_prefix(segments, count + 1);
        lemma_parse_record_of_record(input, position, segment);
        crate::manifest::lemma_prefix_totals(segments, count + 1);
        assert(totals_fit(longer)) by {
            crate::manifest::lemma_prefix_totals(segments, count + 1);
            lemma_totals_of_prefix(segments, count + 1);
        }
        lemma_parse_records_of_records(input, segments, count + 1);
    }
}

proof fn lemma_totals_of_prefix(segments: Seq<SegmentMetadataView>, count: int)
    requires
        0 <= count <= segments.len(),
    ensures
        total_documents(segments.subrange(0, count), count) == total_documents(segments, count),
        total_bytes(segments.subrange(0, count), count) == total_bytes(segments, count),
        total_terms(segments.subrange(0, count), count) == total_terms(segments, count),
{
    lemma_totals_of_prefix_upto(segments, count, count);
}

proof fn lemma_totals_of_prefix_upto(segments: Seq<SegmentMetadataView>, count: int, upto: int)
    requires
        0 <= upto <= count <= segments.len(),
    ensures
        total_documents(segments.subrange(0, count), upto) == total_documents(segments, upto),
        total_bytes(segments.subrange(0, count), upto) == total_bytes(segments, upto),
        total_terms(segments.subrange(0, count), upto) == total_terms(segments, upto),
    decreases upto,
{
    if upto > 0 {
        lemma_totals_of_prefix_upto(segments, count, upto - 1);
    }
}

/// Reading a manifest file back gives the segment records it was written
/// from: for a valid manifest whose file can be encoded under `name`,
/// decoding the encoded bytes under the same name returns the same records.
/// The records of every `Manifest` have nonzero identifiers
/// (`Manifest::segments` states it), as every `SegmentId` has.
pub proof fn lemma_manifest_round_trip(name: Seq<char>, segments: Seq<SegmentMetadataView>)
    requires
        spec_generation(name) is Ok,
        first_violation(segments) is None,
        segments.len() <= u32::MAX,
        length_check(segments, segments.len() as int) is Ok,
        ids_nonzero(segments),
    ensures
        spec_decode_manifest(name, spec_manifest_file(spec_generation(name)->Ok_0, segments))
            == Ok::<Seq<SegmentMetadataView>, ManifestFailure>(segments),
{
    crate::wire::lemma_le_round_trips();
    crate::manifest::lemma_valid_totals_fit(segments);
    let generation = spec_generation(name)->Ok_0;
    let records = spec_records(segments);
    let body = spec_u64_to_le_bytes(generation) + spec_u32_to_le_bytes(segments.len() as u32)
        + records;
    let header = file_header(FileType::Manifest);
    crate::binary_file::lemma_check_sealed_file(FileType::Manifest, body);
    let bytes = spec_manifest_file(generation, segments);
    assert(header + body =~= header + spec_u64_to_le_bytes(generation) + spec_u32_to_le_bytes(
        segments.len() as u32,
    ) + records);
    assert(bytes =~= sealed(header + body));
    let input = bytes.subrange(0, bytes.len() - CHECKSUM_LENGTH);
    assert(input =~= header + body);
    lemma_records_length(segments, segments.len() as int);
    assert(segments.subrange(0, segments.len() as int) =~= segments);
    assert(input.len() == HEADER_LENGTH + records.len());
    assert(input.subrange(10, 18) =~= spec_u64_to_le_bytes(generation));
    assert(input.subrange(18, 22) =~= spec_u32_to_le_bytes(segments.len() as u32));
    lemma_records_min_length(segments);
    assert(input.subrange(HEADER_LENGTH as int, input.len() as int) =~= records);
    lemma_parse_records_of_records(input, segments, 0);
    assert(segments.subrange(0, 0) =~= Seq::<SegmentMetadataView>::empty());
}

} // verus!
