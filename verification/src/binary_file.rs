//! The framing shared by segment and manifest files (an eight-byte magic, a
//! format version, a body, and a CRC-32 footer over everything before it)
//! and a bounds-checked cursor for reading file bodies.

use crate::checksum::{checksum, crc32};
use crate::text::join2;
use crate::varint;
use crate::wire::{push_bytes, push_u16_le, push_u32_le, read_u16_le, read_u32_le, read_u64_le};
use vstd::bytes::*;
use vstd::prelude::*;

verus! {

/// Length of the checksum footer.
pub const CHECKSUM_LENGTH: usize = 4;

/// Length of the magic and format version that start every file.
pub const COMMON_HEADER_LENGTH: usize = 10;

/// The format version written and accepted for both file types.
pub const FORMAT_VERSION: u16 = 1;

/// The broad class of an error, in the manner of `std::io::ErrorKind`.
#[derive(Debug, Clone, Copy, PartialEq, Eq, Structural)]
pub enum ErrorKind {
    InvalidData,
    InvalidInput,
    UnexpectedEof,
    AlreadyExists,
}

/// The two kinds of file the index stores.
#[derive(Debug, Clone, Copy, PartialEq, Eq, Structural)]
pub enum FileType {
    Manifest,
    Segment,
}

/// The magic bytes that open a file of type `file_type`.
pub open spec fn spec_magic(file_type: FileType) -> Seq<u8> {
    match file_type {
        FileType::Segment => seq![0x49u8, 0x4e, 0x56, 0x49, 0x44, 0x58, 0x00, 0x00],
        FileType::Manifest => seq![0x49u8, 0x4e, 0x56, 0x4d, 0x41, 0x4e, 0x00, 0x00],
    }
}

/// The first bytes of every file of type `file_type`: magic, then version.
pub open spec fn file_header(file_type: FileType) -> Seq<u8> {
    spec_magic(file_type) + spec_u16_to_le_bytes(FORMAT_VERSION)
}

/// `payload` followed by its checksum.
pub open spec fn sealed(payload: Seq<u8>) -> Seq<u8> {
    payload + spec_u32_to_le_bytes(crc32(payload))
}

impl FileType {
    /// The magic bytes of this file type (`INVIDX` or `INVMAN`, padded with
    /// two zero bytes).
    pub fn magic(&self) -> (magic: [u8; 8])
        ensures
            magic@ == spec_magic(*self),
    {
        let magic = match self {
            FileType::Segment => [0x49u8, 0x4e, 0x56, 0x49, 0x44, 0x58, 0x00, 0x00],
            FileType::Manifest => [0x49u8, 0x4e, 0x56, 0x4d, 0x41, 0x4e, 0x00, 0x00],
        };
        assert(magic@ =~= spec_magic(*self));
        magic
    }

    /// The word used for this file type in messages.
    pub open spec fn spec_name(self) -> Seq<char> {
        match self {
            FileType::Manifest => "manifest"@,
            FileType::Segment => "segment"@,
        }
    }

    /// The word used for this file type in messages.
    pub fn name(&self) -> (name: &'static str)
        ensures
            name@ == self.spec_name(),
    {
        match self {
            FileType::Manifest => "manifest",
            FileType::Segment => "segment",
        }
    }
}

/// Why a file's framing was rejected.
#[derive(Debug, Clone, Copy, PartialEq, Eq, Structural)]
pub enum FileError {
    TooSmall(FileType),
    ChecksumMismatch(FileType),
    InvalidMagic(FileType),
    UnsupportedVersion(FileType),
}

impl FileError {
    /// The class of the error.
    pub fn kind(&self) -> (kind: ErrorKind)
        ensures
            kind == (match self {
                FileError::TooSmall(_) => ErrorKind::UnexpectedEof,
                _ => ErrorKind::InvalidData,
            }),
    {
        match self {
            FileError::TooSmall(_) => ErrorKind::UnexpectedEof,
            _ => ErrorKind::InvalidData,
        }
    }

    /// The error's message, such as `segment checksum mismatch`.
    pub fn message(&self) -> (message: String)
        ensures
            message@ == file_error_message(*self),
    {
        match self {
            FileError::TooSmall(t) => join2(t.name(), " too small"),
            FileError::ChecksumMismatch(t) => join2(t.name(), " checksum mismatch"),
            FileError::InvalidMagic(t) => crate::text::join3("invalid ", t.name(), " magic"),
            FileError::UnsupportedVersion(t) => crate::text::join3(
                "unsupported ",
                t.name(),
                " format version",
            ),
        }
    }
}

/// The message of a framing error.
pub open spec fn file_error_message(error: FileError) -> Seq<char> {
    match error {
        FileError::TooSmall(t) => t.spec_name() + " too small"@,
        FileError::ChecksumMismatch(t) => t.spec_name() + " checksum mismatch"@,
        FileError::InvalidMagic(t) => "invalid "@ + t.spec_name() + " magic"@,
        FileError::UnsupportedVersion(t) => "unsupported "@ + t.spec_name() + " format version"@,
    }
}

/// The message of a field that could not be read.
pub open spec fn field_error_message(problem: FieldProblem, field: Seq<char>) -> Seq<char> {
    match problem {
        FieldProblem::RangeOverflow => field + " range overflow"@,
        FieldProblem::Truncated => "truncated "@ + field,
        FieldProblem::Overflow => field + " overflow"@,
        FieldProblem::NonCanonical => "noncanonical "@ + field,
    }
}

/// The outcome of checking the framing of `bytes` as a file of type
/// `file_type`: its stored checksum when size, checksum, magic and version
/// are all right, otherwise the first of these that is wrong.
pub open spec fn spec_check_file(file_type: FileType, bytes: Seq<u8>) -> Result<u32, FileError> {
    if bytes.len() < COMMON_HEADER_LENGTH + CHECKSUM_LENGTH {
        Err(FileError::TooSmall(file_type))
    } else {
        let payload = bytes.subrange(0, bytes.len() - CHECKSUM_LENGTH);
        let stored = spec_u32_from_le_bytes(
            bytes.subrange(bytes.len() - CHECKSUM_LENGTH, bytes.len() as int),
        );
        if stored != crc32(payload) {
            Err(FileError::ChecksumMismatch(file_type))
        } else if payload.subrange(0, 8) != spec_magic(file_type) {
            Err(FileError::InvalidMagic(file_type))
        } else if spec_u16_from_le_bytes(payload.subrange(8, 10)) != FORMAT_VERSION {
            Err(FileError::UnsupportedVersion(file_type))
        } else {
            Ok(stored)
        }
    }
}

/// Starts a file of type `file_type`: its magic and version.
pub fn start_file(file_type: FileType) -> (bytes: Vec<u8>)
    ensures
        bytes@ == file_header(file_type),
{
    let mut bytes = Vec::new();
    let magic = file_type.magic();
    push_bytes(&mut bytes, &magic);
    push_u16_le(&mut bytes, FORMAT_VERSION);
    bytes
}

/// Appends the checksum of everything in `bytes` so far.
pub fn append_checksum(bytes: &mut Vec<u8>)
    ensures
        final(bytes)@ == sealed(old(bytes)@),
{
    let value = checksum(bytes.as_slice());
    push_u32_le(bytes, value);
}

/// Checks the framing of `bytes` as a file of type `file_type` and returns
/// the stored checksum. The body starts after the common header and ends
/// before the footer.
#[verifier::loop_isolation(false)]
pub fn check_file(file_type: FileType, bytes: &[u8]) -> (result: Result<u32, FileError>)
    ensures
        result == spec_check_file(file_type, bytes@),
{
    let length = bytes.len();
    if length < COMMON_HEADER_LENGTH + CHECKSUM_LENGTH {
        return Err(FileError::TooSmall(file_type));
    }
    let checksum_start = length - CHECKSUM_LENGTH;
    let stored = read_u32_le(bytes, checksum_start);
    let payload = &bytes[0..checksum_start];
    let computed = checksum(payload);
    if stored != computed {
        return Err(FileError::ChecksumMismatch(file_type));
    }
    let magic = file_type.magic();
    let mut index: usize = 0;
    while index < 8
        invariant
            index <= 8,
            payload@.len() >= 10,
            forall|i: int| 0 <= i < index ==> payload@[i] == magic@[i],
        decreases 8 - index,
    {
        if payload[index] != magic[index] {
            assert(payload@.subrange(0, 8)[index as int] != spec_magic(file_type)[index as int]);
            return Err(FileError::InvalidMagic(file_type));
        }
        index = index + 1;
    }
    assert(payload@.subrange(0, 8) =~= spec_magic(file_type));
    let version = read_u16_le(payload, 8);
    if version != FORMAT_VERSION {
        return Err(FileError::UnsupportedVersion(file_type));
    }
    Ok(stored)
}

/// A file with a correct header and checksum passes the framing check,
/// whatever its body.
pub proof fn lemma_check_sealed_file(file_type: FileType, body: Seq<u8>)
    ensures
        spec_check_file(file_type, sealed(file_header(file_type) + body)) == Ok::<u32, FileError>(
            crc32(file_header(file_type) + body),
        ),
{
    crate::wire::lemma_le_round_trips();
    let payload = file_header(file_type) + body;
    let bytes = sealed(payload);
    assert(bytes.subrange(0, bytes.len() - 4) =~= payload);
    assert(bytes.subrange(bytes.len() - 4, bytes.len() as int) =~= spec_u32_to_le_bytes(
        crc32(payload),
    ));
    assert(payload.subrange(0, 8) =~= spec_magic(file_type));
    assert(payload.subrange(8, 10) =~= spec_u16_to_le_bytes(FORMAT_VERSION));
}

/// What went wrong reading one field of a file body.
#[derive(Debug, Clone, Copy, PartialEq, Eq, Structural)]
pub enum FieldProblem {
    RangeOverflow,
    Truncated,
    Overflow,
    NonCanonical,
}

/// A field of a file body that could not be read, and the field's name.
#[derive(Debug, PartialEq, Eq)]
pub struct FieldError {
    pub problem: FieldProblem,
    pub field: String,
}

impl FieldError {
    /// The class of the error.
    pub fn kind(&self) -> (kind: ErrorKind)
        ensures
            kind == (if self.problem == FieldProblem::Truncated {
                ErrorKind::UnexpectedEof
            } else {
                ErrorKind::InvalidData
            }),
    {
        match self.problem {
            FieldProblem::Truncated => ErrorKind::UnexpectedEof,
            _ => ErrorKind::InvalidData,
        }
    }

    /// The error's message, such as `truncated term bytes`.
    pub fn message(&self) -> (message: String)
        ensures
            message@ == field_error_message(self.problem, self.field@),
    {
        match self.problem {
            FieldProblem::RangeOverflow => join2(self.field.as_str(), " range overflow"),
            FieldProblem::Truncated => join2("truncated ", self.field.as_str()),
            FieldProblem::Overflow => join2(self.field.as_str(), " overflow"),
            FieldProblem::NonCanonical => join2("noncanonical ", self.field.as_str()),
        }
    }
}

fn field_error(problem: FieldProblem, field: &str) -> (error: FieldError)
    ensures
        error.problem == problem,
        error.field@ == field@,
{
    FieldError { problem, field: field.to_owned() }
}

/// The problem a varint decoding error stands for.
pub open spec fn varint_problem(error: varint::DecodeError) -> FieldProblem {
    match error {
        varint::DecodeError::Truncated => FieldProblem::Truncated,
        varint::DecodeError::Overflow => FieldProblem::Overflow,
        varint::DecodeError::NonCanonical => FieldProblem::NonCanonical,
    }
}

/// The problem reading `length` bytes at `position` of an input of
/// `input_length` bytes meets, if any.
pub open spec fn read_problem(position: nat, length: nat, input_length: nat) -> Option<FieldProblem> {
    if position + length > usize::MAX {
        Some(FieldProblem::RangeOverflow)
    } else if position + length > input_length {
        Some(FieldProblem::Truncated)
    } else {
        None
    }
}

/// A cursor over a file body.
pub struct Decoder<'a> {
    bytes: &'a [u8],
    position: usize,
}

impl<'a> Decoder<'a> {
    /// The bytes being read.
    pub closed spec fn input(&self) -> Seq<u8> {
        self.bytes@
    }

    /// How many bytes have been read.
    pub closed spec fn position(&self) -> nat {
        self.position as nat
    }

    /// The cursor never passes the end of its bytes.
    pub closed spec fn wf(&self) -> bool {
        self.position <= self.bytes@.len()
    }

    /// The bytes not read yet.
    pub open spec fn rest(&self) -> Seq<u8> {
        self.input().subrange(self.position() as int, self.input().len() as int)
    }

    /// A cursor at the start of `bytes`.
    pub fn new(bytes: &'a [u8]) -> (decoder: Self)
        ensures
            decoder.wf(),
            decoder.input() == bytes@,
            decoder.position() == 0,
    {
        Self { bytes, position: 0 }
    }

    /// The number of bytes being read.
    pub fn length(&self) -> (length: usize)
        ensures
            length == self.input().len(),
    {
        self.bytes.len()
    }

    /// The number of bytes not read yet.
    pub fn remaining(&self) -> (count: usize)
        requires
            self.wf(),
        ensures
            count == self.input().len() - self.position(),
    {
        self.bytes.len() - self.position
    }

    /// Whether every byte has been read.
    pub fn is_finished(&self) -> (finished: bool)
        ensures
            finished == (self.position() == self.input().len()),
    {
        self.position == self.bytes.len()
    }

    /// Reads the next `length` bytes of field `field`.
    pub fn read_exact(&mut self, length: usize, field: &str) -> (result: Result<&'a [u8], FieldError>)
        requires
            old(self).wf(),
        ensures
            final(self).wf(),
            final(self).input() == old(self).input(),
            old(self).position() + length > usize::MAX ==> (result matches Err(e) && e.problem
                == FieldProblem::RangeOverflow && e.field@ == field@),
            old(self).position() + length <= usize::MAX && old(self).position() + length > old(
                self,
            ).input().len() ==> (result matches Err(e) && e.problem == FieldProblem::Truncated
                && e.field@ == field@),
            result is Err ==> final(self).position() == old(self).position(),
            old(self).position() + length <= old(self).input().len() ==> (result matches Ok(bytes)
                && bytes@ == old(self).input().subrange(
                old(self).position() as int,
                old(self).position() + length,
            ) && final(self).position() == old(self).position() + length),
    {
        let _total = self.bytes.len();
        let end = match self.position.checked_add(length) {
            Some(end) => end,
            None => return Err(field_error(FieldProblem::RangeOverflow, field)),
        };
        if end > self.bytes.len() {
            return Err(field_error(FieldProblem::Truncated, field));
        }
        let bytes = &self.bytes[self.position..end];
        self.position = end;
        Ok(bytes)
    }

    /// Reads a little-endian `u16` field.
    pub fn read_u16(&mut self, field: &str) -> (result: Result<u16, FieldError>)
        requires
            old(self).wf(),
        ensures
            final(self).wf(),
            final(self).input() == old(self).input(),
            old(self).position() + 2 <= old(self).input().len() ==> result == Ok::<u16, FieldError>(
                spec_u16_from_le_bytes(old(self).rest().subrange(0, 2)),
            ) && final(self).position() == old(self).position() + 2,
            read_problem(old(self).position(), 2, old(self).input().len()) matches Some(problem)
                ==> (result matches Err(e) && e.problem == problem && e.field@ == field@
                && final(self).position() == old(self).position()),
    {
        let bytes = self.read_exact(2, field)?;
        assert(bytes@ =~= old(self).rest().subrange(0, 2));
        Ok(u16_from_le_bytes(bytes))
    }

    /// Reads a little-endian `u32` field.
    pub fn read_u32(&mut self, field: &str) -> (result: Result<u32, FieldError>)
        requires
            old(self).wf(),
        ensures
            final(self).wf(),
            final(self).input() == old(self).input(),
            old(self).position() + 4 <= old(self).input().len() ==> result == Ok::<u32, FieldError>(
                spec_u32_from_le_bytes(old(self).rest().subrange(0, 4)),
            ) && final(self).position() == old(self).position() + 4,
            read_problem(old(self).position(), 4, old(self).input().len()) matches Some(problem)
                ==> (result matches Err(e) && e.problem == problem && e.field@ == field@
                && final(self).position() == old(self).position()),
    {
        let bytes = self.read_exact(4, field)?;
        assert(bytes@ =~= old(self).rest().subrange(0, 4));
        Ok(u32_from_le_bytes(bytes))
    }

    /// Reads a little-endian `u64` field.
    pub fn read_u64(&mut self, field: &str) -> (result: Result<u64, FieldError>)
        requires
            old(self).wf(),
        ensures
            final(self).wf(),
            final(self).input() == old(self).input(),
            old(self).position() + 8 <= old(self).input().len() ==> result == Ok::<u64, FieldError>(
                spec_u64_from_le_bytes(old(self).rest().subrange(0, 8)),
            ) && final(self).position() == old(self).position() + 8,
            read_problem(old(self).position(), 8, old(self).input().len()) matches Some(problem)
                ==> (result matches Err(e) && e.problem == problem && e.field@ == field@
                && final(self).position() == old(self).position()),
    {
        let bytes = self.read_exact(8, field)?;
        assert(bytes@ =~= old(self).rest().subrange(0, 8));
        Ok(u64_from_le_bytes(bytes))
    }

    /// Reads a varint field.
    pub fn read_varint(&mut self, field: &str) -> (result: Result<u32, FieldError>)
        requires
            old(self).wf(),
        ensures
            final(self).wf(),
            final(self).input() == old(self).input(),
            match varint::spec_decode(old(self).rest()) {
                Ok((value, length)) => result == Ok::<u32, FieldError>(value) && final(self).position()
                    == old(self).position() + length,
                Err(error) => result matches Err(e) && e.problem == varint_problem(error) && e.field@
                    == field@ && final(self).position() == old(self).position(),
            },
    {
        let length = self.bytes.len();
        match varint::decode(&self.bytes[self.position..length]) {
            Ok((value, size)) => {
                proof {
                    varint::lemma_decode_canonical(old(self).rest());
                }
                self.position = self.position + size;
                Ok(value)
            },
            Err(varint::DecodeError::Truncated) => Err(field_error(FieldProblem::Truncated, field)),
            Err(varint::DecodeError::Overflow) => Err(field_error(FieldProblem::Overflow, field)),
            Err(varint::DecodeError::NonCanonical) => Err(
                field_error(FieldProblem::NonCanonical, field),
            ),
        }
    }
}

} // verus!
