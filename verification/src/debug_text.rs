//! The text the `Debug` format gives the decoding errors, for messages that
//! name them.

use crate::manifest::ManifestError;
use crate::model::SegmentId;
use crate::postings::{DecodeError, EncodeError};
use crate::text::{decimal, format_decimal, join3};
use crate::varint;
use vstd::prelude::*;

verus! {

/// The `Debug` text of a varint decoding error.
pub open spec fn varint_error_text(error: varint::DecodeError) -> Seq<char> {
    match error {
        varint::DecodeError::Truncated => "Truncated"@,
        varint::DecodeError::Overflow => "Overflow"@,
        varint::DecodeError::NonCanonical => "NonCanonical"@,
    }
}

/// The `Debug` text of a varint decoding error.
pub fn varint_error_debug(error: varint::DecodeError) -> (text: String)
    ensures
        text@ == varint_error_text(error),
{
    match error {
        varint::DecodeError::Truncated => String::from_str("Truncated"),
        varint::DecodeError::Overflow => String::from_str("Overflow"),
        varint::DecodeError::NonCanonical => String::from_str("NonCanonical"),
    }
}

/// The `Debug` text of a postings decoding error.
pub open spec fn decode_error_text(error: DecodeError) -> Seq<char> {
    match error {
        DecodeError::InvalidDocumentDelta(e) => "InvalidDocumentDelta("@ + varint_error_text(e)
            + ")"@,
        DecodeError::InvalidTermFrequency(e) => "InvalidTermFrequency("@ + varint_error_text(e)
            + ")"@,
        DecodeError::DocumentIdOverflow => "DocumentIdOverflow"@,
        DecodeError::ZeroDelta { previous_document_id } => "ZeroDelta { previous_document_id: "@
            + decimal(previous_document_id as nat) + " }"@,
        DecodeError::ZeroFrequency { document_id } => "ZeroFrequency { document_id: "@ + decimal(
            document_id as nat,
        ) + " }"@,
        DecodeError::TrailingBytes => "TrailingBytes"@,
    }
}

/// The `Debug` text of a postings decoding error.
pub fn decode_error_debug(error: DecodeError) -> (text: String)
    ensures
        text@ == decode_error_text(error),
{
    match error {
        DecodeError::InvalidDocumentDelta(e) => {
            let inner = varint_error_debug(e);
            join3("InvalidDocumentDelta(", inner.as_str(), ")")
        },
        DecodeError::InvalidTermFrequency(e) => {
            let inner = varint_error_debug(e);
            join3("InvalidTermFrequency(", inner.as_str(), ")")
        },
        DecodeError::DocumentIdOverflow => String::from_str("DocumentIdOverflow"),
        DecodeError::ZeroDelta { previous_document_id } => {
            let number = format_decimal(previous_document_id as u64, 0);
            join3("ZeroDelta { previous_document_id: ", number.as_str(), " }")
        },
        DecodeError::ZeroFrequency { document_id } => {
            let number = format_decimal(document_id as u64, 0);
            join3("ZeroFrequency { document_id: ", number.as_str(), " }")
        },
        DecodeError::TrailingBytes => String::from_str("TrailingBytes"),
    }
}

/// The `Debug` text of a postings encoding error.
pub open spec fn encode_error_text(error: EncodeError) -> Seq<char> {
    match error {
        EncodeError::DocumentIdsNotStrictlyIncreasing { previous, current } =>
            "DocumentIdsNotStrictlyIncreasing { previous: "@ + decimal(previous as nat)
            + ", current: "@ + decimal(current as nat) + " }"@,
        EncodeError::ZeroFrequency { document_id } => "ZeroFrequency { document_id: "@ + decimal(
            document_id as nat,
        ) + " }"@,
    }
}

/// The `Debug` text of a postings encoding error.
pub fn encode_error_debug(error: EncodeError) -> (text: String)
    ensures
        text@ == encode_error_text(error),
{
    match error {
        EncodeError::DocumentIdsNotStrictlyIncreasing { previous, current } => {
            let previous_text = format_decimal(previous as u64, 0);
            let current_text = format_decimal(current as u64, 0);
            let mut text = join3(
                "DocumentIdsNotStrictlyIncreasing { previous: ",
                previous_text.as_str(),
                ", current: ",
            );
            text.append(current_text.as_str());
            text.append(" }");
            text
        },
        EncodeError::ZeroFrequency { document_id } => {
            let number = format_decimal(document_id as u64, 0);
            join3("ZeroFrequency { document_id: ", number.as_str(), " }")
        },
    }
}

/// How the `Debug` format writes the string `text`: in double quotes, with
/// the characters that `char::escape_debug` escapes escaped.
pub uninterp spec fn str_debug(text: Seq<char>) -> Seq<char>;

/// Formats `text` with its `Debug` implementation, `format!("{:?}", text)`.
/// The contract claims only that the result is the `Debug` text of exactly
/// these characters; which characters get escaped, and how, is not stated.
#[verifier::external_body]
fn string_debug(text: &str) -> (debug: String)
    ensures
        debug@ == str_debug(text@),
{
    format!("{text:?}")
}

/// The `Debug` text of a segment identifier.
pub open spec fn segment_id_text(id: SegmentId) -> Seq<char> {
    "SegmentId("@ + decimal(id.spec_value() as nat) + ")"@
}

/// The `Debug` text of a manifest error.
pub open spec fn manifest_error_text(error: ManifestError) -> Seq<char> {
    match error {
        ManifestError::SegmentIdsNotStrictlyIncreasing { previous, current } =>
            "SegmentIdsNotStrictlyIncreasing { previous: "@ + segment_id_text(previous)
            + ", current: "@ + segment_id_text(current) + " }"@,
        ManifestError::DuplicateFileName(name) => "DuplicateFileName("@ + str_debug(name@)
            + ")"@,
        ManifestError::UnsafeFileName(name) => "UnsafeFileName("@ + str_debug(name@) + ")"@,
        ManifestError::TotalDocumentCountOverflow => "TotalDocumentCountOverflow"@,
        ManifestError::TotalSegmentBytesOverflow => "TotalSegmentBytesOverflow"@,
        ManifestError::TotalTermEntriesOverflow => "TotalTermEntriesOverflow"@,
        ManifestError::SegmentCountOverflow => "SegmentCountOverflow"@,
    }
}

fn segment_id_debug(id: SegmentId) -> (text: String)
    ensures
        text@ == segment_id_text(id),
{
    let number = format_decimal(id.value(), 0);
    join3("SegmentId(", number.as_str(), ")")
}

/// The `Debug` text of a manifest error.
pub fn manifest_error_debug(error: &ManifestError) -> (text: String)
    ensures
        text@ == manifest_error_text(*error),
{
    match error {
        ManifestError::SegmentIdsNotStrictlyIncreasing { previous, current } => {
            let first = segment_id_debug(*previous);
            let second = segment_id_debug(*current);
            let start = join3("SegmentIdsNotStrictlyIncreasing { previous: ", first.as_str(), ", current: ");
            join3(start.as_str(), second.as_str(), " }")
        },
        ManifestError::DuplicateFileName(name) => {
            let quoted = string_debug(name.as_str());
            join3("DuplicateFileName(", quoted.as_str(), ")")
        },
        ManifestError::UnsafeFileName(name) => {
            let quoted = string_debug(name.as_str());
            join3("UnsafeFileName(", quoted.as_str(), ")")
        },
        ManifestError::TotalDocumentCountOverflow => String::from_str("TotalDocumentCountOverflow"),
        ManifestError::TotalSegmentBytesOverflow => String::from_str("TotalSegmentBytesOverflow"),
        ManifestError::TotalTermEntriesOverflow => String::from_str("TotalTermEntriesOverflow"),
        ManifestError::SegmentCountOverflow => String::from_str("SegmentCountOverflow"),
    }
}

} // verus!
