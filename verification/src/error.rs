//! Errors raised while reading or writing HDDM data.
use vstd::prelude::*;

use crate::header::AttributeDef;

verus! {

/// The kind of an input/output failure.
#[derive(Debug, Clone, PartialEq, Eq)]
pub enum IoFailure {
    /// Fewer bytes were left than a read needed.
    UnexpectedEof,
    /// Bytes were read but did not form valid data (for example, a string
    /// that is not UTF-8).
    InvalidData,
    /// An encoder failed to produce a compressed block.
    CompressionFailed,
    /// A compressed block could not be decoded.
    DecompressionFailed,
}

/// Violations of the HDDM format, each with the values that identify it.
#[derive(Debug, Clone, PartialEq, Eq)]
pub enum FormatError {
    NegativeElementSize(i32),
    ElementSizeMismatch,
    NegativeListCount(i32),
    PayloadNotEmpty,
    InvalidStatusTokenSize(i32),
    UnsupportedStatusTokenFormat(i32),
    UnsupportedCompressionBits(i32),
    NegativeZlibBlockSize(i32),
    NegativeBzip2BlockSize(i32),
    NegativeRecordSize(i32),
    Bzip2NotImplemented,
    HeaderEof,
    EmptyElementOutsideRoot,
    UnexpectedClosingTag(String),
    MismatchedClosingTag { expected: String, found: String },
    ClassMismatch { file_class: Option<String>, expected_class: Option<String> },
    ElementMismatch { file: String, expected: String },
    AttributeMismatch { element: String },
    AttributeListMismatch {
        element: String,
        file_attributes: Vec<AttributeDef>,
        expected_attributes: Vec<AttributeDef>,
    },
    MissingRequiredChild { child: String, parent: String },
    MalformedAttribute(String),
    HeaderNotUtf8(String),
    UnexpectedChildIndex(usize),
    MissingRequiredLink(String),
}

/// Any error of this library.
#[derive(Debug, Clone, PartialEq, Eq)]
pub enum HddmError {
    IoError(IoFailure),
    XmlError(String),
    Utf8Error(String),
    FormatError(FormatError),
}

pub type HddmResult<T> = Result<T, HddmError>;

} // verus!
