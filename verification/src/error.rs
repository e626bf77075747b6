//! Errors reported by the library.
use vstd::prelude::*;
use crate::header::YcdHeaderInfoElem;

verus! {

/// The category of an error, mirroring the I/O error kinds that the file
/// level reports for the same condition.
#[derive(Debug, Clone, Copy, PartialEq, Eq, Structural)]
pub enum YcdErrorKind {
    /// The caller asked for something that cannot be served.
    InvalidInput,
    /// A file's content is malformed or inconsistent.
    InvalidData,
    /// The data ended before the requested digits were delivered.
    UnexpectedEof,
}

/// Every condition under which the library refuses a request or a file.
#[derive(Debug, Clone, Copy, PartialEq, Eq)]
pub enum YcdError {
    /// A processing unit smaller than one compressed block (19 digits).
    UnitSizeTooSmall,
    /// An empty list of files.
    NoFiles,
    /// An index without entries.
    IndexEmpty,
    /// A start position of 0 (positions are 1-based).
    StartPositionZero,
    /// A request for zero digits.
    LengthZero,
    /// A start position outside the range `[first, last]` that the files cover.
    StartOutOfRange { position: u64, list_start: u64, list_end: u64 },
    /// A requested range that ends after the last covered digit.
    EndOutOfRange { end: u64, list_end: u64 },
    /// `start + length` does not fit in `usize`.
    EndPositionOverflow,
    /// The last covered digit position does not fit in `usize`.
    DigitRangeEndOverflow,
    /// Two consecutive files do not continue each other.
    NotContiguous { expected: i128, found: i128 },
    /// A digit position computed from a header overflows.
    DigitPositionOverflow,
    /// A file's first digit position does not fit in `usize`.
    PositionTooLarge,
    /// A file's digit length is negative or does not fit in `usize`.
    LengthOutOfRange,
    /// A byte offset into a payload overflows `u64`.
    SeekOffsetOverflow,
    /// The header ends without an `EndHeader` line.
    MissingEndHeader,
    /// A header line is not valid UTF-8.
    HeaderNotUtf8,
    /// The file ends inside the data marker that follows `EndHeader`.
    IncompleteHeader,
    /// `EndHeader\r` is not followed by `\n`.
    InvalidLineEnding,
    /// The NUL byte that opens the payload is missing.
    MissingNulMarker,
    /// More bytes are needed to decide; only reported when the bytes handed
    /// over are not the whole file.
    NeedMoreInput,
    /// A required header field is absent.
    MissingField { field: YcdHeaderInfoElem },
    /// A header field that must be a nonnegative integer is not.
    NotNonnegative { field: YcdHeaderInfoElem },
    /// A header field that must be positive is 0.
    NotPositive { field: YcdHeaderInfoElem },
    /// `FileVersion` is empty.
    EmptyFileVersion,
    /// `FirstDigits` is empty.
    EmptyFirstDigits,
    /// The file is not a base-10 file.
    NotBase10,
    /// The file's first digit lies at or after `TotalDigits`.
    BlockIdBeyondTotalDigits,
    /// The header section does not fit in `i32`.
    HeaderTooLarge,
    /// A compressed block holds a value of 20 decimal digits.
    BlockTooLarge,
    /// `next` was called on an exhausted stream.
    NoMoreData,
    /// The unit sequence number overflows `i64`.
    ProcessNumberOverflow,
    /// A stream start position outside the range of its file(s).
    StartOutsideFile { requested: i64, range_start: i64, range_end: i64 },
    /// A stream start position below 1.
    StartBelowOne,
    /// The size of an indexed file changed since the index was built.
    StaleFileSize { expected: u64, found: u64 },
    /// The last-modified time of an indexed file changed since the index was built.
    StaleModified,
}

impl YcdError {
    /// The kind of this error, as a spec function.
    pub open spec fn spec_kind(self) -> YcdErrorKind {
        match self {
            YcdError::UnitSizeTooSmall => YcdErrorKind::InvalidInput,
            YcdError::NoFiles => YcdErrorKind::InvalidInput,
            YcdError::IndexEmpty => YcdErrorKind::InvalidInput,
            YcdError::StartPositionZero => YcdErrorKind::InvalidInput,
            YcdError::LengthZero => YcdErrorKind::InvalidInput,
            YcdError::StartOutOfRange { .. } => YcdErrorKind::InvalidInput,
            YcdError::EndOutOfRange { .. } => YcdErrorKind::InvalidInput,
            YcdError::NotContiguous { .. } => YcdErrorKind::InvalidInput,
            YcdError::StartOutsideFile { .. } => YcdErrorKind::InvalidInput,
            YcdError::StartBelowOne => YcdErrorKind::InvalidInput,
            YcdError::NoMoreData => YcdErrorKind::UnexpectedEof,
            _ => YcdErrorKind::InvalidData,
        }
    }

    /// The kind of this error.
    pub fn kind(&self) -> (k: YcdErrorKind)
        ensures
            k == self.spec_kind(),
    {
        match self {
            YcdError::UnitSizeTooSmall => YcdErrorKind::InvalidInput,
            YcdError::NoFiles => YcdErrorKind::InvalidInput,
            YcdError::IndexEmpty => YcdErrorKind::InvalidInput,
            YcdError::StartPositionZero => YcdErrorKind::InvalidInput,
            YcdError::LengthZero => YcdErrorKind::InvalidInput,
            YcdError::StartOutOfRange { .. } => YcdErrorKind::InvalidInput,
            YcdError::EndOutOfRange { .. } => YcdErrorKind::InvalidInput,
            YcdError::NotContiguous { .. } => YcdErrorKind::InvalidInput,
            YcdError::StartOutsideFile { .. } => YcdErrorKind::InvalidInput,
            YcdError::StartBelowOne => YcdErrorKind::InvalidInput,
            YcdError::NoMoreData => YcdErrorKind::UnexpectedEof,
            _ => YcdErrorKind::InvalidData,
        }
    }
}

} // verus!
