//! Reading decimal digits stored in y-cruncher `.ycd` files.
//!
//! The verified core of the reader: header parsing, the decoding of the
//! 8-byte compressed payload blocks, the planning of random-access reads over
//! a contiguous list of files, the index over such a list, and the state
//! machines behind the sequential streams. File access itself stays with the
//! caller, which hands the library the bytes it reads.
#![allow(unused_imports)]

pub mod error;
pub mod header;
pub mod text;
pub mod files;
pub mod stream;
pub mod digits;
pub mod index;

pub use error::{YcdError, YcdErrorKind};
pub use digits::{compute_seek_params, validate_unit_size, decode_block, DIGITS_PER_BLOCK};
pub use header::{parse_metadata, YcdFileUtil, YcdHeader, YcdHeaderInfoElem, YcdMetadata};
pub use files::{check_read_request, collect_file_infos, FileInfo, ReadPlan, ReadSegment, YcdFileList};
pub use stream::{
    check_stream_from_request, check_stream_request, MultiStep, SeqStart, SeqStep, YcdMultiFileState, YcdProcessUnit,
    YcdSeqBlockState,
};
pub use index::{FileSnapshot, FileTime, IndexRead, YcdIndex, YcdIndexEntry};
