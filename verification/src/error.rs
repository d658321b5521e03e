//! The error type shared by every fallible operation of the library.

use vstd::prelude::*;

verus! {

/// Why a positioned read failed.
#[derive(Debug, Clone, PartialEq, Eq)]
pub enum IoError {
    /// Fewer bytes were available than the read asked for.
    UnexpectedEof,
    /// Any other failure reported by the backing store, with its message.
    Other(String),
}

/// Errors produced by the FITS reader and writer.
#[derive(Debug, Clone)]
pub enum FitsError {
    Io(IoError),
    MissingPrimaryHdu,
    HduIndexOutOfRange(usize),
    MissingEnd,
    InvalidBitpix(i64),
    NegativeNaxis { axis: usize, value: i64 },
    NaxisOverflow,
    DataSizeExceedsSource,
    NotAnImage { index: usize, kind: String },
    BufferLenMismatch { expected: usize, got: usize },
    RegionOutOfBounds(String, Vec<u64>),
    UnsupportedCompression(String),
    HeapOutOfBounds,
    Processing(String),
    Unknown,
}

} // verus!

verus! {

/// `r` failed with `UnsupportedCompression`.
pub open spec fn is_compression_err<T>(r: Result<T, FitsError>) -> bool {
    r matches Err(e) && e is UnsupportedCompression
}

/// `r` failed with `Processing`.
pub open spec fn is_processing_err<T>(r: Result<T, FitsError>) -> bool {
    r matches Err(e) && e is Processing
}

} // verus!
