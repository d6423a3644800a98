//! The error type the store's operations report.
use vstd::prelude::*;

verus! {

/// What went wrong. I/O failures are reported by the embedding layer as
/// `IoError` with the host error rendered to text.
#[derive(Debug, Clone, PartialEq, Eq, Structural)]
pub enum EikvError {
    IoError,
    WalCorruption,
    SstCorruption,
    PathError,
    ManifestError,
    ChecksumMismatch,
    EncodeError,
    DecodeError,
}

pub type EikvResult<T> = Result<T, EikvError>;

} // verus!
