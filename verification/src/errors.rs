//! Error taxonomy of the pipeline.
//!
//! Every error here is fatal to the run: the sole recovery path is a restart
//! from the durable checkpoint. The one locally recovered condition — a
//! missing or undersized checkpoint file — is not an error at all (see
//! `checkpoint`).

use vstd::prelude::*;

verus! {

/// Classified failure reported by the embedding service boundary.
#[derive(Clone, Copy, PartialEq, Eq, Structural, Debug)]
pub enum EmbeddingError {
    /// The service itself rejected or failed the request.
    Service,
    /// The credential was refused.
    Credential,
    /// A transient transport failure.
    Transient,
}

/// Classified failure of a file or directory operation.
#[derive(Clone, Copy, PartialEq, Eq, Structural, Debug)]
pub enum IoError {
    Read,
    Write,
    Seek,
    Flush,
    Sync,
    Directory,
}

/// A malformed operation-log record. Fatal: no record is ever skipped
/// silently.
#[derive(Clone, Copy, PartialEq, Eq, Structural, Debug)]
pub struct ParseError;

/// A dispatched embedding unit failed to complete (for example, it was
/// cancelled by the runtime).
#[derive(Clone, Copy, PartialEq, Eq, Structural, Debug)]
pub struct ExecutionFault;

/// Any fatal failure of a vectorization run.
#[derive(Clone, Copy, PartialEq, Eq, Structural, Debug)]
pub enum VectorizationError {
    /// The embedding service boundary failed a chunk.
    EmbeddingError(EmbeddingError),
    /// A file or directory operation failed.
    Io(IoError),
    /// An operation-log record could not be parsed.
    Parse(ParseError),
    /// A dispatched unit failed to complete.
    Fault(ExecutionFault),
}

} // verus!
