//! Error model for the engine: every fallible public operation returns
//! `Result<_, NexusError>`.

use vstd::prelude::*;

verus! {

/// All errors the engine can produce.
#[derive(Debug)]
pub enum NexusError {
    /// An input/output failure, described by the message of the host system.
    Io(String),
    /// The input holds no bytes.
    EmptyFile,
    /// The platform refused to map the file.
    Mmap(String),
    /// A parser schema document could not be understood.
    InvalidSchema(String),
    /// A search query is malformed.
    InvalidQuery(String),
    /// An index lies outside a sequence of length `len`.
    OutOfBounds { index: usize, len: usize },
    /// No columns could be determined for the dataset.
    NoColumns,
}

} // verus!
