//! The error taxonomy of the store.

use vstd::prelude::*;

verus! {

/// Everything that can go wrong in the engine or around it.
///
/// `Io` and `Serde` are reserved for the surrounding application, which
/// performs the actual file reads and writes; the verified core itself
/// never constructs them.
#[derive(Debug, Clone, Copy, PartialEq, Eq, Structural)]
pub enum Error {
    /// A host I/O failure while reading or writing the log file.
    Io,
    /// A serialization failure outside the verified core.
    Serde,
    /// The log's content violates an engine invariant: a record at a known
    /// offset does not decode, or decodes to an unexpected command.
    LogFileCorrupted,
    /// The requested key is absent from the index.
    KeyNotFound,
}

} // verus!
