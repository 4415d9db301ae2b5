use vstd::prelude::*;

verus! {

/// The errors that the storage layer reports.
#[derive(Debug, Clone, Copy, PartialEq, Eq, Structural)]
pub enum Error {
    /// The backing store or the enclave failed.
    Io,
    /// The object is unknown, or its key table is not where it should be.
    MissingKhf,
    /// A persisted blob did not decode.
    Serde,
    /// The identifier space is exhausted.
    Alloc,
    /// An identifier could not be released or reserved.
    Dealloc,
    /// A key table has no key for the requested block.
    Khf,
    /// Any other failure.
    Unknown,
}

} // verus!
