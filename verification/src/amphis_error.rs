use vstd::prelude::*;

verus! {

/// Failures reported to callers of the request layer.
#[derive(Debug, Clone, Copy, PartialEq, Eq, Structural)]
pub enum CrudError {
    ReadError,
    WriteError,
    TimedOut,
    Unknown,
}

/// Failures of the storage layer.
#[derive(Debug, Clone, Copy, PartialEq, Eq, Structural)]
pub enum StoreError {
    /// A slot, a header or a framed record failed its checksum.
    CrcMismatch,
    /// A read or a write addressed bytes outside the leaf file.
    OutOfRange,
    /// A key/value pair cannot fit into the data arena of one page.
    TooLarge,
    /// A page chain does not end within the pages of the leaf file.
    BrokenChain,
    /// The leaf file cannot grow any further.
    NoSpace,
}

impl CrudError {
    /// The message shown for this error.
    pub fn message(&self) -> (text: &'static str)
        ensures
            text@ == (match *self {
                CrudError::ReadError => "read error"@,
                CrudError::WriteError => "write error"@,
                CrudError::TimedOut => "timed out"@,
                CrudError::Unknown => "unknown data store error"@,
            }),
    {
        match self {
            CrudError::ReadError => "read error",
            CrudError::WriteError => "write error",
            CrudError::TimedOut => "timed out",
            CrudError::Unknown => "unknown data store error",
        }
    }
}

} // verus!
