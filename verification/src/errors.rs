//! The error kinds of the store.

use vstd::prelude::*;

verus! {

/// Why a store operation failed.
///
/// `NotFound` and `Parse` arise when a collection is constructed from its
/// backing file; `Io` stands for a failed write of a produced file body,
/// reported by whoever performs the write.
#[derive(Clone, Copy, Debug, PartialEq, Eq, Structural)]
pub enum StoreError {
    /// The backing file was absent when the collection was constructed.
    NotFound,
    /// The backing file's content did not parse as a record container.
    Parse,
    /// Writing a produced file body failed.
    Io,
}

impl StoreError {
    /// A short human-readable description of the error.
    pub fn describe(&self) -> (r: &'static str)
        ensures
            r@ == self.spec_describe(),
    {
        match self {
            StoreError::NotFound => "backing file not found",
            StoreError::Parse => "backing file could not be parsed",
            StoreError::Io => "writing the backing file failed",
        }
    }

    /// What `describe` returns, by variant.
    pub open spec fn spec_describe(&self) -> Seq<char> {
        match self {
            StoreError::NotFound => "backing file not found"@,
            StoreError::Parse => "backing file could not be parsed"@,
            StoreError::Io => "writing the backing file failed"@,
        }
    }
}

} // verus!
