//! The ledger: free and used blocks kept in two bounded arrays.

pub mod block;
pub mod bookkeeper;
pub mod chunk;
pub mod raw_slice;

pub use block::Block;
pub use bookkeeper::BookKeeper;
pub use chunk::{size_to_class, Chunk};
pub use raw_slice::RawSlice;

use vstd::prelude::*;

verus! {

/// A free block that is more than this many times as large as the request
/// is cut in two before it is handed out.
pub const SPLIT_FACTOR: usize = 2;

/// The size of a ledger entry, rounded up to the granularity.
pub const BLOCK_ALIGN: usize = 24;

/// Whether an operation without a result went through.
#[derive(Clone, Copy, Debug, PartialEq, Eq, Structural)]
pub enum EmptyResult {
    Success,
    Failure,
}

impl EmptyResult {
    pub fn is_err(&self) -> (r: bool)
        ensures
            r == (*self == EmptyResult::Failure),
    {
        match self {
            EmptyResult::Failure => true,
            EmptyResult::Success => false,
        }
    }

    pub fn is_ok(&self) -> (r: bool)
        ensures
            r == (*self == EmptyResult::Success),
    {
        match self {
            EmptyResult::Success => true,
            EmptyResult::Failure => false,
        }
    }

    /// Takes the success for granted: there is nothing to return, and a
    /// failure is not accepted.
    pub fn unwrap(self)
        requires
            self == EmptyResult::Success,
    {
    }
}

} // verus!
