//! What the tree asks of its keys.

use vstd::prelude::*;

verus! {

/// A key of the tree. Keys are ordered by their rank; two keys of one rank
/// count as equal.
pub trait Key: Copy {
    /// The place of the key in the order.
    spec fn rank(&self) -> int;

    /// Whether the key comes before `other`.
    fn less(&self, other: &Self) -> (b: bool)
        ensures
            b == (self.rank() < other.rank()),
    ;
}

impl Key for usize {
    open spec fn rank(&self) -> int {
        *self as int
    }

    fn less(&self, other: &usize) -> (b: bool) {
        *self < *other
    }
}

impl Key for u64 {
    open spec fn rank(&self) -> int {
        *self as int
    }

    fn less(&self, other: &u64) -> (b: bool) {
        *self < *other
    }
}

impl Key for u32 {
    open spec fn rank(&self) -> int {
        *self as int
    }

    fn less(&self, other: &u32) -> (b: bool) {
        *self < *other
    }
}

impl Key for u8 {
    open spec fn rank(&self) -> int {
        *self as int
    }

    fn less(&self, other: &u8) -> (b: bool) {
        *self < *other
    }
}

/// Blocks of the chain are ordered by their addresses.
impl Key for crate::block::Block {
    open spec fn rank(&self) -> int {
        self.data as int
    }

    fn less(&self, other: &crate::block::Block) -> (b: bool) {
        self.data < other.data
    }
}

/// Blocks of the ledger are ordered by their addresses.
impl Key for crate::ledger::block::Block {
    open spec fn rank(&self) -> int {
        self.data as int
    }

    fn less(&self, other: &crate::ledger::block::Block) -> (b: bool) {
        self.data < other.data
    }
}

} // verus!
