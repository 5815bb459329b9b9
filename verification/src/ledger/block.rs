//! An entry of the ledger: one region of memory.

use vstd::prelude::*;
use crate::ledger::{EmptyResult, SPLIT_FACTOR};
use crate::pointer::NULL_ADDR;

verus! {

/// A region of `size` bytes that begins at the address `data`.
#[derive(Clone, Copy, Debug, PartialEq, Eq, Structural)]
pub struct Block {
    pub size: usize,
    pub data: usize,
    pub free: bool,
}

/// The address just behind the region.
pub open spec fn region_end(b: Block) -> int {
    b.data + b.size
}

/// `b` begins where `a` ends.
pub open spec fn adjacent(a: Block, b: Block) -> bool {
    region_end(a) == b.data
}

/// The region `a` grown by the size of `b`.
pub open spec fn merged(a: Block, b: Block) -> Block {
    Block { size: (a.size + b.size) as usize, ..a }
}

/// The first half of the region.
pub open spec fn first_half(b: Block) -> Block {
    Block { size: b.size / SPLIT_FACTOR, ..b }
}

/// The second half of the region, as a free block.
pub open spec fn second_half(b: Block) -> Block {
    Block { size: b.size / SPLIT_FACTOR, data: (b.data + b.size / SPLIT_FACTOR) as usize, free: true }
}

impl Default for Block {
    /// The block that stands for no region.
    fn default() -> (b: Block)
        ensures
            b == (Block { size: 0, data: NULL_ADDR, free: false }),
    {
        Block { size: 0, data: NULL_ADDR, free: false }
    }
}

impl Block {
    /// A block in use.
    pub fn new(data: usize, size: usize) -> (b: Block)
        ensures
            b == (Block { size, data, free: false }),
    {
        Block { size, data, free: false }
    }

    /// Whether the block stands for no region: its address is the null
    /// handle.
    pub fn is_null(&self) -> (r: bool)
        ensures
            r == (self.data == NULL_ADDR),
    {
        self.data == NULL_ADDR
    }

    /// The address of the region.
    pub fn raw_data(&self) -> (a: usize)
        ensures
            a == self.data,
    {
        self.data
    }

    /// Takes the bytes of `next` into this block. The caller clears them
    /// where `next` is not null.
    pub fn merge_right(&mut self, next: Block) -> (r: EmptyResult)
        requires
            old(self).size + next.size <= usize::MAX,
        ensures
            r == EmptyResult::Success,
            *final(self) == merged(*old(self), next),
    {
        self.size = self.size + next.size;
        EmptyResult::Success
    }

    /// Cuts the block into two halves: the block keeps the first, and the
    /// second is returned as a free block.
    pub fn split(&mut self, size: usize) -> (rest: Block)
        requires
            old(self).size % 2 == 0,
            old(self).size / SPLIT_FACTOR >= size,
            old(self).data + old(self).size <= usize::MAX,
        ensures
            *final(self) == first_half(*old(self)),
            rest == second_half(*old(self)),
            final(self).size + rest.size == old(self).size,
            adjacent(*final(self), rest),
            region_end(rest) == region_end(*old(self)),
    {
        let new_size = self.size / SPLIT_FACTOR;
        let mut new_blk = Block::new(self.data + new_size, new_size);
        new_blk.free = true;
        self.size = new_size;
        new_blk
    }
}

} // verus!
