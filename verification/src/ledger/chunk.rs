//! Size classes.

use vstd::prelude::*;
use crate::ledger::block::Block;
use crate::ledger::raw_slice::RawSlice;
use crate::mmap::PAGE_SIZE;
use crate::pointer::NULL_ADDR;

verus! {

pub const EIGHT_BYTES: usize = 8;

pub const SIXTEEN_BYTES: usize = 16;

pub const THIRTY_TWO_BYTES: usize = 32;

pub const SIXTY_FOUR_BYTES: usize = 64;

/// The class that has no size.
pub const NO_CLASS: usize = usize::MAX;

/// The size class of a request: the least of 8, 16, 32 and 64 that holds
/// it, and no class for an empty request or one above 64 bytes.
pub open spec fn spec_size_to_class(size: usize) -> usize {
    if size == 0 {
        NO_CLASS
    } else if size <= EIGHT_BYTES {
        8
    } else if size <= SIXTEEN_BYTES {
        16
    } else if size <= THIRTY_TWO_BYTES {
        32
    } else if size <= SIXTY_FOUR_BYTES {
        64
    } else {
        NO_CLASS
    }
}

pub fn size_to_class(size: usize) -> (class: usize)
    ensures
        class == spec_size_to_class(size),
        class != NO_CLASS ==> class >= size,
        class >= 8,
{
    if size == 0 {
        NO_CLASS
    } else if size <= EIGHT_BYTES {
        8
    } else if size <= SIXTEEN_BYTES {
        16
    } else if size <= THIRTY_TWO_BYTES {
        32
    } else if size <= SIXTY_FOUR_BYTES {
        64
    } else {
        NO_CLASS
    }
}

/// The blocks of one size class, in memory of their own.
pub struct Chunk {
    pub size_class: usize,
    pub blks: RawSlice<Block>,
    /// The address of the memory that holds the blocks.
    pub data: usize,
}

impl Chunk {
    /// An empty chunk for `size_class` in the memory at `data`, which is
    /// `page_multiple` pages long: it has room for as many blocks as the
    /// class of `size_class` goes into that memory.
    pub fn new(data: usize, size_class: usize, page_multiple: usize) -> (c: Chunk)
        requires
            PAGE_SIZE * page_multiple <= usize::MAX,
        ensures
            c.size_class == size_class,
            c.data == data,
            c.blks.wf(),
            c.blks@.len() == 0,
            c.blks.spec_capacity() == (PAGE_SIZE * page_multiple) / (spec_size_to_class(size_class) as int),
    {
        Chunk {
            size_class,
            blks: RawSlice::new(Vec::new(), (PAGE_SIZE * page_multiple) / size_to_class(size_class)),
            data,
        }
    }

    /// Whether the chunk has no memory: its address is the null handle.
    pub fn is_null(&self) -> (r: bool)
        ensures
            r == (self.data == NULL_ADDR),
    {
        self.data == NULL_ADDR
    }

    /// The address of the memory that holds the blocks.
    pub fn raw_data(&self) -> (a: usize)
        ensures
            a == self.data,
    {
        self.data
    }
}

} // verus!
