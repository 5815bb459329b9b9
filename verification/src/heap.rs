//! The allocator: first fit over the block chain, with splitting, with
//! coalescing on release, and with a heap that grows and shrinks at its end.
//!
//! The allocator keeps the headers and the break; the memory itself and the
//! operating system stay with the caller. Where the heap has to grow or can
//! shrink, the allocator names the break to ask for, the caller asks, and
//! the allocator is told the answer.

use vstd::prelude::*;
use crate::block::{
    chain_end, coalesced, extended, first_fit, fits, has_block, index_of, lemma_absorbed,
    lemma_extended, lemma_extended_coalesced, lemma_marked, lemma_placed, lemma_released,
    lemma_split, lemma_trimmed, lemma_trimmed_coalesced, linked, linked_at, marked, no_fit, placed,
    released, released_at, trimmed, Block, BlockState, Chain, CopyPlan, Search, BLOCK_SIZE,
    MIN_PAYLOAD, NULL,
};
use crate::breaks::{spec_target, BrkState, UNKNOWN};
use crate::util::{align, spec_align};

verus! {

/// Why a request for memory fails.
#[derive(Clone, Copy, Debug, PartialEq, Eq, Structural)]
pub enum AllocError {
    /// The system did not move the break to where it was asked to, or the
    /// request is larger than any heap.
    OutOfMemory,
}

/// How a request for memory goes on.
#[derive(Clone, Copy, Debug, PartialEq, Eq, Structural)]
pub enum Step {
    /// The request is served: the data begins at this address.
    Ready(usize),
    /// The heap has to grow: ask the system for this break, and hand the
    /// answer to `malloc_grown`.
    Brk(usize),
}

/// The largest request that can be rounded and given a header.
pub open spec fn max_request() -> int {
    isize::MAX - 2 * BLOCK_SIZE - 8
}

/// The data size of the block that serves a request of `size` bytes.
pub open spec fn payload(size: usize) -> usize {
    spec_align(size as int) as usize
}

/// The bytes by which the heap grows for a request of `size` bytes.
pub open spec fn growth(size: usize) -> int {
    spec_align(BLOCK_SIZE + payload(size))
}

/// The heap shrinks: the system has set the break to `target`, as asked, and
/// that is where the last block begins, which is free.
pub open spec fn shrinks(v: Seq<Block>, target: usize, achieved: usize) -> bool {
    &&& v.len() > 0
    &&& v.last().data == target
    &&& v.last().free == BlockState::Free
    &&& achieved == target
}

/// The heap: the chain of its blocks and its end, the break.
pub struct Ralloc {
    chain: Chain,
    brk: BrkState,
}

impl View for Ralloc {
    type V = Seq<Block>;

    /// The headers of the blocks in address order.
    closed spec fn view(&self) -> Seq<Block> {
        self.chain@
    }
}

impl Ralloc {
    /// The break as the heap knows it.
    pub closed spec fn spec_break(&self) -> usize {
        self.brk.spec_current()
    }

    /// The headers are stored soundly.
    pub closed spec fn stored(&self) -> bool {
        self.chain.rep()
    }

    /// The address of the first header, null for an empty heap.
    pub closed spec fn spec_base(&self) -> usize {
        self.chain.spec_base()
    }

    /// The blocks cover the heap from its base to the break without a gap,
    /// each linked to its neighbours, and no two neighbours are both free.
    pub open spec fn wf(&self) -> bool {
        &&& self.stored()
        &&& linked(self@)
        &&& coalesced(self@)
        &&& self.spec_break() != UNKNOWN
        &&& self@.len() > 0 ==> chain_end(self@) == self.spec_break()
    }

    /// An empty heap that ends at `current_break`, the break that the
    /// system reports.
    pub fn new(current_break: usize) -> (heap: Ralloc)
        requires
            current_break != UNKNOWN,
        ensures
            heap.wf(),
            heap@.len() == 0,
            heap.spec_break() == current_break,
            heap.spec_base() == NULL,
    {
        let mut brk = BrkState::new();
        brk.current_brk(current_break);
        Ralloc { chain: Chain::new(), brk }
    }

    /// The break as the heap knows it.
    pub fn current_brk(&self) -> (a: usize)
        requires
            self.wf(),
        ensures
            a == self.spec_break(),
    {
        match self.brk.cached() {
            Some(a) => a,
            None => UNKNOWN,
        }
    }

    /// The address of the first header, null for an empty heap.
    pub fn base(&self) -> (a: usize)
        requires
            self.wf(),
        ensures
            a == self.spec_base(),
            a == if self@.len() == 0 {
                NULL
            } else {
                self@[0].data
            },
    {
        self.chain.base()
    }

    /// The header at `addr`, if a block begins there.
    pub fn block(&self, addr: usize) -> (b: Option<Block>)
        requires
            self.wf(),
        ensures
            b is Some <==> has_block(self@, addr),
            b matches Some(blk) ==> blk == self@[index_of(self@, addr)] && blk.data == addr,
    {
        self.chain.get(addr)
    }

    /// The last block of the chain, null for an empty heap.
    fn tail(&self) -> (a: usize)
        requires
            self.wf(),
        ensures
            a == if self@.len() == 0 {
                NULL
            } else {
                self@.last().data
            },
    {
        match Block::find_block(&self.chain, usize::MAX) {
            Search::End(a) => a,
            Search::Fit(a) => {
                proof {
                    let i = index_of(self@, a);
                    assert(linked_at(self@, i));
                }
                a
            },
        }
    }

    /// Serves a request for `size` bytes from the chain. The size is
    /// rounded up to the granularity; the first free block that holds it is
    /// taken, cut in two where it is large enough to leave a block behind,
    /// and is then in use. Where no block fits, nothing changes, and the
    /// answer is the break to ask the system for.
    pub fn malloc(&mut self, size: usize) -> (r: Result<Step, AllocError>)
        requires
            old(self).wf(),
            0 < size,
        ensures
            final(self).wf(),
            final(self).spec_break() == old(self).spec_break(),
            size > max_request() ==> {
                &&& r == Err::<Step, AllocError>(AllocError::OutOfMemory)
                &&& final(self)@ == old(self)@
            },
            size <= max_request() ==> {
                &&& forall|i: int| #[trigger]
                    first_fit(old(self)@, payload(size), i) ==> {
                        &&& r == Ok::<Step, AllocError>(
                            Step::Ready((old(self)@[i].data + BLOCK_SIZE) as usize),
                        )
                        &&& final(self)@ == placed(old(self)@, i, payload(size))
                    }
                &&& no_fit(old(self)@, payload(size)) ==> {
                    &&& final(self)@ == old(self)@
                    &&& r == match spec_target(old(self).spec_break(), growth(size) as isize) {
                        Some(t) => Ok::<Step, AllocError>(Step::Brk(t)),
                        None => Err::<Step, AllocError>(AllocError::OutOfMemory),
                    }
                }
            },
    {
        if size > isize::MAX as usize - 2 * BLOCK_SIZE - 8 {
            return Err(AllocError::OutOfMemory);
        }
        let aligned = align(size) as usize;
        let ghost v = self@;
        match Block::find_block(&self.chain, aligned) {
            Search::Fit(blk_ptr) => {
                let ghost i = index_of(v, blk_ptr);
                let blk = self.chain.get(blk_ptr);
                let blk_size = match blk {
                    Some(b) => b.size,
                    None => 0,
                };
                proof {
                    lemma_placed(v, i, aligned);
                    assert(linked_at(v, i));
                    assert forall|k: int| #[trigger] first_fit(v, aligned, k) implies k == i by {
                        if k < i {
                            assert(!fits(v[k], aligned));
                        } else if i < k {
                            assert(!fits(v[i], aligned));
                        }
                    }
                }
                if blk_size - aligned >= BLOCK_SIZE + MIN_PAYLOAD {
                    Block::split_block(&mut self.chain, blk_ptr, aligned);
                    proof {
                        lemma_split(v, i, aligned);
                        Chain::lemma_index_of(self.chain@, i);
                    }
                }
                self.chain.mark(blk_ptr, BlockState::InUse);
                Ok(Step::Ready(Block::data_of(blk_ptr)))
            },
            Search::End(_) => {
                proof {
                    assert forall|k: int| #[trigger] first_fit(v, aligned, k) implies false by {
                        assert(!fits(v[k], aligned));
                    }
                }
                let need = Block::need_size(aligned);
                match self.brk.target(need) {
                    Some(t) => Ok(Step::Brk(t)),
                    None => Err(AllocError::OutOfMemory),
                }
            },
        }
    }

    /// Goes on with a request for `size` bytes for which the heap had to
    /// grow: `achieved` is the break that the system reports. Where it is
    /// the break that was asked for, a block in use for the rounded size
    /// stands where the heap ended, and the data begins behind its header.
    /// Where it is not, the request fails and nothing changes.
    pub fn malloc_grown(&mut self, size: usize, achieved: usize) -> (r: Result<usize, AllocError>)
        requires
            old(self).wf(),
            0 < size,
        ensures
            final(self).wf(),
            size <= max_request() && spec_target(old(self).spec_break(), growth(size) as isize)
                == Some(achieved) ==> {
                &&& r == Ok::<usize, AllocError>((old(self).spec_break() + BLOCK_SIZE) as usize)
                &&& final(self)@ == extended(old(self)@, old(self).spec_break(), payload(size))
                &&& final(self).spec_break() == achieved
            },
            !(size <= max_request() && spec_target(old(self).spec_break(), growth(size) as isize)
                == Some(achieved)) ==> {
                &&& r == Err::<usize, AllocError>(AllocError::OutOfMemory)
                &&& final(self)@ == old(self)@
                &&& final(self).spec_break() == old(self).spec_break()
            },
    {
        if size > isize::MAX as usize - 2 * BLOCK_SIZE - 8 {
            return Err(AllocError::OutOfMemory);
        }
        let aligned = align(size) as usize;
        let need = Block::need_size(aligned);
        let ghost v = self@;
        let target = match self.brk.target(need) {
            Some(t) => t,
            None => {
                return Err(AllocError::OutOfMemory);
            },
        };
        if target != achieved {
            return Err(AllocError::OutOfMemory);
        }
        let last = self.tail();
        let at = match self.brk.moved(target, achieved) {
            Ok(old) => old,
            Err(_) => {
                return Err(AllocError::OutOfMemory);
            },
        };
        proof {
            lemma_extended(v, at, aligned);
            lemma_extended_coalesced(v, at, aligned);
        }
        let blk = Block::extend_heap(&mut self.chain, last, aligned, at);
        Ok(Block::data_of(blk))
    }

    /// Releases the block whose data begins at `ptr`: the block is free,
    /// and it joins the block before it and the block behind it where they
    /// are free. Where the block is then the last of the chain, the answer
    /// is its address: the break to ask the system for, so that the heap
    /// shrinks; the answer of the system goes to `free_shrunk`.
    pub fn free(&mut self, ptr: usize) -> (r: Option<usize>)
        requires
            old(self).wf(),
            ptr >= BLOCK_SIZE,
            has_block(old(self)@, (ptr - BLOCK_SIZE) as usize),
        ensures
            final(self).wf(),
            final(self).spec_break() == old(self).spec_break(),
            final(self)@ == released(old(self)@, index_of(old(self)@, (ptr - BLOCK_SIZE) as usize)),
            r == if released_at(old(self)@, index_of(old(self)@, (ptr - BLOCK_SIZE) as usize))
                == final(self)@.len() - 1 {
                Some(final(self)@.last().data)
            } else {
                None::<usize>
            },
    {
        let ghost v = self@;
        let mut blk = Block::get_block(ptr);
        let ghost i = index_of(v, blk);
        let ghost a = marked(v, i, BlockState::Free);
        let ghost j = released_at(v, i);
        proof {
            lemma_released(v, i);
            lemma_marked(v, i, BlockState::Free);
            assert(linked_at(v, i));
            Chain::lemma_index_of(a, i);
        }
        self.chain.mark(blk, BlockState::Free);
        let prev = match self.chain.get(blk) {
            Some(b) => b.prev,
            None => NULL,
        };
        if prev != NULL {
            proof {
                assert(linked_at(a, i));
                Chain::lemma_index_of(a, i - 1);
            }
            let before = match self.chain.get(prev) {
                Some(b) => b.free,
                None => BlockState::InUse,
            };
            if before == BlockState::Free {
                proof {
                    lemma_absorbed(a, i - 1);
                }
                blk = Block::absorb(&mut self.chain, prev);
            }
        }
        proof {
            lemma_absorbed(self.chain@, j);
            assert(self.chain@[j].data == v[j].data);
            Chain::lemma_index_of(self.chain@, j);
        }
        blk = Block::absorb(&mut self.chain, blk);
        proof {
            Chain::lemma_index_of(self.chain@, j);
            assert(linked_at(self.chain@, j));
        }
        let next = match self.chain.get(blk) {
            Some(b) => b.next,
            None => NULL,
        };
        if next == NULL {
            Some(blk)
        } else {
            None
        }
    }

    /// Goes on after a release for which the heap can shrink: the system
    /// was asked for the break `target` and reports `achieved`. Where the
    /// break is where it was asked to be, and that is the start of the last
    /// block, which is free, the block leaves the chain and the heap ends
    /// there. Otherwise nothing changes: the block stays, free, at the end.
    pub fn free_shrunk(&mut self, target: usize, achieved: usize)
        requires
            old(self).wf(),
        ensures
            final(self).wf(),
            shrinks(old(self)@, target, achieved) ==> {
                &&& final(self)@ == trimmed(old(self)@)
                &&& final(self).spec_break() == target
            },
            !shrinks(old(self)@, target, achieved) ==> {
                &&& final(self)@ == old(self)@
                &&& final(self).spec_break() == old(self).spec_break()
            },
    {
        let ghost v = self@;
        if target != achieved || target == NULL {
            proof {
                if v.len() > 0 {
                    assert(linked_at(v, v.len() - 1));
                }
            }
            return;
        }
        match self.chain.get(target) {
            Some(b) => {
                proof {
                    let i = index_of(v, target);
                    assert(linked_at(v, i));
                    if i < v.len() - 1 {
                        assert(linked_at(v, i + 1));
                    } else {
                        lemma_trimmed(v);
                        lemma_trimmed_coalesced(v);
                    }
                    if v.len() > 0 {
                        Chain::lemma_index_of(v, v.len() - 1);
                    }
                }
                if b.next == NULL && b.free == BlockState::Free {
                    self.chain.trim(target);
                    let _ = self.brk.moved(target, achieved);
                }
            },
            None => {
                proof {
                    if v.len() > 0 {
                        Chain::lemma_index_of(v, v.len() - 1);
                    }
                }
            },
        }
    }

    /// Moves an allocation into the block whose data begins at `new_ptr`,
    /// which has been obtained for `new_size` bytes: names the bytes to copy,
    /// as many as the smaller of the two sizes, from the old data to the
    /// new, and releases the old block as `free` does. The two regions do
    /// not overlap, since they lie in two blocks.
    pub fn realloc(&mut self, ptr: usize, old_size: usize, new_size: usize, new_ptr: usize) -> (r: (
        CopyPlan,
        Option<usize>,
    ))
        requires
            old(self).wf(),
            ptr >= BLOCK_SIZE,
            new_ptr >= BLOCK_SIZE,
            ptr != new_ptr,
            has_block(old(self)@, (ptr - BLOCK_SIZE) as usize),
            has_block(old(self)@, (new_ptr - BLOCK_SIZE) as usize),
            old_size <= old(self)@[index_of(old(self)@, (ptr - BLOCK_SIZE) as usize)].size,
            new_size <= old(self)@[index_of(old(self)@, (new_ptr - BLOCK_SIZE) as usize)].size,
        ensures
            final(self).wf(),
            final(self).spec_break() == old(self).spec_break(),
            r.0.from == ptr,
            r.0.to == new_ptr,
            r.0.count == if old_size <= new_size {
                old_size
            } else {
                new_size
            },
            ptr + r.0.count <= new_ptr || new_ptr + r.0.count <= ptr,
            final(self)@ == released(old(self)@, index_of(old(self)@, (ptr - BLOCK_SIZE) as usize)),
            r.1 == if released_at(old(self)@, index_of(old(self)@, (ptr - BLOCK_SIZE) as usize))
                == final(self)@.len() - 1 {
                Some(final(self)@.last().data)
            } else {
                None::<usize>
            },
    {
        let count = if old_size <= new_size {
            old_size
        } else {
            new_size
        };
        proof {
            let v = self@;
            let i = index_of(v, (ptr - BLOCK_SIZE) as usize);
            let k = index_of(v, (new_ptr - BLOCK_SIZE) as usize);
            assert(linked_at(v, i));
            assert(linked_at(v, k));
            if i < k {
                Chain::lemma_ascending(v, i, k);
            } else if k < i {
                Chain::lemma_ascending(v, k, i);
            }
        }
        let plan = Block::copy_block(Block::get_block(ptr), Block::get_block(new_ptr), count);
        let shrink = self.free(ptr);
        (plan, shrink)
    }
}

} // verus!
