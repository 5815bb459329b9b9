//! The block chain: the headers of all blocks of the heap, in address
//! order, each linked to its neighbours.

use std::collections::HashMap;
use vstd::prelude::*;
use crate::util::align;

verus! {

broadcast use vstd::std_specs::hash::group_hash_axioms;

/// The null link: no block lives at this address.
pub const NULL: usize = 0;

/// The size of the header that stands before the data of every block.
pub const BLOCK_SIZE: usize = 40;

/// The least number of data bytes that a block has.
pub const MIN_PAYLOAD: usize = 4;

/// The state of a block's data.
#[derive(Clone, Copy, Debug, PartialEq, Eq, Structural)]
pub enum BlockState {
    /// The program is using this chunk of memory.
    InUse,
    /// The chunk of memory has been released.
    Free,
}

/// The header of a block. `size` counts the data bytes only; `data` is the
/// address of the header itself, and the data begins `BLOCK_SIZE` bytes after
/// it; `next` and `prev` are the addresses of the neighbours' headers, or
/// null.
#[derive(Clone, Copy, Debug)]
pub struct Block {
    pub size: usize,
    pub free: BlockState,
    pub data: usize,
    pub next: usize,
    pub prev: usize,
}

/// What a first-fit search ends with.
#[derive(Clone, Copy, Debug)]
pub enum Search {
    /// The first free block that is large enough.
    Fit(usize),
    /// No block fits; the last block of the chain, null where there is none.
    End(usize),
}

/// The bytes to move when the data of one block is copied to another.
#[derive(Clone, Copy, Debug)]
pub struct CopyPlan {
    pub from: usize,
    pub to: usize,
    pub count: usize,
}

/// The address just behind the data of the block.
pub open spec fn block_end(b: Block) -> int {
    b.data + BLOCK_SIZE + b.size
}

/// The address just behind the last block, zero for the empty chain.
pub open spec fn chain_end(v: Seq<Block>) -> int {
    if v.len() == 0 {
        0
    } else {
        block_end(v.last())
    }
}

/// The blocks lie one behind the other without a gap, and each is linked to
/// the one before and the one behind it.
pub open spec fn linked(v: Seq<Block>) -> bool {
    forall|i: int| 0 <= i < v.len() ==> #[trigger] linked_at(v, i)
}

/// Block `i` lies just before the block behind it and is linked to both of
/// its neighbours.
pub open spec fn linked_at(v: Seq<Block>, i: int) -> bool {
    &&& v[i].data != NULL
    &&& block_end(v[i]) <= usize::MAX
    &&& v[i].next == if i + 1 < v.len() {
        v[i + 1].data
    } else {
        NULL
    }
    &&& v[i].prev == if i > 0 {
        v[i - 1].data
    } else {
        NULL
    }
    &&& i + 1 < v.len() ==> block_end(v[i]) == v[i + 1].data
}

/// No two neighbours are both free.
pub open spec fn coalesced(v: Seq<Block>) -> bool {
    forall|i: int| 0 <= i < v.len() - 1 ==> !#[trigger] both_free(v, i)
}

/// Block `i` and the block behind it are free.
pub open spec fn both_free(v: Seq<Block>, i: int) -> bool {
    v[i].free == BlockState::Free && v[i + 1].free == BlockState::Free
}

/// The block is free and holds at least `size` bytes.
pub open spec fn fits(b: Block, size: usize) -> bool {
    b.free == BlockState::Free && b.size >= size
}

/// `i` is the place of the first block that fits `size`.
pub open spec fn first_fit(v: Seq<Block>, size: usize, i: int) -> bool {
    &&& 0 <= i < v.len()
    &&& fits(v[i], size)
    &&& forall|j: int| 0 <= j < i ==> !fits(#[trigger] v[j], size)
}

/// No block fits `size`.
pub open spec fn no_fit(v: Seq<Block>, size: usize) -> bool {
    forall|j: int| 0 <= j < v.len() ==> !fits(#[trigger] v[j], size)
}

/// The place of the block whose header is at `addr`.
pub open spec fn index_of(v: Seq<Block>, addr: usize) -> int {
    choose|i: int| 0 <= i < v.len() && v[i].data == addr
}

/// A block has its header at `addr`.
pub open spec fn has_block(v: Seq<Block>, addr: usize) -> bool {
    exists|i: int| 0 <= i < v.len() && v[i].data == addr
}

/// The chain with block `i` in the given state.
pub open spec fn marked(v: Seq<Block>, i: int, state: BlockState) -> Seq<Block> {
    v.update(i, Block { free: state, ..v[i] })
}

/// The chain after block `i` has been cut in two: the first part keeps
/// `size` bytes, the rest becomes a free block of its own behind it.
pub open spec fn split(v: Seq<Block>, i: int, size: usize) -> Seq<Block> {
    let b = v[i];
    let at = (b.data + BLOCK_SIZE + size) as usize;
    let rest = Block {
        size: (b.size - size - BLOCK_SIZE) as usize,
        free: BlockState::Free,
        data: at,
        next: b.next,
        prev: b.data,
    };
    let w = v.update(i, Block { size, next: at, ..b }).insert(i + 1, rest);
    if i + 2 < w.len() {
        w.update(i + 2, Block { prev: at, ..w[i + 2] })
    } else {
        w
    }
}

/// The chain after block `i` has taken in the block behind it, where that
/// one is free: header and data of the neighbour become data of block `i`.
pub open spec fn absorbed(v: Seq<Block>, i: int) -> Seq<Block> {
    if 0 <= i && i + 1 < v.len() && v[i + 1].free == BlockState::Free {
        let b = Block {
            size: (v[i].size + BLOCK_SIZE + v[i + 1].size) as usize,
            next: v[i + 1].next,
            ..v[i]
        };
        let w = v.update(i, b).remove(i + 1);
        if i + 1 < w.len() {
            w.update(i + 1, Block { prev: b.data, ..w[i + 1] })
        } else {
            w
        }
    } else {
        v
    }
}

/// The chain with a new block of `size` data bytes in use at `at`, behind
/// the last block.
pub open spec fn extended(v: Seq<Block>, at: usize, size: usize) -> Seq<Block> {
    if v.len() > 0 {
        v.update(v.len() - 1, Block { next: at, ..v.last() }).push(
            Block { size, free: BlockState::InUse, data: at, next: NULL, prev: v.last().data },
        )
    } else {
        seq![Block { size, free: BlockState::InUse, data: at, next: NULL, prev: NULL }]
    }
}

/// The chain without its last block.
pub open spec fn trimmed(v: Seq<Block>) -> Seq<Block> {
    let w = v.drop_last();
    if w.len() > 0 {
        w.update(w.len() - 1, Block { next: NULL, ..w.last() })
    } else {
        w
    }
}

/// The place that block `i` has after it has been released and has joined
/// its free neighbours.
pub open spec fn released_at(v: Seq<Block>, i: int) -> int {
    if i > 0 && v[i - 1].free == BlockState::Free {
        i - 1
    } else {
        i
    }
}

/// The chain after block `i` has been released: it is free, and it has
/// joined the block before it and the block behind it where they are free.
pub open spec fn released(v: Seq<Block>, i: int) -> Seq<Block> {
    let a = marked(v, i, BlockState::Free);
    let b = if i > 0 && v[i - 1].free == BlockState::Free {
        absorbed(a, i - 1)
    } else {
        a
    };
    absorbed(b, released_at(v, i))
}

/// The chain after the free block `i` has been handed out for `size`
/// bytes: where the block is large enough to leave a block of its own
/// behind, it is cut in two; then it is in use.
pub open spec fn placed(v: Seq<Block>, i: int, size: usize) -> Seq<Block> {
    if v[i].size >= size + BLOCK_SIZE + MIN_PAYLOAD {
        marked(split(v, i, size), i, BlockState::InUse)
    } else {
        marked(v, i, BlockState::InUse)
    }
}

/// The data bytes of a block that is made when the heap grows for a
/// request of `size` bytes.
pub open spec fn grown_size(size: usize) -> int {
    crate::util::spec_align(BLOCK_SIZE + size) - BLOCK_SIZE
}

/// A chain stays linked when a block changes its state.
pub proof fn lemma_marked(v: Seq<Block>, i: int, state: BlockState)
    requires
        linked(v),
        0 <= i < v.len(),
    ensures
        linked(marked(v, i, state)),
        marked(v, i, state).len() == v.len(),
        chain_end(marked(v, i, state)) == chain_end(v),
{
    let w = marked(v, i, state);
    assert forall|k: int| 0 <= k < w.len() implies #[trigger] linked_at(w, k) by {
        assert(linked_at(v, k));
    }
}

/// Cutting a block in two leaves the chain linked and as long as it was:
/// the two parts and the one new header take up what the block took up.
pub proof fn lemma_split(v: Seq<Block>, i: int, size: usize)
    requires
        linked(v),
        0 <= i < v.len(),
        v[i].size >= size + BLOCK_SIZE + MIN_PAYLOAD,
    ensures
        linked(split(v, i, size)),
        split(v, i, size).len() == v.len() + 1,
        chain_end(split(v, i, size)) == chain_end(v),
        split(v, i, size)[i].data == v[i].data,
        split(v, i, size)[i].free == v[i].free,
        split(v, i, size)[i].size == size,
        split(v, i, size)[i + 1].size == v[i].size - size - BLOCK_SIZE,
        split(v, i, size)[i + 1].free == BlockState::Free,
        split(v, i, size)[i + 1].data == v[i].data + BLOCK_SIZE + size,
        split(v, i, size)[i].size + BLOCK_SIZE + split(v, i, size)[i + 1].size == v[i].size,
{
    let w = split(v, i, size);
    assert(linked_at(v, i));
    assert forall|k: int| 0 <= k < w.len() implies #[trigger] linked_at(w, k) by {
        if k < i {
            assert(linked_at(v, k));
        } else if k > i + 1 {
            assert(linked_at(v, k - 1));
        }
    }
}

/// Joining a block with the free block behind it leaves the chain linked
/// and as long as it was.
pub proof fn lemma_absorbed(v: Seq<Block>, i: int)
    requires
        linked(v),
    ensures
        linked(absorbed(v, i)),
        chain_end(absorbed(v, i)) == chain_end(v),
        0 <= i < v.len() ==> absorbed(v, i)[i].data == v[i].data && absorbed(v, i)[i].free
            == v[i].free,
{
    let w = absorbed(v, i);
    if 0 <= i && i + 1 < v.len() && v[i + 1].free == BlockState::Free {
        assert(linked_at(v, i));
        assert(linked_at(v, i + 1));
        assert forall|k: int| 0 <= k < w.len() implies #[trigger] linked_at(w, k) by {
            if k < i {
                assert(linked_at(v, k));
            } else if k > i {
                assert(linked_at(v, k + 1));
            }
        }
    }
}

/// A new block just behind the last one leaves the chain linked.
pub proof fn lemma_extended(v: Seq<Block>, at: usize, size: usize)
    requires
        linked(v),
        at != NULL,
        at + BLOCK_SIZE + size <= usize::MAX,
        v.len() > 0 ==> at == chain_end(v),
    ensures
        linked(extended(v, at, size)),
        extended(v, at, size).len() == v.len() + 1,
        chain_end(extended(v, at, size)) == at + BLOCK_SIZE + size,
        extended(v, at, size).last().data == at,
{
    let w = extended(v, at, size);
    assert forall|k: int| 0 <= k < w.len() implies #[trigger] linked_at(w, k) by {
        if k < v.len() {
            assert(linked_at(v, k));
        }
    }
}

/// Without its last block the chain is linked, and ends where that block
/// began.
pub proof fn lemma_trimmed(v: Seq<Block>)
    requires
        linked(v),
        v.len() > 0,
    ensures
        linked(trimmed(v)),
        trimmed(v).len() == v.len() - 1,
        v.len() > 1 ==> chain_end(trimmed(v)) == v.last().data,
{
    let w = trimmed(v);
    assert forall|k: int| 0 <= k < w.len() implies #[trigger] linked_at(w, k) by {
        assert(linked_at(v, k));
    }
    if v.len() > 1 {
        assert(linked_at(v, v.len() - 2));
    }
}

/// Handing out a free block leaves the chain linked and without free
/// neighbours.
pub proof fn lemma_placed(v: Seq<Block>, i: int, size: usize)
    requires
        linked(v),
        coalesced(v),
        0 <= i < v.len(),
        fits(v[i], size),
    ensures
        linked(placed(v, i, size)),
        coalesced(placed(v, i, size)),
        chain_end(placed(v, i, size)) == chain_end(v),
        placed(v, i, size)[i].data == v[i].data,
        placed(v, i, size)[i].free == BlockState::InUse,
        placed(v, i, size)[i].size >= size,
{
    let w = placed(v, i, size);
    if v[i].size >= size + BLOCK_SIZE + MIN_PAYLOAD {
        let u = split(v, i, size);
        lemma_split(v, i, size);
        lemma_marked(u, i, BlockState::InUse);
        assert forall|k: int| 0 <= k < w.len() - 1 implies !#[trigger] both_free(w, k) by {
            if k < i {
                assert(!both_free(v, k));
            } else if k == i + 1 {
                assert(!both_free(v, i));
            } else if k > i + 1 {
                assert(!both_free(v, k - 1));
            }
        }
    } else {
        lemma_marked(v, i, BlockState::InUse);
        assert forall|k: int| 0 <= k < w.len() - 1 implies !#[trigger] both_free(w, k) by {
            assert(!both_free(v, k));
        }
    }
}

/// Releasing a block leaves the chain linked and without free neighbours:
/// the block joins every free neighbour that it has.
pub proof fn lemma_released(v: Seq<Block>, i: int)
    requires
        linked(v),
        coalesced(v),
        0 <= i < v.len(),
    ensures
        linked(released(v, i)),
        coalesced(released(v, i)),
        chain_end(released(v, i)) == chain_end(v),
        0 <= released_at(v, i) < released(v, i).len(),
        released(v, i)[released_at(v, i)].free == BlockState::Free,
        released(v, i)[released_at(v, i)].data == v[released_at(v, i)].data,
{
    let a = marked(v, i, BlockState::Free);
    lemma_marked(v, i, BlockState::Free);
    let b = if i > 0 && v[i - 1].free == BlockState::Free {
        absorbed(a, i - 1)
    } else {
        a
    };
    lemma_absorbed(a, i - 1);
    let j = released_at(v, i);
    let w = released(v, i);
    lemma_absorbed(b, j);
    if i > 0 {
        assert(!both_free(v, i - 1));
    }
    if i + 1 < v.len() {
        assert(!both_free(v, i));
    }
    assert forall|k: int| 0 <= k < w.len() - 1 implies !#[trigger] both_free(w, k) by {
        if 0 <= k < v.len() - 1 {
            assert(!both_free(v, k));
        }
        if 0 <= k + 1 < v.len() - 1 {
            assert(!both_free(v, k + 1));
        }
        if 0 <= k + 2 < v.len() - 1 {
            assert(!both_free(v, k + 2));
        }
        if 0 <= k - 1 < v.len() - 1 {
            assert(!both_free(v, k - 1));
        }
    }
}

/// A new block in use behind the last one brings no free neighbours.
pub proof fn lemma_extended_coalesced(v: Seq<Block>, at: usize, size: usize)
    requires
        coalesced(v),
    ensures
        coalesced(extended(v, at, size)),
{
    let w = extended(v, at, size);
    assert forall|k: int| 0 <= k < w.len() - 1 implies !#[trigger] both_free(w, k) by {
        if k < v.len() - 1 {
            assert(!both_free(v, k));
        }
    }
}

/// Taking the last block away brings no free neighbours.
pub proof fn lemma_trimmed_coalesced(v: Seq<Block>)
    requires
        coalesced(v),
        v.len() > 0,
    ensures
        coalesced(trimmed(v)),
{
    let w = trimmed(v);
    assert forall|k: int| 0 <= k < w.len() - 1 implies !#[trigger] both_free(w, k) by {
        assert(!both_free(v, k));
    }
}

/// Either some block is the first that fits, or none fits.
pub proof fn lemma_fit_or_not(v: Seq<Block>, size: usize)
    ensures
        no_fit(v, size) || exists|i: int| first_fit(v, size, i),
    decreases v.len(),
{
    if v.len() > 0 {
        let u = v.drop_last();
        lemma_fit_or_not(u, size);
        if no_fit(u, size) {
            if fits(v.last(), size) {
                assert forall|j: int| 0 <= j < v.len() - 1 implies !fits(#[trigger] v[j], size) by {
                    assert(u[j] == v[j]);
                }
                assert(first_fit(v, size, v.len() - 1));
            } else {
                assert forall|j: int| 0 <= j < v.len() implies !fits(#[trigger] v[j], size) by {
                    if j < v.len() - 1 {
                        assert(u[j] == v[j]);
                    }
                }
            }
        } else {
            let i = choose|i: int| first_fit(u, size, i);
            assert(u[i] == v[i]);
            assert forall|j: int| 0 <= j < i implies !fits(#[trigger] v[j], size) by {
                assert(u[j] == v[j]);
            }
            assert(first_fit(v, size, i));
        }
    }
}

/// The round trip of one block at the end of the heap. Where the last block
/// is in use, or the heap is empty, a block that is added at the end and
/// released at once is the last block again and free, it begins where the
/// heap ended before, and without it the chain is what it was. So giving
/// the break back to the start of that block restores the heap.
pub proof fn lemma_round_trip(v: Seq<Block>, at: usize, size: usize)
    requires
        linked(v),
        coalesced(v),
        v.len() > 0 ==> v.last().free == BlockState::InUse && at == chain_end(v),
        at != NULL,
        at + BLOCK_SIZE + size <= usize::MAX,
    ensures
        ({
            let grown = extended(v, at, size);
            let back = released(grown, grown.len() - 1);
            &&& released_at(grown, grown.len() - 1) == back.len() - 1
            &&& back.last().free == BlockState::Free
            &&& back.last().data == at
            &&& trimmed(back) =~= v
        }),
{
    let grown = extended(v, at, size);
    let n = v.len() as int;
    lemma_extended(v, at, size);
    if n > 0 {
        assert(linked_at(v, n - 1));
    }
    let back = released(grown, n);
    assert(back =~= marked(grown, n, BlockState::Free));
    assert(trimmed(back) =~= v);
}

/// The headers of the heap's blocks, kept by address.
pub struct Chain {
    /// The headers, each under its own address.
    blocks: HashMap<usize, Block>,
    /// The address of the first header, null for an empty heap.
    base: usize,
    /// The addresses of the headers in ascending order.
    order: Ghost<Seq<usize>>,
}

impl View for Chain {
    type V = Seq<Block>;

    /// The headers in address order.
    closed spec fn view(&self) -> Seq<Block> {
        Seq::new(self.order@.len(), |i: int| self.blocks@[self.order@[i]])
    }
}

impl Chain {
    /// The store holds exactly the headers of the chain, each under its own
    /// address, and the first of them is the base.
    pub closed spec fn rep(&self) -> bool {
        &&& forall|a: usize| self.blocks@.contains_key(a) <==> self.order@.contains(a)
        &&& forall|i: int|
            0 <= i < self.order@.len() ==> (#[trigger] self.blocks@[self.order@[i]]).data
                == self.order@[i]
        &&& self.base == if self.order@.len() == 0 {
            NULL
        } else {
            self.order@[0]
        }
        &&& self.order@.no_duplicates()
    }

    /// The chain is stored soundly and its blocks are linked without gaps.
    pub open spec fn wf(&self) -> bool {
        &&& self.rep()
        &&& linked(self@)
    }

    /// The address of the first header, null for an empty heap.
    pub closed spec fn spec_base(&self) -> usize {
        self.base
    }

    /// In a linked chain the addresses ascend, so each address is the
    /// address of one block only.
    pub proof fn lemma_ascending(v: Seq<Block>, i: int, j: int)
        requires
            linked(v),
            0 <= i < j < v.len(),
        ensures
            block_end(v[i]) <= v[j].data,
            v[i].data < v[j].data,
        decreases j - i,
    {
        assert(linked_at(v, i));
        assert(linked_at(v, j));
        if i + 1 < j {
            Self::lemma_ascending(v, i + 1, j);
            assert(linked_at(v, i + 1));
        }
    }

    /// In a linked chain a block is found again by its address.
    pub proof fn lemma_index_of(v: Seq<Block>, i: int)
        requires
            linked(v),
            0 <= i < v.len(),
        ensures
            index_of(v, v[i].data) == i,
            has_block(v, v[i].data),
    {
        let k = index_of(v, v[i].data);
        if k < i {
            Self::lemma_ascending(v, k, i);
        } else if i < k {
            Self::lemma_ascending(v, i, k);
        }
    }

    /// An empty chain.
    pub fn new() -> (chain: Chain)
        ensures
            chain.wf(),
            chain@.len() == 0,
            chain.spec_base() == NULL,
    {
        let chain = Chain { blocks: HashMap::new(), base: NULL, order: Ghost(Seq::empty()) };
        assert(chain@ =~= Seq::empty());
        chain
    }

    /// The address of the first header, null for an empty heap.
    pub fn base(&self) -> (a: usize)
        requires
            self.wf(),
        ensures
            a == self.spec_base(),
            a == if self@.len() == 0 {
                NULL
            } else {
                self@[0].data
            },
    {
        proof {
            if self@.len() > 0 {
                assert(self@[0] == self.blocks@[self.order@[0]]);
            }
        }
        self.base
    }

    /// The header at `addr`, if a block begins there.
    pub fn get(&self, addr: usize) -> (b: Option<Block>)
        requires
            self.wf(),
        ensures
            b is Some <==> has_block(self@, addr),
            b matches Some(blk) ==> blk == self@[index_of(self@, addr)] && blk.data == addr,
    {
        proof {
            self.lemma_lookup(addr);
        }
        match self.blocks.get(&addr) {
            Some(b) => Some(*b),
            None => None,
        }
    }

    proof fn lemma_lookup(&self, addr: usize)
        requires
            self.wf(),
        ensures
            self.blocks@.contains_key(addr) <==> has_block(self@, addr),
            self.blocks@.contains_key(addr) ==> self.blocks@[addr] == self@[index_of(self@, addr)]
                && self.blocks@[addr].data == addr && 0 <= index_of(self@, addr) < self@.len()
                && self.order@[index_of(self@, addr)] == addr,
    {
        if self.blocks@.contains_key(addr) {
            assert(self.order@.contains(addr));
            let i = choose|i: int| 0 <= i < self.order@.len() && self.order@[i] == addr;
            assert(self@[i] == self.blocks@[self.order@[i]]);
            Self::lemma_index_of(self@, i);
        }
        if has_block(self@, addr) {
            let i = index_of(self@, addr);
            assert(self@[i] == self.blocks@[self.order@[i]]);
            assert(self.order@[i] == addr);
            assert(self.order@.contains(addr));
        }
    }

    /// Puts another header in the place of the header of block `i`.
    pub(crate) fn put(&mut self, b: Block, Ghost(i): Ghost<int>)
        requires
            old(self).rep(),
            0 <= i < old(self)@.len(),
            old(self)@[i].data == b.data,
        ensures
            final(self).rep(),
            final(self)@ == old(self)@.update(i, b),
            final(self).spec_base() == old(self).spec_base(),
    {
        proof {
            assert(self@[i] == self.blocks@[self.order@[i]]);
            assert(self.order@[i] == b.data);
        }
        self.blocks.insert(b.data, b);
        proof {
            assert forall|a: usize| self.blocks@.contains_key(a) <==> self.order@.contains(a) by {
                if a == b.data {
                    assert(self.order@[i] == a);
                }
            }
            assert(self@ =~= old(self)@.update(i, b));
        }
    }

    /// Puts a new header into the chain, as block `k`.
    fn link_in(&mut self, b: Block, first: bool, Ghost(k): Ghost<int>)
        requires
            old(self).rep(),
            0 <= k <= old(self)@.len(),
            first == (k == 0),
            forall|j: int| 0 <= j < old(self)@.len() ==> old(self)@[j].data != b.data,
        ensures
            final(self).rep(),
            final(self)@ == old(self)@.insert(k, b),
            final(self).spec_base() == if first {
                b.data
            } else {
                old(self).spec_base()
            },
    {
        let ghost o0 = self.order@;
        proof {
            assert forall|j: int| 0 <= j < o0.len() implies o0[j] != b.data by {
                assert(self@[j] == self.blocks@[o0[j]]);
            }
        }
        self.blocks.insert(b.data, b);
        if first {
            self.base = b.data;
        }
        proof {
            self.order@ = o0.insert(k, b.data);
            let o1 = self.order@;
            assert forall|a: usize| self.blocks@.contains_key(a) <==> o1.contains(a) by {
                if a == b.data {
                    assert(o1[k] == a);
                } else if o0.contains(a) {
                    let j = choose|j: int| 0 <= j < o0.len() && o0[j] == a;
                    if j < k {
                        assert(o1[j] == a);
                    } else {
                        assert(o1[j + 1] == a);
                    }
                } else if o1.contains(a) {
                    let j = choose|j: int| 0 <= j < o1.len() && o1[j] == a;
                    if j < k {
                        assert(o0[j] == a);
                    } else {
                        assert(o0[j - 1] == a);
                    }
                }
            }
            assert forall|j: int| 0 <= j < o1.len() implies (#[trigger] self.blocks@[o1[j]]).data
                == o1[j] by {
                if j < k {
                    assert(o1[j] == o0[j]);
                } else if j > k {
                    assert(o1[j] == o0[j - 1]);
                }
            }
            assert(self@ =~= old(self)@.insert(k, b));
        }
    }

    /// Takes the header of block `k` out of the chain.
    fn unlink(&mut self, addr: usize, only: bool, Ghost(k): Ghost<int>)
        requires
            old(self).rep(),
            0 <= k < old(self)@.len(),
            old(self)@[k].data == addr,
            only == (old(self)@.len() == 1),
            k > 0 || only,
        ensures
            final(self).rep(),
            final(self)@ == old(self)@.remove(k),
            final(self).spec_base() == if only {
                NULL
            } else {
                old(self).spec_base()
            },
    {
        let ghost o0 = self.order@;
        proof {
            assert(self@[k] == self.blocks@[o0[k]]);
            assert(o0[k] == addr);
        }
        self.blocks.remove(&addr);
        if only {
            self.base = NULL;
        }
        proof {
            self.order@ = o0.remove(k);
            let o1 = self.order@;
            assert forall|a: usize| self.blocks@.contains_key(a) <==> o1.contains(a) by {
                if a == addr {
                    if o1.contains(a) {
                        let j = choose|j: int| 0 <= j < o1.len() && o1[j] == a;
                        if j < k {
                            assert(o0[j] == a);
                        } else {
                            assert(o0[j + 1] == a);
                        }
                    }
                } else if o0.contains(a) {
                    let j = choose|j: int| 0 <= j < o0.len() && o0[j] == a;
                    if j < k {
                        assert(o1[j] == a);
                    } else {
                        assert(o1[j - 1] == a);
                    }
                } else if o1.contains(a) {
                    let j = choose|j: int| 0 <= j < o1.len() && o1[j] == a;
                    if j < k {
                        assert(o0[j] == a);
                    } else {
                        assert(o0[j + 1] == a);
                    }
                }
            }
            assert forall|j: int| 0 <= j < o1.len() implies (#[trigger] self.blocks@[o1[j]]).data
                == o1[j] by {
                if j < k {
                    assert(o1[j] == o0[j]);
                } else {
                    assert(o1[j] == o0[j + 1]);
                }
            }
            assert(self@ =~= old(self)@.remove(k));
        }
    }
    /// The header of block `i`, which is at `addr`.
    fn fetch(&self, addr: usize, Ghost(i): Ghost<int>) -> (b: Block)
        requires
            self.rep(),
            0 <= i < self@.len(),
            self@[i].data == addr,
        ensures
            b == self@[i],
    {
        proof {
            assert(self@[i] == self.blocks@[self.order@[i]]);
            assert(self.order@[i] == addr);
            assert(self.order@.contains(addr));
        }
        match self.blocks.get(&addr) {
            Some(b) => *b,
            None => Block { size: 0, free: BlockState::InUse, data: addr, next: NULL, prev: NULL },
        }
    }

    /// Sets the state of the block at `addr`.
    pub fn mark(&mut self, addr: usize, state: BlockState)
        requires
            old(self).wf(),
            has_block(old(self)@, addr),
        ensures
            final(self).wf(),
            final(self)@ == marked(old(self)@, index_of(old(self)@, addr), state),
            final(self).spec_base() == old(self).spec_base(),
    {
        let ghost i = index_of(self@, addr);
        let b = self.fetch(addr, Ghost(i));
        proof {
            lemma_marked(self@, i, state);
        }
        self.put(Block { free: state, ..b }, Ghost(i));
    }

    /// Takes the last block, which is at `tail`, out of the chain.
    pub fn trim(&mut self, tail: usize)
        requires
            old(self).wf(),
            old(self)@.len() > 0,
            tail == old(self)@.last().data,
        ensures
            final(self).wf(),
            final(self)@ == trimmed(old(self)@),
    {
        let ghost v = self@;
        let ghost n = v.len() as int;
        let b = self.fetch(tail, Ghost(n - 1));
        proof {
            lemma_trimmed(v);
            assert(linked_at(v, n - 1));
            if n > 1 {
                assert(linked_at(v, n - 2));
            }
        }
        self.unlink(tail, b.prev == NULL, Ghost(n - 1));
        if b.prev != NULL {
            proof {
                assert(linked_at(v, n - 2));
            }
            let p = self.fetch(b.prev, Ghost(n - 2));
            self.put(Block { next: NULL, ..p }, Ghost(n - 2));
        }
        proof {
            assert(self@ =~= trimmed(v));
        }
    }
}

impl Block {
    /// The address of the header.
    pub fn as_raw(&self) -> (a: usize)
        ensures
            a == self.data,
    {
        self.data
    }

    /// Marks the block of the chain that this header is a copy of as free.
    pub fn mark_free(&self, chain: &mut Chain)
        requires
            old(chain).wf(),
            has_block(old(chain)@, self.data),
        ensures
            final(chain).wf(),
            final(chain)@ == marked(
                old(chain)@,
                index_of(old(chain)@, self.data),
                BlockState::Free,
            ),
    {
        chain.mark(self.data, BlockState::Free);
    }

    /// The header of a block in use at `ptr`, with `size` data bytes,
    /// behind the block at `prev` and with nothing behind it.
    pub fn from_raw(ptr: usize, size: usize, prev: usize) -> (b: Block)
        ensures
            b == (Block { size, free: BlockState::InUse, data: ptr, next: NULL, prev }),
    {
        Block { size, free: BlockState::InUse, data: ptr, next: NULL, prev }
    }

    /// The address of the header that stands before the data at `find_ptr`.
    pub fn get_block(find_ptr: usize) -> (a: usize)
        requires
            find_ptr >= BLOCK_SIZE,
        ensures
            a == find_ptr - BLOCK_SIZE,
    {
        find_ptr - BLOCK_SIZE
    }

    /// The address of the data of the block at `ptr`.
    pub fn data_of(ptr: usize) -> (a: usize)
        requires
            ptr + BLOCK_SIZE <= usize::MAX,
        ensures
            a == ptr + BLOCK_SIZE,
    {
        ptr + BLOCK_SIZE
    }

    /// The bytes by which the heap grows for a request of `size` bytes:
    /// header and data, rounded up to the granularity.
    pub fn need_size(size: usize) -> (n: isize)
        requires
            0 < size,
            BLOCK_SIZE + size <= isize::MAX - 3,
        ensures
            n == grown_size(size) + BLOCK_SIZE,
            n >= BLOCK_SIZE + size,
            grown_size(size) >= size,
            grown_size(size) % 4 == 0,
    {
        align(BLOCK_SIZE + size)
    }

    /// First fit: walks the chain from its base and returns the first free
    /// block that holds `size` bytes; where none does, the last block.
    pub fn find_block(chain: &Chain, size: usize) -> (r: Search)
        requires
            chain.wf(),
        ensures
            match r {
                Search::Fit(a) => has_block(chain@, a) && first_fit(
                    chain@,
                    size,
                    index_of(chain@, a),
                ),
                Search::End(a) => no_fit(chain@, size) && a == if chain@.len() == 0 {
                    NULL
                } else {
                    chain@.last().data
                },
            },
    {
        let mut b = chain.base;
        proof {
            if chain@.len() > 0 {
                assert(linked_at(chain@, 0));
                assert(chain@[0] == chain.blocks@[chain.order@[0]]);
            }
        }
        if b == NULL {
            return Search::End(NULL);
        }
        let ghost mut i: int = 0;
        loop
            invariant
                chain.wf(),
                0 <= i < chain@.len(),
                chain@[i].data == b,
                forall|j: int| 0 <= j < i ==> !fits(#[trigger] chain@[j], size),
            decreases chain@.len() - i,
        {
            let blk = chain.fetch(b, Ghost(i));
            proof {
                assert(linked_at(chain@, i));
                Chain::lemma_index_of(chain@, i);
            }
            if blk.free == BlockState::Free && blk.size >= size {
                return Search::Fit(b);
            }
            if blk.next == NULL {
                return Search::End(b);
            }
            b = blk.next;
            proof {
                i = i + 1;
            }
        }
    }

    /// Makes the heap longer by one block in use for `size` bytes, whose
    /// header is at `at`, where the heap ended; `last` is the block before
    /// it, null for an empty heap. Returns the address of the new header.
    pub fn extend_heap(chain: &mut Chain, last: usize, size: usize, at: usize) -> (r: usize)
        requires
            old(chain).wf(),
            0 < size,
            BLOCK_SIZE + size <= isize::MAX - 3,
            at != NULL,
            at + BLOCK_SIZE + grown_size(size) <= usize::MAX,
            old(chain)@.len() > 0 ==> at == chain_end(old(chain)@) && last == old(chain)@.last().data,
            old(chain)@.len() == 0 ==> last == NULL,
        ensures
            final(chain).wf(),
            final(chain)@ == extended(old(chain)@, at, grown_size(size) as usize),
            r == at,
    {
        let ghost v = chain@;
        let ghost n = v.len() as int;
        let need = Block::need_size(size);
        let payload = need as usize - BLOCK_SIZE;
        let b = Block::from_raw(at, payload, last);
        proof {
            lemma_extended(v, at, payload);
            assert forall|j: int| 0 <= j < n implies v[j].data != at by {
                assert(linked_at(v, j));
                if j < n - 1 {
                    Chain::lemma_ascending(v, j, n - 1);
                }
                assert(linked_at(v, n - 1));
            }
        }
        if last != NULL {
            let l = chain.fetch(last, Ghost(n - 1));
            chain.put(Block { next: at, ..l }, Ghost(n - 1));
        }
        proof {
            if n > 0 {
                assert(linked_at(v, n - 1));
            }
        }
        chain.link_in(b, last == NULL, Ghost(n));
        proof {
            assert(chain@ =~= extended(v, at, payload));
        }
        at
    }

    /// Merges the block behind the block at `ptr` into it, where that
    /// block is free: its header and its data become data of the block at
    /// `ptr`, and the block after it gets the block at `ptr` as the one
    /// before it. Returns `ptr`.
    pub fn absorb(chain: &mut Chain, ptr: usize) -> (r: usize)
        requires
            old(chain).wf(),
            ptr == NULL || has_block(old(chain)@, ptr),
        ensures
            final(chain).wf(),
            r == ptr,
            ptr == NULL ==> final(chain)@ == old(chain)@,
            ptr != NULL ==> final(chain)@ == absorbed(old(chain)@, index_of(old(chain)@, ptr)),
            final(chain).spec_base() == old(chain).spec_base(),
    {
        if ptr != NULL {
            let ghost v = chain@;
            let ghost i = index_of(v, ptr);
            let blk = chain.fetch(ptr, Ghost(i));
            proof {
                assert(linked_at(v, i));
                lemma_absorbed(v, i);
            }
            if blk.next != NULL {
                let nx = chain.fetch(blk.next, Ghost(i + 1));
                proof {
                    assert(linked_at(v, i + 1));
                }
                if nx.free == BlockState::Free {
                    chain.put(
                        Block { size: blk.size + BLOCK_SIZE + nx.size, next: nx.next, ..blk },
                        Ghost(i),
                    );
                    chain.unlink(blk.next, false, Ghost(i + 1));
                    if nx.next != NULL {
                        proof {
                            assert(linked_at(v, i + 2));
                        }
                        let nn = chain.fetch(nx.next, Ghost(i + 1));
                        chain.put(Block { prev: ptr, ..nn }, Ghost(i + 1));
                    }
                    proof {
                        assert(chain@ =~= absorbed(v, i));
                    }
                }
            }
        }
        ptr
    }

    /// Cuts the block at `ptr` in two: the block keeps `size` data bytes,
    /// and what is left becomes a free block of its own just behind it,
    /// linked into the chain between the block and the one that followed
    /// it.
    pub fn split_block(chain: &mut Chain, ptr: usize, size: usize)
        requires
            old(chain).wf(),
            has_block(old(chain)@, ptr),
            old(chain)@[index_of(old(chain)@, ptr)].size >= size + BLOCK_SIZE + MIN_PAYLOAD,
        ensures
            final(chain).wf(),
            final(chain)@ == split(old(chain)@, index_of(old(chain)@, ptr), size),
            final(chain).spec_base() == old(chain).spec_base(),
    {
        let ghost v = chain@;
        let ghost i = index_of(v, ptr);
        let ghost n = v.len() as int;
        let blk = chain.fetch(ptr, Ghost(i));
        proof {
            assert(linked_at(v, i));
            lemma_split(v, i, size);
        }
        let at = ptr + BLOCK_SIZE + size;
        let mut new = Block::from_raw(at, blk.size - size - BLOCK_SIZE, ptr);
        new.next = blk.next;
        new.free = BlockState::Free;
        proof {
            assert forall|j: int| 0 <= j < n implies v[j].data != at by {
                if j < i {
                    Chain::lemma_ascending(v, j, i);
                } else if j > i {
                    Chain::lemma_ascending(v, i, j);
                }
            }
        }
        chain.put(Block { size, next: at, ..blk }, Ghost(i));
        chain.link_in(new, false, Ghost(i + 1));
        if blk.next != NULL {
            proof {
                assert(linked_at(v, i + 1));
            }
            let nx = chain.fetch(blk.next, Ghost(i + 2));
            chain.put(Block { prev: at, ..nx }, Ghost(i + 2));
        }
        proof {
            assert(chain@ =~= split(v, i, size));
            assert(chain.spec_base() == old(chain).spec_base());
        }
    }

    /// The bytes to move when `count` data bytes of the block at `src` are
    /// copied into the block at `dst`.
    pub fn copy_block(src: usize, dst: usize, count: usize) -> (plan: CopyPlan)
        requires
            src + BLOCK_SIZE <= usize::MAX,
            dst + BLOCK_SIZE <= usize::MAX,
        ensures
            plan.from == src + BLOCK_SIZE,
            plan.to == dst + BLOCK_SIZE,
            plan.count == count,
    {
        CopyPlan { from: src + BLOCK_SIZE, to: dst + BLOCK_SIZE, count }
    }
}

} // verus!
