//! Addresses as checked handles.

use core::marker::PhantomData;
use vstd::prelude::*;
use crate::block::{has_block, index_of, marked, Block, BlockState, Chain, NULL};

verus! {

/// The address that marks the null handle. A handle never holds zero, so
/// the first address after it is free to stand for "no object".
pub const NULL_ADDR: usize = 1;

/// The address of an object of type `T`. It is never zero.
#[derive(Debug)]
pub struct Pointer<T> {
    inner: usize,
    /// The handle stands for an object of this type.
    _mk: PhantomData<T>,
}

impl<T> Clone for Pointer<T> {
    fn clone(&self) -> (r: Self)
        ensures
            r.addr() == self.addr(),
    {
        Pointer { inner: self.inner, _mk: PhantomData }
    }
}

impl<T> Pointer<T> {
    /// The address.
    pub closed spec fn addr(&self) -> usize {
        self.inner
    }

    /// The handle holds an address other than zero.
    pub open spec fn wf(&self) -> bool {
        self.addr() != 0
    }

    /// The handle for the address `ptr`, which is not zero.
    pub fn new(ptr: usize) -> (p: Self)
        requires
            ptr != 0,
        ensures
            p.addr() == ptr,
            p.wf(),
    {
        Pointer { inner: ptr, _mk: PhantomData }
    }

    /// The null handle.
    pub fn empty() -> (p: Self)
        ensures
            p.addr() == NULL_ADDR,
            p.wf(),
    {
        Pointer { inner: NULL_ADDR, _mk: PhantomData }
    }

    /// Whether this is the null handle.
    pub fn is_null(&self) -> (r: bool)
        ensures
            r == (self.addr() == NULL_ADDR),
    {
        self.inner == NULL_ADDR
    }

    /// The same address as the address of a `U`.
    pub fn cast<U>(&self) -> (p: Pointer<U>)
        ensures
            p.addr() == self.addr(),
    {
        Pointer { inner: self.inner, _mk: PhantomData }
    }

    /// The handle `offset` objects further on, or further back where
    /// `offset` is negative; `size` is the size of one object.
    pub fn offset(&self, offset: isize, size: usize) -> (p: Self)
        requires
            0 < self.addr() + offset * size <= usize::MAX,
        ensures
            p.addr() == self.addr() + offset * size,
            p.wf(),
    {
        proof {
            assert(offset >= 0 ==> offset * size >= 0) by (nonlinear_arith);
            assert(offset < 0 ==> offset * size <= 0) by (nonlinear_arith);
            assert(offset < 0 ==> (-offset) * size == -(offset * size)) by (nonlinear_arith);
        }
        if offset >= 0 {
            let steps = offset as usize;
            Pointer::new(self.inner + steps * size)
        } else {
            let steps: usize = if offset == isize::MIN {
                (isize::MAX as usize) + 1
            } else {
                (-offset) as usize
            };
            Pointer::new(self.inner - steps * size)
        }
    }

    /// The handle `offset` objects further on; `size` is the size of one
    /// object.
    pub fn add(&self, offset: usize, size: usize) -> (p: Self)
        requires
            0 < self.addr() + offset * size <= usize::MAX,
        ensures
            p.addr() == self.addr() + offset * size,
            p.wf(),
    {
        proof {
            assert(offset * size >= 0) by (nonlinear_arith);
        }
        Pointer::new(self.inner + offset * size)
    }

    /// The address.
    pub fn get(&self) -> (a: usize)
        ensures
            a == self.addr(),
    {
        self.inner
    }
}

/// The handle for a link of the chain: the null handle for the null link.
pub open spec fn link_handle(link: usize) -> usize {
    if link == NULL {
        NULL_ADDR
    } else {
        link
    }
}

/// The link for a handle: the null link for the null handle.
pub open spec fn handle_link(addr: usize) -> usize {
    if addr == NULL_ADDR {
        NULL
    } else {
        addr
    }
}

impl Pointer<Block> {
    /// The handle names a block of the chain.
    pub open spec fn names(&self, chain: &Chain) -> bool {
        has_block(chain@, self.addr())
    }

    /// The header that the handle names.
    pub open spec fn header(&self, chain: &Chain) -> Block {
        chain@[index_of(chain@, self.addr())]
    }

    fn fetch(&self, chain: &Chain) -> (b: Block)
        requires
            chain.wf(),
            self.names(chain),
        ensures
            b == self.header(chain),
    {
        match chain.get(self.inner) {
            Some(b) => b,
            None => Block::from_raw(self.inner, 0, NULL),
        }
    }

    fn to_link(p: &Pointer<Block>) -> (link: usize)
        ensures
            link == handle_link(p.addr()),
    {
        if p.is_null() {
            NULL
        } else {
            p.get()
        }
    }

    fn of_link(link: usize) -> (p: Pointer<Block>)
        ensures
            p.addr() == link_handle(link),
            p.wf(),
    {
        if link == NULL {
            Pointer::empty()
        } else {
            Pointer::new(link)
        }
    }

    /// The block behind this one, the null handle at the end of the chain.
    pub fn next(&self, chain: &Chain) -> (p: Pointer<Block>)
        requires
            chain.wf(),
            self.names(chain),
        ensures
            p.addr() == link_handle(self.header(chain).next),
    {
        Self::of_link(self.fetch(chain).next)
    }

    /// The block before this one, the null handle at the base of the
    /// chain.
    pub fn prev(&self, chain: &Chain) -> (p: Pointer<Block>)
        requires
            chain.wf(),
            self.names(chain),
        ensures
            p.addr() == link_handle(self.header(chain).prev),
    {
        Self::of_link(self.fetch(chain).prev)
    }

    /// Whether the block is free.
    pub fn is_free(&self, chain: &Chain) -> (r: bool)
        requires
            chain.wf(),
            self.names(chain),
        ensures
            r == (self.header(chain).free == BlockState::Free),
    {
        self.fetch(chain).free == BlockState::Free
    }

    /// The number of data bytes of the block.
    pub fn size(&self, chain: &Chain) -> (r: usize)
        requires
            chain.wf(),
            self.names(chain),
        ensures
            r == self.header(chain).size,
    {
        self.fetch(chain).size
    }

    /// Marks the block as free.
    pub fn mark_free(&self, chain: &mut Chain)
        requires
            old(chain).wf(),
            self.names(old(chain)),
        ensures
            final(chain).wf(),
            final(chain)@ == marked(
                old(chain)@,
                index_of(old(chain)@, self.addr()),
                BlockState::Free,
            ),
    {
        chain.mark(self.inner, BlockState::Free);
    }

    /// Writes `next` into the block as the link to the block behind it.
    /// This is link surgery: the chain stays stored, and whether it is still
    /// linked is for the caller to see to.
    pub fn set_next(&self, chain: &mut Chain, next: Pointer<Block>)
        requires
            old(chain).wf(),
            self.names(old(chain)),
        ensures
            final(chain).rep(),
            final(chain)@ == old(chain)@.update(
                index_of(old(chain)@, self.addr()),
                Block { next: handle_link(next.addr()), ..self.header(old(chain)) },
            ),
    {
        let b = self.fetch(chain);
        let link = Self::to_link(&next);
        chain.put(Block { next: link, ..b }, Ghost(index_of(chain@, self.inner)));
    }

    /// Writes `prev` into the block as the link to the block before it.
    /// This is link surgery: the chain stays stored, and whether it is still
    /// linked is for the caller to see to.
    pub fn set_prev(&self, chain: &mut Chain, prev: Pointer<Block>)
        requires
            old(chain).wf(),
            self.names(old(chain)),
        ensures
            final(chain).rep(),
            final(chain)@ == old(chain)@.update(
                index_of(old(chain)@, self.addr()),
                Block { prev: handle_link(prev.addr()), ..self.header(old(chain)) },
            ),
    {
        let b = self.fetch(chain);
        let link = Self::to_link(&prev);
        chain.put(Block { prev: link, ..b }, Ghost(index_of(chain@, self.inner)));
    }

    /// Writes `size` into the block as the number of its data bytes. The
    /// chain stays stored, and whether its blocks still lie one behind the
    /// other is for the caller to see to.
    pub fn set_size(&self, chain: &mut Chain, size: usize)
        requires
            old(chain).wf(),
            self.names(old(chain)),
        ensures
            final(chain).rep(),
            final(chain)@ == old(chain)@.update(
                index_of(old(chain)@, self.addr()),
                Block { size, ..self.header(old(chain)) },
            ),
    {
        let b = self.fetch(chain);
        chain.put(Block { size, ..b }, Ghost(index_of(chain@, self.inner)));
    }

    /// Adds `size` to the number of data bytes of the block. The chain
    /// stays stored, and whether its blocks still lie one behind the other is
    /// for the caller to see to.
    pub fn add_size(&self, chain: &mut Chain, size: usize)
        requires
            old(chain).wf(),
            self.names(old(chain)),
            self.header(old(chain)).size + size <= usize::MAX,
        ensures
            final(chain).rep(),
            final(chain)@ == old(chain)@.update(
                index_of(old(chain)@, self.addr()),
                Block {
                    size: (self.header(old(chain)).size + size) as usize,
                    ..self.header(old(chain))
                },
            ),
    {
        let b = self.fetch(chain);
        chain.put(Block { size: b.size + size, ..b }, Ghost(index_of(chain@, self.inner)));
    }

    /// Marks the block as in use.
    pub fn mark_used(&self, chain: &mut Chain)
        requires
            old(chain).wf(),
            self.names(old(chain)),
        ensures
            final(chain).wf(),
            final(chain)@ == marked(
                old(chain)@,
                index_of(old(chain)@, self.addr()),
                BlockState::InUse,
            ),
    {
        chain.mark(self.inner, BlockState::InUse);
    }
}

} // verus!
