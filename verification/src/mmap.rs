//! Anonymous mappings: the other source of memory beside the program break.
//!
//! Mapping pages is the operating system's work. The caller asks it, with
//! the request that `MMap::request` gives, and hands back the address that
//! the system reports.

use vstd::prelude::*;

verus! {

/// The mapped memory can be read.
pub const PROT_READ: u8 = 1;

/// The mapped memory can be written to.
pub const PROT_WRITE: u8 = 2;

/// Changes stay with this process.
pub const MAP_PRIVATE: u8 = 0x02;

/// The mapping is not backed by a file.
pub const MAP_ANON: u8 = 0x20;

/// The size of a page.
pub const PAGE_SIZE: usize = 4096;

/// What the system reports in place of an address when it could not map.
pub const MAP_FAILED: usize = usize::MAX;

/// The last mapping that was made.
pub struct MMap {
    current: usize,
}

/// What to ask the system for.
#[derive(Clone, Copy, Debug)]
pub struct MapRequest {
    /// The number of bytes, a multiple of the page size.
    pub length: usize,
    /// The protection of the pages.
    pub prot: u8,
    /// How the pages are shared and backed.
    pub flags: u8,
}

/// The least multiple of the page size that is at least `n`.
pub open spec fn spec_page_round(n: int) -> int {
    ((n + PAGE_SIZE - 1) / PAGE_SIZE as int) * PAGE_SIZE
}

/// `n` rounded up to whole pages, where that is a size.
pub fn page_round(n: usize) -> (r: Option<usize>)
    ensures
        r == if spec_page_round(n as int) <= usize::MAX {
            Some(spec_page_round(n as int) as usize)
        } else {
            None::<usize>
        },
        r matches Some(m) ==> m >= n && m % PAGE_SIZE == 0 && m < n + PAGE_SIZE,
{
    let pages = n / PAGE_SIZE;
    let rest = n % PAGE_SIZE;
    if rest == 0 {
        Some(n)
    } else if pages < usize::MAX / PAGE_SIZE {
        Some((pages + 1) * PAGE_SIZE)
    } else {
        None
    }
}

impl MMap {
    /// The address of the last mapping, zero before the first.
    pub closed spec fn spec_current(&self) -> usize {
        self.current
    }

    /// No mapping has been made yet.
    pub fn new() -> (m: MMap)
        ensures
            m.spec_current() == 0,
    {
        MMap { current: 0 }
    }

    /// The request for a mapping of at least `size` bytes: whole pages,
    /// readable and writable, private to the process and backed by no file.
    /// Nothing where `size` is not positive or has no rounded value.
    pub fn request(size: isize) -> (r: Option<MapRequest>)
        ensures
            r is Some <==> size > 0 && spec_page_round(size as int) <= usize::MAX,
            r matches Some(q) ==> q.length == spec_page_round(size as int) && q.length >= size
                && q.length % PAGE_SIZE == 0 && q.prot == PROT_READ | PROT_WRITE && q.flags
                == MAP_PRIVATE | MAP_ANON,
    {
        if size <= 0 {
            return None;
        }
        match page_round(size as usize) {
            Some(length) => Some(
                MapRequest { length, prot: PROT_READ | PROT_WRITE, flags: MAP_PRIVATE | MAP_ANON },
            ),
            None => None,
        }
    }

    /// Records the outcome of a mapping request, to which the system
    /// answered with `mapped`: the address is kept and returned, unless it
    /// is the sign of failure, which changes nothing.
    pub fn mmap(&mut self, size: isize, mapped: usize) -> (r: Result<usize, ()>)
        ensures
            mapped != MAP_FAILED ==> r == Ok::<usize, ()>(mapped) && final(self).spec_current()
                == mapped,
            mapped == MAP_FAILED ==> r is Err && final(self).spec_current() == old(self).spec_current(),
    {
        if mapped != MAP_FAILED {
            self.current = mapped;
            Ok(mapped)
        } else {
            Err(())
        }
    }
}

/// Records the outcome of a mapping request in `state`; see `MMap::mmap`.
pub fn mmap(state: &mut MMap, size: isize, mapped: usize) -> (r: Result<usize, ()>)
    ensures
        mapped != MAP_FAILED ==> r == Ok::<usize, ()>(mapped) && final(state).spec_current()
            == mapped,
        mapped == MAP_FAILED ==> r is Err && final(state).spec_current() == old(state).spec_current(),
{
    state.mmap(size, mapped)
}

} // verus!
