//! The book keeper: the same heap as the block chain keeps, in two arrays.
//!
//! Used blocks stand in ascending order of their addresses. Free blocks
//! stand in descending order, so that the lowest is on top of the stack
//! that a search takes its blocks from. No two blocks of the ledger share a
//! byte. The arrays are bounded: a full array is a failure of its own kind,
//! apart from the system being out of memory.

use vstd::prelude::*;
use crate::ledger::block::{adjacent, first_half, merged, region_end, second_half, Block};
use crate::ledger::raw_slice::{
    found, gathered, lemma_found_runs, no_run_holds, put_back, splits, RawSlice,
};
use crate::ledger::BLOCK_ALIGN;
use crate::mmap::PAGE_SIZE;
use crate::util::{align, spec_align};

verus! {

/// Why the ledger cannot serve a request.
#[derive(Clone, Copy, Debug, PartialEq, Eq, Structural)]
pub enum LedgerError {
    /// The request is larger than any heap.
    OutOfMemory,
    /// An array of the ledger is full.
    CapacityExceeded,
}

/// How a request for memory goes on.
#[derive(Clone, Copy, Debug, PartialEq, Eq, Structural)]
pub enum Grant {
    /// The request is served: the region begins at this address.
    Ready(usize),
    /// No free block serves the request: the heap has to be extended by
    /// this many bytes, and the new region handed to `extend_heap`.
    Extend(usize),
}

/// The two regions share no byte.
pub open spec fn apart(a: Block, b: Block) -> bool {
    region_end(a) <= b.data || region_end(b) <= a.data
}

/// Each block lies wholly before the blocks behind it in the array.
pub open spec fn rising(v: Seq<Block>) -> bool {
    forall|i: int, j: int|
        0 <= i < j < v.len() ==> region_end(#[trigger] v[i]) <= (#[trigger] v[j]).data
}

/// Each block lies wholly behind the blocks behind it in the array.
pub open spec fn falling(v: Seq<Block>) -> bool {
    forall|i: int, j: int|
        0 <= i < j < v.len() ==> region_end(#[trigger] v[j]) <= (#[trigger] v[i]).data
}

/// No block of `u` shares a byte with a block of `f`.
pub open spec fn disjoint(u: Seq<Block>, f: Seq<Block>) -> bool {
    forall|i: int, j: int|
        0 <= i < u.len() && 0 <= j < f.len() ==> apart(#[trigger] u[i], #[trigger] f[j])
}

/// Every block has at least one byte and ends at or before `top`.
pub open spec fn solid(v: Seq<Block>, top: usize) -> bool {
    forall|i: int| 0 <= i < v.len() ==> (#[trigger] v[i]).size > 0 && region_end(v[i]) <= top
}

/// `b` lies wholly before every block of `v`.
pub open spec fn below(b: Block, v: Seq<Block>) -> bool {
    forall|i: int| 0 <= i < v.len() ==> region_end(b) <= (#[trigger] v[i]).data
}

/// `b` shares no byte with a block of `u`.
pub open spec fn clear_of(b: Block, u: Seq<Block>) -> bool {
    forall|i: int| 0 <= i < u.len() ==> apart(#[trigger] u[i], b)
}

/// The place of a block at `addr` in an array in ascending order: the
/// number of blocks that begin before it.
pub open spec fn rank_up(v: Seq<Block>, addr: usize) -> int
    decreases v.len(),
{
    if v.len() == 0 {
        0
    } else if v.last().data < addr {
        v.len() as int
    } else {
        rank_up(v.drop_last(), addr)
    }
}

/// The place of a block at `addr` in an array in descending order: the
/// number of blocks that begin behind it.
pub open spec fn rank_down(v: Seq<Block>, addr: usize) -> int
    decreases v.len(),
{
    if v.len() == 0 {
        0
    } else if v.last().data > addr {
        v.len() as int
    } else {
        rank_down(v.drop_last(), addr)
    }
}

/// In an ascending array, the place of `addr` is where the blocks that
/// begin before it end.
pub proof fn lemma_rank_up(v: Seq<Block>, top: usize, addr: usize, p: int)
    requires
        rising(v),
        solid(v, top),
        0 <= p <= v.len(),
        forall|j: int| 0 <= j < p ==> (#[trigger] v[j]).data < addr,
        forall|j: int| p <= j < v.len() ==> (#[trigger] v[j]).data >= addr,
    ensures
        rank_up(v, addr) == p,
    decreases v.len(),
{
    if v.len() > 0 {
        let u = v.drop_last();
        if v.last().data < addr {
            if p < v.len() {
                assert(v[v.len() - 1].data >= addr);
            }
        } else {
            if p == v.len() {
                assert(v[p - 1].data < addr);
            }
            assert forall|i: int, j: int| 0 <= i < j < u.len() implies region_end(#[trigger] u[i])
                <= (#[trigger] u[j]).data by {
                assert(u[i] == v[i] && u[j] == v[j]);
            }
            assert forall|i: int| 0 <= i < u.len() implies (#[trigger] u[i]).size > 0 && region_end(
                u[i],
            ) <= top by {
                assert(u[i] == v[i]);
            }
            assert forall|j: int| 0 <= j < p implies (#[trigger] u[j]).data < addr by {
                assert(u[j] == v[j]);
            }
            assert forall|j: int| p <= j < u.len() implies (#[trigger] u[j]).data >= addr by {
                assert(u[j] == v[j]);
            }
            lemma_rank_up(u, top, addr, p);
        }
    }
}

/// In a descending array, the place of `addr` is where the blocks that
/// begin behind it end.
pub proof fn lemma_rank_down(v: Seq<Block>, top: usize, addr: usize, p: int)
    requires
        falling(v),
        solid(v, top),
        0 <= p <= v.len(),
        forall|j: int| 0 <= j < p ==> (#[trigger] v[j]).data > addr,
        forall|j: int| p <= j < v.len() ==> (#[trigger] v[j]).data <= addr,
    ensures
        rank_down(v, addr) == p,
    decreases v.len(),
{
    if v.len() > 0 {
        let u = v.drop_last();
        if v.last().data > addr {
            if p < v.len() {
                assert(v[v.len() - 1].data <= addr);
            }
        } else {
            if p == v.len() {
                assert(v[p - 1].data > addr);
            }
            assert forall|i: int, j: int| 0 <= i < j < u.len() implies region_end(#[trigger] u[j])
                <= (#[trigger] u[i]).data by {
                assert(u[i] == v[i] && u[j] == v[j]);
            }
            assert forall|i: int| 0 <= i < u.len() implies (#[trigger] u[i]).size > 0 && region_end(
                u[i],
            ) <= top by {
                assert(u[i] == v[i]);
            }
            assert forall|j: int| 0 <= j < p implies (#[trigger] u[j]).data > addr by {
                assert(u[j] == v[j]);
            }
            assert forall|j: int| p <= j < u.len() implies (#[trigger] u[j]).data <= addr by {
                assert(u[j] == v[j]);
            }
            lemma_rank_down(u, top, addr, p);
        }
    }
}

/// The place of the address `addr` in an array in ascending order, by
/// halving: the number of blocks that begin before it.
pub fn search_up(v: &RawSlice<Block>, addr: usize, Ghost(top): Ghost<usize>) -> (p: usize)
    requires
        rising(v@),
        solid(v@, top),
    ensures
        p == rank_up(v@, addr),
        p <= v@.len(),
        forall|j: int| 0 <= j < p ==> (#[trigger] v@[j]).data < addr,
        forall|j: int| p <= j < v@.len() ==> (#[trigger] v@[j]).data >= addr,
{
    let mut lo: usize = 0;
    let mut hi: usize = v.len();
    while lo < hi
        invariant
            rising(v@),
            solid(v@, top),
            lo <= hi <= v@.len(),
            forall|j: int| 0 <= j < lo ==> (#[trigger] v@[j]).data < addr,
            forall|j: int| hi <= j < v@.len() ==> (#[trigger] v@[j]).data >= addr,
        decreases hi - lo,
    {
        let mid = lo + (hi - lo) / 2;
        if v.get(mid).data < addr {
            proof {
                assert forall|j: int| 0 <= j < mid + 1 implies (#[trigger] v@[j]).data < addr by {
                    if j < mid {
                        assert(region_end(v@[j]) <= v@[mid as int].data);
                    }
                }
            }
            lo = mid + 1;
        } else {
            proof {
                assert forall|j: int| mid <= j < v@.len() implies (#[trigger] v@[j]).data
                    >= addr by {
                    if j > mid {
                        assert(region_end(v@[mid as int]) <= v@[j].data);
                    }
                }
            }
            hi = mid;
        }
    }
    proof {
        lemma_rank_up(v@, top, addr, lo as int);
    }
    lo
}

/// The place of the address `addr` in an array in descending order, by
/// halving: the number of blocks that begin behind it.
pub fn search_down(v: &RawSlice<Block>, addr: usize, Ghost(top): Ghost<usize>) -> (p: usize)
    requires
        falling(v@),
        solid(v@, top),
    ensures
        p == rank_down(v@, addr),
        p <= v@.len(),
        forall|j: int| 0 <= j < p ==> (#[trigger] v@[j]).data > addr,
        forall|j: int| p <= j < v@.len() ==> (#[trigger] v@[j]).data <= addr,
{
    let mut lo: usize = 0;
    let mut hi: usize = v.len();
    while lo < hi
        invariant
            falling(v@),
            solid(v@, top),
            lo <= hi <= v@.len(),
            forall|j: int| 0 <= j < lo ==> (#[trigger] v@[j]).data > addr,
            forall|j: int| hi <= j < v@.len() ==> (#[trigger] v@[j]).data <= addr,
        decreases hi - lo,
    {
        let mid = lo + (hi - lo) / 2;
        if v.get(mid).data > addr {
            proof {
                assert forall|j: int| 0 <= j < mid + 1 implies (#[trigger] v@[j]).data > addr by {
                    if j < mid {
                        assert(region_end(v@[mid as int]) <= v@[j].data);
                    }
                }
            }
            lo = mid + 1;
        } else {
            proof {
                assert forall|j: int| mid <= j < v@.len() implies (#[trigger] v@[j]).data
                    <= addr by {
                    if j > mid {
                        assert(region_end(v@[j]) <= v@[mid as int].data);
                    }
                }
            }
            hi = mid;
        }
    }
    proof {
        lemma_rank_down(v@, top, addr, lo as int);
    }
    lo
}

/// Every block of `a` lies wholly before every block of `v`.
pub open spec fn under(a: Seq<Block>, v: Seq<Block>) -> bool {
    forall|i: int, j: int|
        0 <= i < a.len() && 0 <= j < v.len() ==> region_end(#[trigger] a[i]) <= (#[trigger] v[j]).data
}

/// Every block of `a` lies wholly before `b`.
pub open spec fn before(a: Seq<Block>, b: Block) -> bool {
    forall|i: int| 0 <= i < a.len() ==> region_end(#[trigger] a[i]) <= b.data
}

/// Gathering blocks from a stack in descending order keeps the order of
/// what it leaves and of what it sets aside, finds only a block that lies
/// between the two, and touches no byte outside the blocks of the stack.
pub proof fn lemma_gathered(
    v: Seq<Block>,
    cand: Block,
    aside: Seq<Block>,
    size: usize,
    used: Seq<Block>,
    top: usize,
)
    requires
        falling(v),
        solid(v, top),
        below(cand, v),
        cand.size > 0,
        region_end(cand) <= top,
        disjoint(used, v),
        clear_of(cand, used),
        solid(used, top),
        rising(aside),
        solid(aside, top),
        before(aside, cand),
        disjoint(used, aside),
    ensures
        ({
            let (w, a, r) = gathered(v, cand, aside, size);
            &&& falling(w)
            &&& solid(w, top)
            &&& disjoint(used, w)
            &&& rising(a)
            &&& solid(a, top)
            &&& disjoint(used, a)
            &&& under(a, w)
            &&& r matches Some(c) ==> {
                &&& below(c, w)
                &&& before(a, c)
                &&& c.size > 0
                &&& region_end(c) <= top
                &&& clear_of(c, used)
            }
        }),
    decreases v.len(),
{
    let n = v.len() as int;
    if cand.size >= size {
        assert forall|i: int, j: int| 0 <= i < aside.len() && 0 <= j < v.len() implies region_end(
            #[trigger] aside[i],
        ) <= (#[trigger] v[j]).data by {
            assert(region_end(aside[i]) <= cand.data);
            assert(region_end(cand) <= v[j].data);
        }
    } else if v.len() == 0 {
        let a = aside.push(cand);
        assert forall|i: int, j: int| 0 <= i < j < a.len() implies region_end(#[trigger] a[i]) <= (
        #[trigger] a[j]).data by {
            if j < aside.len() {
                assert(a[i] == aside[i] && a[j] == aside[j]);
            } else {
                assert(a[i] == aside[i]);
            }
        }
        assert forall|i: int| 0 <= i < a.len() implies (#[trigger] a[i]).size > 0 && region_end(a[i])
            <= top by {
            if i < aside.len() {
                assert(a[i] == aside[i]);
            }
        }
        assert forall|i: int, j: int| 0 <= i < used.len() && 0 <= j < a.len() implies apart(
            #[trigger] used[i],
            #[trigger] a[j],
        ) by {
            if j < aside.len() {
                assert(a[j] == aside[j]);
            }
        }
    } else {
        let u = v.drop_last();
        let last = v[n - 1];
        assert(last.size > 0);
        assert(region_end(cand) <= last.data);
        assert forall|i: int, j: int| 0 <= i < j < u.len() implies region_end(#[trigger] u[j]) <= (
        #[trigger] u[i]).data by {
            assert(u[i] == v[i] && u[j] == v[j]);
        }
        assert forall|i: int| 0 <= i < u.len() implies (#[trigger] u[i]).size > 0 && region_end(u[i])
            <= top by {
            assert(u[i] == v[i]);
        }
        assert forall|i: int| 0 <= i < u.len() implies region_end(last) <= (#[trigger] u[i]).data by {
            assert(u[i] == v[i]);
            assert(region_end(v[n - 1]) <= v[i].data);
        }
        assert forall|i: int, j: int| 0 <= i < used.len() && 0 <= j < u.len() implies apart(
            #[trigger] used[i],
            #[trigger] u[j],
        ) by {
            assert(u[j] == v[j]);
        }
        assert forall|i: int| 0 <= i < used.len() implies apart(#[trigger] used[i], last) by {
            assert(apart(used[i], v[n - 1]));
        }
        if adjacent(cand, last) {
            let m = merged(cand, last);
            assert forall|i: int| 0 <= i < used.len() implies apart(#[trigger] used[i], m) by {
                assert(apart(used[i], cand));
                assert(apart(used[i], last));
                assert(used[i].size > 0);
            }
            lemma_gathered(u, m, aside, size, used, top);
        } else {
            let a = aside.push(cand);
            assert forall|i: int, j: int| 0 <= i < j < a.len() implies region_end(#[trigger] a[i])
                <= (#[trigger] a[j]).data by {
                if j < aside.len() {
                    assert(a[i] == aside[i] && a[j] == aside[j]);
                } else {
                    assert(a[i] == aside[i]);
                }
            }
            assert forall|i: int| 0 <= i < a.len() implies (#[trigger] a[i]).size > 0 && region_end(
                a[i],
            ) <= top by {
                if i < aside.len() {
                    assert(a[i] == aside[i]);
                }
            }
            assert forall|i: int| 0 <= i < a.len() implies region_end(#[trigger] a[i])
                <= last.data by {
                if i < aside.len() {
                    assert(a[i] == aside[i]);
                    assert(region_end(aside[i]) <= cand.data);
                }
            }
            assert forall|i: int, j: int| 0 <= i < used.len() && 0 <= j < a.len() implies apart(
                #[trigger] used[i],
                #[trigger] a[j],
            ) by {
                if j < aside.len() {
                    assert(a[j] == aside[j]);
                }
            }
            lemma_gathered(u, last, a, size, used, top);
        }
    }
}

/// Blocks that were set aside in ascending order below a stack in
/// descending order go back on it in order, and a block that lies between
/// the two shares no byte with the stack afterwards.
pub proof fn lemma_put_back(
    w: Seq<Block>,
    a: Seq<Block>,
    c: Block,
    used: Seq<Block>,
    top: usize,
)
    requires
        falling(w),
        solid(w, top),
        disjoint(used, w),
        rising(a),
        solid(a, top),
        disjoint(used, a),
        under(a, w),
        below(c, w),
        before(a, c),
    ensures
        falling(put_back(w, a)),
        solid(put_back(w, a), top),
        disjoint(used, put_back(w, a)),
        clear_of(c, put_back(w, a)),
{
    assert forall|i: int| 0 <= i < w.len() implies apart(#[trigger] w[i], c) by {
        assert(region_end(c) <= w[i].data);
    }
    assert forall|i: int| 0 <= i < a.len() implies apart(#[trigger] a[i], c) by {
        assert(region_end(a[i]) <= c.data);
    }
    lemma_put_back_clear(w, a, c);
    lemma_put_back_order(w, a, used, top);
}

/// Blocks that were set aside in ascending order below a stack in
/// descending order go back on it in order.
pub proof fn lemma_put_back_order(w: Seq<Block>, a: Seq<Block>, used: Seq<Block>, top: usize)
    requires
        falling(w),
        solid(w, top),
        disjoint(used, w),
        rising(a),
        solid(a, top),
        disjoint(used, a),
        under(a, w),
    ensures
        falling(put_back(w, a)),
        solid(put_back(w, a), top),
        disjoint(used, put_back(w, a)),
    decreases a.len(),
{
    if a.len() > 0 {
        let m = a.len() as int;
        let w2 = w.push(a.last());
        let a2 = a.drop_last();
        assert forall|i: int, j: int| 0 <= i < j < w2.len() implies region_end(#[trigger] w2[j]) <= (
        #[trigger] w2[i]).data by {
            if j < w.len() {
                assert(w2[i] == w[i] && w2[j] == w[j]);
            } else {
                assert(w2[i] == w[i]);
                assert(region_end(a[m - 1]) <= w[i].data);
            }
        }
        assert forall|i: int| 0 <= i < w2.len() implies (#[trigger] w2[i]).size > 0 && region_end(
            w2[i],
        ) <= top by {
            if i < w.len() {
                assert(w2[i] == w[i]);
            } else {
                assert(a[m - 1].size > 0);
            }
        }
        assert forall|i: int, j: int| 0 <= i < used.len() && 0 <= j < w2.len() implies apart(
            #[trigger] used[i],
            #[trigger] w2[j],
        ) by {
            if j < w.len() {
                assert(w2[j] == w[j]);
            } else {
                assert(apart(used[i], a[m - 1]));
            }
        }
        assert forall|i: int, j: int| 0 <= i < j < a2.len() implies region_end(#[trigger] a2[i]) <= (
        #[trigger] a2[j]).data by {
            assert(a2[i] == a[i] && a2[j] == a[j]);
        }
        assert forall|i: int| 0 <= i < a2.len() implies (#[trigger] a2[i]).size > 0 && region_end(
            a2[i],
        ) <= top by {
            assert(a2[i] == a[i]);
        }
        assert forall|i: int, j: int| 0 <= i < used.len() && 0 <= j < a2.len() implies apart(
            #[trigger] used[i],
            #[trigger] a2[j],
        ) by {
            assert(a2[j] == a[j]);
        }
        assert forall|i: int, j: int| 0 <= i < a2.len() && 0 <= j < w2.len() implies region_end(
            #[trigger] a2[i],
        ) <= (#[trigger] w2[j]).data by {
            assert(a2[i] == a[i]);
            if j < w.len() {
                assert(w2[j] == w[j]);
            } else {
                assert(region_end(a[i]) <= a[m - 1].data);
            }
        }
        lemma_put_back_order(w2, a2, used, top);
    }
}

/// A block that shares no byte with a stack nor with the blocks set aside
/// shares none with the stack after they have gone back on it.
pub proof fn lemma_put_back_clear(w: Seq<Block>, a: Seq<Block>, c: Block)
    requires
        clear_of(c, w),
        clear_of(c, a),
    ensures
        clear_of(c, put_back(w, a)),
    decreases a.len(),
{
    if a.len() > 0 {
        let w2 = w.push(a.last());
        let a2 = a.drop_last();
        assert forall|i: int| 0 <= i < w2.len() implies apart(#[trigger] w2[i], c) by {
            if i < w.len() {
                assert(w2[i] == w[i]);
            } else {
                assert(apart(a[a.len() - 1], c));
            }
        }
        assert forall|i: int| 0 <= i < a2.len() implies apart(#[trigger] a2[i], c) by {
            assert(a2[i] == a[i]);
        }
        lemma_put_back_clear(w2, a2, c);
    }
}

/// A search on a stack in descending order keeps the order, finds only a
/// block that is large enough, and touches no byte outside the blocks of
/// the stack: the block found shares no byte with what is left.
pub proof fn lemma_found(v: Seq<Block>, size: usize, used: Seq<Block>, top: usize)
    requires
        falling(v),
        solid(v, top),
        disjoint(used, v),
        solid(used, top),
        size > 0,
    ensures
        ({
            let (w, r) = found(v, size);
            &&& falling(w)
            &&& solid(w, top)
            &&& disjoint(used, w)
            &&& w.len() <= v.len()
            &&& r matches Some(c) ==> {
                &&& c.size >= size
                &&& region_end(c) <= top
                &&& clear_of(c, used)
                &&& clear_of(c, w)
            }
        }),
{
    assert forall|i: int| 0 <= i < v.len() implies region_end(#[trigger] v[i]) <= usize::MAX by {
        assert(v[i].size > 0);
    }
    lemma_found_runs(v, size);
    if v.len() > 0 {
        let u = v.drop_last();
        let n = v.len() as int;
        let cand = v.last();
        let none = Seq::<Block>::empty();
        assert(v[n - 1].size > 0);
        assert forall|i: int, j: int| 0 <= i < j < u.len() implies region_end(#[trigger] u[j]) <= (
        #[trigger] u[i]).data by {
            assert(u[i] == v[i] && u[j] == v[j]);
        }
        assert forall|i: int| 0 <= i < u.len() implies (#[trigger] u[i]).size > 0 && region_end(u[i])
            <= top by {
            assert(u[i] == v[i]);
        }
        assert forall|i: int| 0 <= i < u.len() implies region_end(cand) <= (#[trigger] u[i]).data by {
            assert(u[i] == v[i]);
            assert(region_end(v[n - 1]) <= v[i].data);
        }
        assert forall|i: int, j: int| 0 <= i < used.len() && 0 <= j < u.len() implies apart(
            #[trigger] used[i],
            #[trigger] u[j],
        ) by {
            assert(u[j] == v[j]);
        }
        assert forall|i: int| 0 <= i < used.len() implies apart(#[trigger] used[i], cand) by {
            assert(apart(used[i], v[n - 1]));
        }
        lemma_gathered(u, cand, none, size, used, top);
        let (w, a, r) = gathered(u, cand, none, size);
        if r is Some {
            let c = r->0;
            assert forall|i: int| 0 <= i < a.len() implies apart(#[trigger] a[i], c) by {
                assert(region_end(a[i]) <= c.data);
            }
            if splits(c, size) {
                let h = first_half(c);
                let b = second_half(c);
                let w2 = w.push(b);
                assert(c.size >= 2 && c.size / 2 >= 1 && c.size / 2 + c.size / 2 == c.size);
                assert forall|i: int, j: int| 0 <= i < j < w2.len() implies region_end(
                    #[trigger] w2[j],
                ) <= (#[trigger] w2[i]).data by {
                    if j < w.len() {
                        assert(w2[i] == w[i] && w2[j] == w[j]);
                    } else {
                        assert(w2[i] == w[i]);
                        assert(region_end(c) <= w[i].data);
                    }
                }
                assert forall|i: int, j: int|
                    0 <= i < used.len() && 0 <= j < w2.len() implies apart(
                    #[trigger] used[i],
                    #[trigger] w2[j],
                ) by {
                    if j < w.len() {
                        assert(w2[j] == w[j]);
                    } else {
                        assert(apart(used[i], c));
                    }
                }
                assert forall|i: int| 0 <= i < used.len() implies apart(#[trigger] used[i], h) by {
                    assert(apart(used[i], c));
                }
                assert forall|i: int| 0 <= i < w2.len() implies region_end(h) <= (
                #[trigger] w2[i]).data by {
                    if i < w.len() {
                        assert(w2[i] == w[i]);
                        assert(region_end(c) <= w[i].data);
                    }
                }
                assert forall|i: int| 0 <= i < w2.len() implies (#[trigger] w2[i]).size > 0
                    && region_end(w2[i]) <= top by {
                    if i < w.len() {
                        assert(w2[i] == w[i]);
                    }
                }
                assert forall|i: int, j: int| 0 <= i < a.len() && 0 <= j < w2.len() implies region_end(
                    #[trigger] a[i],
                ) <= (#[trigger] w2[j]).data by {
                    if j < w.len() {
                        assert(w2[j] == w[j]);
                    } else {
                        assert(region_end(a[i]) <= c.data);
                    }
                }
                assert forall|i: int| 0 <= i < a.len() implies region_end(#[trigger] a[i])
                    <= h.data by {
                    assert(region_end(a[i]) <= c.data);
                }
                lemma_put_back(w2, a, h, used, top);
            } else {
                lemma_put_back(w, a, c, used, top);
            }
        } else {
            lemma_put_back_order(w, a, used, top);
        }
    }
}

/// Free and used blocks, each kind in an array of its own.
pub struct BookKeeper {
    free: RawSlice<Block>,
    used: RawSlice<Block>,
    /// The end of the heap: no block of the ledger reaches beyond it.
    top: usize,
}

impl BookKeeper {
    /// The free blocks, the lowest last.
    pub closed spec fn free_blocks(&self) -> Seq<Block> {
        self.free@
    }

    /// The used blocks, the lowest first.
    pub closed spec fn used_blocks(&self) -> Seq<Block> {
        self.used@
    }

    /// The end of the heap.
    pub closed spec fn spec_top(&self) -> usize {
        self.top
    }

    /// How many blocks each array can hold.
    pub closed spec fn spec_capacity(&self) -> usize {
        self.used.spec_capacity()
    }

    /// The arrays have no memory yet.
    pub closed spec fn spec_is_null(&self) -> bool {
        self.used.spec_is_null()
    }

    /// The arrays are bounded and of one kind.
    pub closed spec fn stored(&self) -> bool {
        &&& self.free.wf()
        &&& self.used.wf()
        &&& self.free.spec_capacity() == self.used.spec_capacity()
        &&& self.free.spec_is_null() == self.used.spec_is_null()
    }

    /// The ledger is sound: both arrays are in order, and no two blocks
    /// share a byte.
    pub open spec fn wf(&self) -> bool {
        &&& self.stored()
        &&& rising(self.used_blocks())
        &&& falling(self.free_blocks())
        &&& disjoint(self.used_blocks(), self.free_blocks())
        &&& solid(self.used_blocks(), self.spec_top())
        &&& solid(self.free_blocks(), self.spec_top())
        &&& self.used_blocks().len() <= self.spec_capacity()
        &&& self.free_blocks().len() <= self.spec_capacity()
    }

    /// A ledger without memory for its arrays.
    pub fn new() -> (bk: BookKeeper)
        ensures
            bk.wf(),
            bk.spec_is_null(),
            bk.free_blocks().len() == 0,
            bk.used_blocks().len() == 0,
            bk.spec_top() == 0,
    {
        BookKeeper { free: RawSlice::empty(), used: RawSlice::empty(), top: 0 }
    }

    /// Whether the arrays have no memory yet.
    pub fn is_null(&self) -> (r: bool)
        ensures
            r == self.spec_is_null(),
    {
        self.used.is_null()
    }

    /// Gives each array the memory of one page: room for as many blocks as
    /// entries go into a page.
    pub fn init(&mut self)
        requires
            old(self).wf(),
            old(self).spec_is_null(),
        ensures
            final(self).wf(),
            !final(self).spec_is_null(),
            final(self).spec_capacity() == PAGE_SIZE / BLOCK_ALIGN,
            final(self).free_blocks() == old(self).free_blocks(),
            final(self).used_blocks() == old(self).used_blocks(),
            final(self).spec_top() == old(self).spec_top(),
    {
        let _ = self.free.resize(PAGE_SIZE / BLOCK_ALIGN);
        let _ = self.used.resize(PAGE_SIZE / BLOCK_ALIGN);
    }

    /// The used blocks, the lowest first.
    pub fn used(&self) -> (r: &RawSlice<Block>)
        ensures
            r@ == self.used_blocks(),
    {
        &self.used
    }

    /// The free blocks, the lowest last.
    pub fn free_list(&self) -> (r: &RawSlice<Block>)
        ensures
            r@ == self.free_blocks(),
    {
        &self.free
    }

    /// The end of the heap.
    pub fn top(&self) -> (a: usize)
        ensures
            a == self.spec_top(),
    {
        self.top
    }

    /// Enters the region of `size` bytes at `at`, by which the heap has
    /// been extended, as a used block. The region lies behind every block
    /// of the ledger. Fails, and changes nothing, where the array of used
    /// blocks has no place to spare.
    pub fn extend_heap(&mut self, size: usize, at: usize) -> (r: Result<usize, LedgerError>)
        requires
            old(self).wf(),
            size > 0,
            at >= old(self).spec_top(),
            at + size <= usize::MAX,
        ensures
            final(self).wf(),
            final(self).free_blocks() == old(self).free_blocks(),
            final(self).spec_capacity() == old(self).spec_capacity(),
            final(self).spec_is_null() == old(self).spec_is_null(),
            old(self).spec_capacity() > old(self).used_blocks().len() + 1 ==> {
                &&& r == Ok::<usize, LedgerError>(at)
                &&& final(self).used_blocks() == old(self).used_blocks().push(
                    Block { size, data: at, free: false },
                )
                &&& final(self).spec_top() == at + size
            },
            old(self).spec_capacity() <= old(self).used_blocks().len() + 1 ==> {
                &&& r == Err::<usize, LedgerError>(LedgerError::CapacityExceeded)
                &&& final(self).used_blocks() == old(self).used_blocks()
                &&& final(self).spec_top() == old(self).spec_top()
            },
    {
        if self.used.capacity() - self.used.len() <= 1 {
            return Err(LedgerError::CapacityExceeded);
        }
        let ghost u0 = self.used@;
        let ghost f0 = self.free@;
        let ghost top0 = self.top;
        let b = Block::new(at, size);
        let data = b.raw_data();
        let idx = search_up(&self.used, at, Ghost(top0));
        proof {
            if idx < u0.len() {
                assert(u0[idx as int].data >= at);
                assert(u0[idx as int].size > 0);
            }
            assert(u0.insert(idx as int, b) =~= u0.push(b));
        }
        self.used.insert(idx, b);
        self.top = at + size;
        proof {
            let u1 = self.used@;
            assert forall|i: int, j: int| 0 <= i < j < u1.len() implies region_end(#[trigger] u1[i])
                <= (#[trigger] u1[j]).data by {
                if j < u0.len() {
                    assert(u1[i] == u0[i] && u1[j] == u0[j]);
                } else {
                    assert(u1[i] == u0[i]);
                }
            }
            assert forall|i: int, j: int| 0 <= i < u1.len() && 0 <= j < f0.len() implies apart(
                #[trigger] u1[i],
                #[trigger] f0[j],
            ) by {
                if i < u0.len() {
                    assert(u1[i] == u0[i]);
                }
            }
            assert forall|i: int| 0 <= i < u1.len() implies (#[trigger] u1[i]).size > 0
                && region_end(u1[i]) <= self.top by {
                if i < u0.len() {
                    assert(u1[i] == u0[i]);
                }
            }
        }
        Ok(data)
    }

    /// Serves a request for `size` bytes from the free blocks. The size is
    /// rounded up to the granularity; the block that the search finds on the
    /// stack of free blocks becomes a used block, and the region begins at
    /// its address. Where the search finds nothing, the answer is the number
    /// of bytes by which to extend the heap. Fails, with nothing changed,
    /// where the array of used blocks has no place to spare or the size has
    /// no rounded value.
    pub fn allocate(&mut self, size: usize) -> (r: Result<Grant, LedgerError>)
        requires
            old(self).wf(),
            size > 0,
        ensures
            final(self).wf(),
            final(self).spec_capacity() == old(self).spec_capacity(),
            final(self).spec_is_null() == old(self).spec_is_null(),
            final(self).spec_top() == old(self).spec_top(),
            size > isize::MAX - 3 ==> {
                &&& r == Err::<Grant, LedgerError>(LedgerError::OutOfMemory)
                &&& final(self).free_blocks() == old(self).free_blocks()
                &&& final(self).used_blocks() == old(self).used_blocks()
            },
            size <= isize::MAX - 3 && old(self).spec_capacity() <= old(self).used_blocks().len()
                + 1 ==> {
                &&& r == Err::<Grant, LedgerError>(LedgerError::CapacityExceeded)
                &&& final(self).free_blocks() == old(self).free_blocks()
                &&& final(self).used_blocks() == old(self).used_blocks()
            },
            size <= isize::MAX - 3 && old(self).spec_capacity() > old(self).used_blocks().len() + 1
                ==> {
                let want = spec_align(size as int) as usize;
                let (left, hit) = found(old(self).free_blocks(), want);
                &&& final(self).free_blocks() == left
                &&& hit is None <==> no_run_holds(old(self).free_blocks(), want)
                &&& match hit {
                    Some(b) => {
                        &&& r == Ok::<Grant, LedgerError>(Grant::Ready(b.data))
                        &&& final(self).used_blocks() == old(self).used_blocks().insert(
                            rank_up(old(self).used_blocks(), b.data),
                            Block { free: false, ..b },
                        )
                    },
                    None => {
                        &&& r == Ok::<Grant, LedgerError>(Grant::Extend(want))
                        &&& final(self).used_blocks() == old(self).used_blocks()
                    },
                }
            },
    {
        if size > isize::MAX as usize - 3 {
            return Err(LedgerError::OutOfMemory);
        }
        if self.used.capacity() - self.used.len() <= 1 {
            return Err(LedgerError::CapacityExceeded);
        }
        let aligned_size = align(size) as usize;
        let ghost u0 = self.used@;
        let ghost f0 = self.free@;
        proof {
            lemma_found(f0, aligned_size, u0, self.top);
            assert forall|i: int| 0 <= i < f0.len() implies region_end(#[trigger] f0[i])
                <= usize::MAX by {
                assert(f0[i].size > 0);
            }
            lemma_found_runs(f0, aligned_size);
        }
        match self.free.find(aligned_size) {
            Some(blk) => {
                let entry = Block { size: blk.size, data: blk.data, free: false };
                let data = entry.raw_data();
                let idx = search_up(&self.used, data, Ghost(self.top));
                self.used.insert(idx, entry);
                proof {
                    let u1 = self.used@;
                    let f1 = self.free@;
                    let k = idx as int;
                    assert forall|i: int, j: int| 0 <= i < j < u1.len() implies region_end(
                        #[trigger] u1[i],
                    ) <= (#[trigger] u1[j]).data by {
                        let i0 = if i < k {
                            i
                        } else {
                            i - 1
                        };
                        let j0 = if j < k {
                            j
                        } else {
                            j - 1
                        };
                        if i != k && j != k {
                            assert(u1[i] == u0[i0] && u1[j] == u0[j0]);
                        } else if i == k {
                            assert(u1[j] == u0[j0]);
                            assert(apart(u0[j0], blk));
                            assert(u0[j0].data >= data);
                            assert(u0[j0].size > 0);
                        } else {
                            assert(u1[i] == u0[i0]);
                            assert(apart(u0[i0], blk));
                            assert(u0[i0].data < data);
                        }
                    }
                    assert forall|i: int, j: int|
                        0 <= i < u1.len() && 0 <= j < f1.len() implies apart(
                        #[trigger] u1[i],
                        #[trigger] f1[j],
                    ) by {
                        if i < k {
                            assert(u1[i] == u0[i]);
                        } else if i > k {
                            assert(u1[i] == u0[i - 1]);
                        } else {
                            assert(apart(f1[j], blk));
                        }
                    }
                    assert forall|i: int| 0 <= i < u1.len() implies (#[trigger] u1[i]).size > 0
                        && region_end(u1[i]) <= self.top by {
                        if i < k {
                            assert(u1[i] == u0[i]);
                        } else if i > k {
                            assert(u1[i] == u0[i - 1]);
                        }
                    }
                }
                Ok(Grant::Ready(data))
            },
            None => Ok(Grant::Extend(aligned_size)),
        }
    }

    /// Releases the used block at `ptr`: it leaves the used blocks and
    /// takes its place among the free ones. Returns whether a block was
    /// released; where no used block begins at `ptr`, nothing changes.
    /// Fails, with nothing changed, where the array of free blocks has no
    /// place to spare.
    pub fn free(&mut self, ptr: usize) -> (r: Result<bool, LedgerError>)
        requires
            old(self).wf(),
        ensures
            final(self).wf(),
            final(self).spec_capacity() == old(self).spec_capacity(),
            final(self).spec_is_null() == old(self).spec_is_null(),
            final(self).spec_top() == old(self).spec_top(),
            ({
                let u = old(self).used_blocks();
                let f = old(self).free_blocks();
                let k = rank_up(u, ptr);
                if k < u.len() && u[k].data == ptr {
                    if old(self).spec_capacity() > f.len() + 1 {
                        &&& r == Ok::<bool, LedgerError>(true)
                        &&& final(self).used_blocks() == u.remove(k)
                        &&& final(self).free_blocks() == f.insert(
                            rank_down(f, ptr),
                            Block { free: true, ..u[k] },
                        )
                    } else {
                        &&& r == Err::<bool, LedgerError>(LedgerError::CapacityExceeded)
                        &&& final(self).used_blocks() == u
                        &&& final(self).free_blocks() == f
                    }
                } else {
                    &&& r == Ok::<bool, LedgerError>(false)
                    &&& final(self).used_blocks() == u
                    &&& final(self).free_blocks() == f
                }
            }),
    {
        let ghost u0 = self.used@;
        let ghost f0 = self.free@;
        let idx = search_up(&self.used, ptr, Ghost(self.top));
        if idx >= self.used.len() || self.used.get(idx).data != ptr {
            return Ok(false);
        }
        if self.free.capacity() - self.free.len() <= 1 {
            return Err(LedgerError::CapacityExceeded);
        }
        let blk = self.used.remove(idx);
        let entry = Block { size: blk.size, data: blk.data, free: true };
        let at = search_down(&self.free, ptr, Ghost(self.top));
        self.free.insert(at, entry);
        proof {
            let u1 = self.used@;
            let f1 = self.free@;
            let k = idx as int;
            let p = at as int;
            assert(u0[k].size > 0);
            assert forall|i: int, j: int| 0 <= i < j < u1.len() implies region_end(#[trigger] u1[i])
                <= (#[trigger] u1[j]).data by {
                let i0 = if i < k {
                    i
                } else {
                    i + 1
                };
                let j0 = if j < k {
                    j
                } else {
                    j + 1
                };
                assert(u1[i] == u0[i0] && u1[j] == u0[j0]);
            }
            assert forall|i: int| 0 <= i < u1.len() implies (#[trigger] u1[i]).size > 0
                && region_end(u1[i]) <= self.top by {
                let i0 = if i < k {
                    i
                } else {
                    i + 1
                };
                assert(u1[i] == u0[i0]);
            }
            assert forall|i: int, j: int| 0 <= i < j < f1.len() implies region_end(#[trigger] f1[j])
                <= (#[trigger] f1[i]).data by {
                let i0 = if i < p {
                    i
                } else {
                    i - 1
                };
                let j0 = if j < p {
                    j
                } else {
                    j - 1
                };
                if i != p && j != p {
                    assert(f1[i] == f0[i0] && f1[j] == f0[j0]);
                } else if i == p {
                    assert(f1[j] == f0[j0]);
                    assert(apart(u0[k], f0[j0]));
                    assert(f0[j0].data <= ptr);
                    assert(f0[j0].size > 0);
                } else {
                    assert(f1[i] == f0[i0]);
                    assert(apart(u0[k], f0[i0]));
                    assert(f0[i0].data > ptr);
                }
            }
            assert forall|i: int| 0 <= i < f1.len() implies (#[trigger] f1[i]).size > 0
                && region_end(f1[i]) <= self.top by {
                if i < p {
                    assert(f1[i] == f0[i]);
                } else if i > p {
                    assert(f1[i] == f0[i - 1]);
                }
            }
            assert forall|i: int, j: int| 0 <= i < u1.len() && 0 <= j < f1.len() implies apart(
                #[trigger] u1[i],
                #[trigger] f1[j],
            ) by {
                let i0 = if i < k {
                    i
                } else {
                    i + 1
                };
                assert(u1[i] == u0[i0]);
                if j < p {
                    assert(f1[j] == f0[j]);
                } else if j > p {
                    assert(f1[j] == f0[j - 1]);
                } else {
                    if i0 < k {
                        assert(region_end(u0[i0]) <= u0[k].data);
                    } else {
                        assert(region_end(u0[k]) <= u0[i0].data);
                    }
                }
            }
        }
        Ok(true)
    }
}

} // verus!
