//! A growable array with a fixed capacity.

use vstd::prelude::*;
use crate::ledger::block::{adjacent, first_half, merged, region_end, second_half, Block};
use crate::ledger::{EmptyResult, SPLIT_FACTOR};

verus! {

/// A sequence of at most `capacity` items. The null slice has no memory
/// behind it: it is empty and has no capacity.
pub struct RawSlice<T> {
    items: Vec<T>,
    cap: usize,
    null: bool,
}

impl<T> View for RawSlice<T> {
    type V = Seq<T>;

    closed spec fn view(&self) -> Seq<T> {
        self.items@
    }
}

impl<T> RawSlice<T> {
    pub closed spec fn spec_capacity(&self) -> usize {
        self.cap
    }

    pub closed spec fn spec_is_null(&self) -> bool {
        self.null
    }

    /// The slice holds no more than its capacity, and nothing at all where
    /// it is null.
    pub open spec fn wf(&self) -> bool {
        &&& self@.len() <= self.spec_capacity()
        &&& self.spec_is_null() ==> self.spec_capacity() == 0
    }

    /// The null slice.
    pub fn empty() -> (s: Self)
        ensures
            s.wf(),
            s.spec_is_null(),
            s@.len() == 0,
            s.spec_capacity() == 0,
    {
        RawSlice { items: Vec::new(), cap: 0, null: true }
    }

    /// Whether this is the null slice.
    pub fn is_null(&self) -> (r: bool)
        ensures
            r == self.spec_is_null(),
    {
        self.null
    }

    /// A slice that holds `items` and may grow to `cap` items.
    pub fn new(items: Vec<T>, cap: usize) -> (s: Self)
        requires
            items@.len() <= cap,
        ensures
            s.wf(),
            !s.spec_is_null(),
            s@ == items@,
            s.spec_capacity() == cap,
    {
        RawSlice { items, cap, null: false }
    }

    pub fn is_empty(&self) -> (r: bool)
        ensures
            r == (self@.len() == 0),
    {
        self.items.len() == 0
    }

    pub fn len(&self) -> (n: usize)
        ensures
            n == self@.len(),
    {
        self.items.len()
    }

    pub fn capacity(&self) -> (n: usize)
        ensures
            n == self.spec_capacity(),
    {
        self.cap
    }

    /// Puts an item at the end; fails, and changes nothing, where the slice
    /// is full.
    pub fn push(&mut self, item: T) -> (r: EmptyResult)
        requires
            old(self).wf(),
        ensures
            final(self).wf(),
            final(self).spec_capacity() == old(self).spec_capacity(),
            final(self).spec_is_null() == old(self).spec_is_null(),
            old(self)@.len() == old(self).spec_capacity() ==> r == EmptyResult::Failure && final(self)@
                == old(self)@,
            old(self)@.len() < old(self).spec_capacity() ==> r == EmptyResult::Success && final(self)@
                == old(self)@.push(item),
    {
        if self.items.len() == self.cap {
            EmptyResult::Failure
        } else {
            self.items.push(item);
            EmptyResult::Success
        }
    }

    /// Takes the last item off, if there is one.
    pub fn pop(&mut self) -> (r: Option<T>)
        requires
            old(self).wf(),
        ensures
            final(self).wf(),
            final(self).spec_capacity() == old(self).spec_capacity(),
            final(self).spec_is_null() == old(self).spec_is_null(),
            old(self)@.len() == 0 ==> r is None && final(self)@ == old(self)@,
            old(self)@.len() > 0 ==> r == Some(old(self)@.last()) && final(self)@ == old(self)@.drop_last(),
    {
        if self.is_empty() {
            None
        } else {
            self.items.pop()
        }
    }

    /// Takes the item at `idx` out; the items behind it move up.
    pub fn remove(&mut self, idx: usize) -> (r: T)
        requires
            old(self).wf(),
            idx < old(self)@.len(),
        ensures
            final(self).wf(),
            final(self).spec_capacity() == old(self).spec_capacity(),
            final(self).spec_is_null() == old(self).spec_is_null(),
            r == old(self)@[idx as int],
            final(self)@ == old(self)@.remove(idx as int),
    {
        self.items.remove(idx)
    }

    /// Puts an item at `idx`; the items from there on move back. The slice
    /// keeps one place spare.
    pub fn insert(&mut self, idx: usize, item: T)
        requires
            old(self).wf(),
            idx <= old(self)@.len(),
            old(self).spec_capacity() > old(self)@.len() + 1,
        ensures
            final(self).wf(),
            final(self).spec_capacity() == old(self).spec_capacity(),
            final(self).spec_is_null() == old(self).spec_is_null(),
            final(self)@ == old(self)@.insert(idx as int, item),
    {
        self.items.insert(idx, item);
    }

    /// Moves the slice to memory for `new_cap` items; fails, and changes
    /// nothing, where that is less than the slice holds.
    pub fn resize(&mut self, new_cap: usize) -> (r: EmptyResult)
        requires
            old(self).wf(),
        ensures
            final(self).wf(),
            final(self)@ == old(self)@,
            old(self)@.len() <= new_cap ==> r == EmptyResult::Success && final(self).spec_capacity()
                == new_cap && !final(self).spec_is_null(),
            old(self)@.len() > new_cap ==> r == EmptyResult::Failure && final(self).spec_capacity()
                == old(self).spec_capacity() && final(self).spec_is_null() == old(self).spec_is_null(),
    {
        if self.items.len() <= new_cap {
            self.cap = new_cap;
            self.null = false;
            EmptyResult::Success
        } else {
            EmptyResult::Failure
        }
    }

    /// The items, of a slice that is not null.
    pub fn as_slice(&self) -> (r: &[T])
        requires
            !self.spec_is_null(),
        ensures
            r@ == self@,
    {
        self.items.as_slice()
    }

    /// The item at `idx`.
    pub fn get(&self, idx: usize) -> (r: &T)
        requires
            idx < self@.len(),
        ensures
            *r == self@[idx as int],
    {
        &self.items[idx]
    }

    /// Puts an item in the place of the item at `idx`.
    pub fn set(&mut self, idx: usize, item: T)
        requires
            old(self).wf(),
            idx < old(self)@.len(),
        ensures
            final(self).wf(),
            final(self).spec_capacity() == old(self).spec_capacity(),
            final(self).spec_is_null() == old(self).spec_is_null(),
            final(self)@ == old(self)@.update(idx as int, item),
    {
        self.items[idx] = item;
    }
}

/// Whether a block that serves a request of `size` bytes is cut in two
/// first: it is more than `SPLIT_FACTOR` times as large and can be halved.
pub open spec fn splits(b: Block, size: usize) -> bool {
    b.size > size * SPLIT_FACTOR && b.size % 2 == 0
}

/// The stack `v` with the blocks of `aside` back on it, the one that was
/// set aside last first.
pub open spec fn put_back(v: Seq<Block>, aside: Seq<Block>) -> Seq<Block>
    decreases aside.len(),
{
    if aside.len() == 0 {
        v
    } else {
        put_back(v.push(aside.last()), aside.drop_last())
    }
}

/// What the gathering of blocks leaves and finds, with `cand` in hand, `v`
/// still on the stack and `aside` set aside: the candidate where it is large
/// enough; else the candidate grown by the block on top of the stack, where
/// that block begins where the candidate ends; and where it does not, the
/// candidate is set aside and the block on top is the next candidate. Where
/// the stack is used up the last candidate is set aside too, and nothing is
/// found. The result is what is left of the stack, what has been set aside,
/// and the block found.
pub open spec fn gathered(v: Seq<Block>, cand: Block, aside: Seq<Block>, size: usize) -> (
    Seq<Block>,
    Seq<Block>,
    Option<Block>,
)
    decreases v.len(),
{
    if cand.size >= size {
        (v, aside, Some(cand))
    } else if v.len() == 0 {
        (v, aside.push(cand), None)
    } else if adjacent(cand, v.last()) {
        gathered(v.drop_last(), merged(cand, v.last()), aside, size)
    } else {
        gathered(v.drop_last(), v.last(), aside.push(cand), size)
    }
}

/// What a search for `size` bytes leaves on the stack `v` and finds: the
/// block that the gathering finds, or its first half where it is cut in two;
/// and on the stack what the gathering has left, the second half of a block
/// that was cut, and on top of these every block that was set aside.
pub open spec fn found(v: Seq<Block>, size: usize) -> (Seq<Block>, Option<Block>) {
    if v.len() == 0 {
        (v, None)
    } else {
        let (w, a, r) = gathered(v.drop_last(), v.last(), Seq::empty(), size);
        match r {
            None => (put_back(w, a), None),
            Some(c) => if splits(c, size) {
                (put_back(w.push(second_half(c)), a), Some(first_half(c)))
            } else {
                (put_back(w, a), Some(c))
            },
        }
    }
}

/// The runs of neighbours of a stack, from the top down, with `cand` in
/// hand: blocks that lie one behind the other are one block of their joint
/// size.
pub open spec fn joined(v: Seq<Block>, cand: Block) -> Seq<Block>
    decreases v.len(),
{
    if v.len() == 0 {
        seq![cand]
    } else if adjacent(cand, v.last()) {
        joined(v.drop_last(), merged(cand, v.last()))
    } else {
        seq![cand] + joined(v.drop_last(), v.last())
    }
}

/// The runs of neighbours of a stack, from the top down.
pub open spec fn runs(v: Seq<Block>) -> Seq<Block> {
    if v.len() == 0 {
        v
    } else {
        joined(v.drop_last(), v.last())
    }
}

/// No block of the stack, and no run of neighbouring blocks, holds `size`
/// bytes.
pub open spec fn no_run_holds(v: Seq<Block>, size: usize) -> bool {
    forall|i: int| 0 <= i < runs(v).len() ==> (#[trigger] runs(v)[i]).size < size
}

/// The bytes of all blocks together.
pub open spec fn total(v: Seq<Block>) -> int
    decreases v.len(),
{
    if v.len() == 0 {
        0
    } else {
        total(v.drop_last()) + v.last().size
    }
}

/// The bytes of a block that was found, none where none was.
pub open spec fn granted(r: Option<Block>) -> int {
    match r {
        Some(b) => b.size as int,
        None => 0,
    }
}

/// Every region ends at an address.
pub open spec fn bounded(v: Seq<Block>) -> bool {
    forall|i: int| 0 <= i < v.len() ==> region_end(#[trigger] v[i]) <= usize::MAX
}

/// Blocks that go back on the stack bring their bytes with them.
pub proof fn lemma_put_back_total(v: Seq<Block>, aside: Seq<Block>)
    ensures
        total(put_back(v, aside)) == total(v) + total(aside),
        put_back(v, aside).len() == v.len() + aside.len(),
    decreases aside.len(),
{
    if aside.len() > 0 {
        let w = v.push(aside.last());
        assert(w.drop_last() =~= v);
        lemma_put_back_total(w, aside.drop_last());
    }
}

/// The first run of a stack holds at least the block in hand.
pub proof fn lemma_joined_first(v: Seq<Block>, cand: Block)
    requires
        bounded(v),
        region_end(cand) <= usize::MAX,
    ensures
        joined(v, cand).len() > 0,
        joined(v, cand)[0].size >= cand.size,
    decreases v.len(),
{
    if v.len() > 0 && adjacent(cand, v.last()) {
        assert(region_end(v[v.len() - 1]) <= usize::MAX);
        lemma_joined_first(v.drop_last(), merged(cand, v.last()));
    }
}

/// The gathering finds a block exactly where a run of the stack holds the
/// size; a block that it finds holds the size; and no byte is lost: the
/// bytes left on the stack, those set aside and those of the block found
/// are the bytes that were there.
pub proof fn lemma_gathered_runs(v: Seq<Block>, cand: Block, aside: Seq<Block>, size: usize)
    requires
        bounded(v),
        region_end(cand) <= usize::MAX,
    ensures
        ({
            let (w, a, r) = gathered(v, cand, aside, size);
            &&& r is None <==> forall|i: int|
                0 <= i < joined(v, cand).len() ==> (#[trigger] joined(v, cand)[i]).size < size
            &&& r matches Some(c) ==> c.size >= size && region_end(c) <= usize::MAX
            &&& total(w) + total(a) + granted(r) == total(v) + total(aside) + cand.size
            &&& w.len() + a.len() + (if r is Some {
                1int
            } else {
                0int
            }) <= v.len() + aside.len() + 1
        }),
    decreases v.len(),
{
    let runs = joined(v, cand);
    if cand.size >= size {
        lemma_joined_first(v, cand);
        assert(runs[0].size >= size);
    } else if v.len() == 0 {
        assert(aside.push(cand).drop_last() =~= aside);
        assert(runs =~= seq![cand]);
        assert forall|i: int| 0 <= i < runs.len() implies (#[trigger] runs[i]).size < size by {
            assert(runs[i] == cand);
        }
    } else if adjacent(cand, v.last()) {
        assert(region_end(v[v.len() - 1]) <= usize::MAX);
        assert(bounded(v.drop_last()));
        lemma_gathered_runs(v.drop_last(), merged(cand, v.last()), aside, size);
        assert(runs == joined(v.drop_last(), merged(cand, v.last())));
    } else {
        let rest = joined(v.drop_last(), v.last());
        assert(region_end(v[v.len() - 1]) <= usize::MAX);
        assert(bounded(v.drop_last()));
        lemma_gathered_runs(v.drop_last(), v.last(), aside.push(cand), size);
        assert(aside.push(cand).drop_last() =~= aside);
        assert(runs =~= seq![cand] + rest);
        assert forall|i: int| 0 <= i < rest.len() implies rest[i] == runs[i + 1] by {}
        if forall|i: int| 0 <= i < rest.len() ==> (#[trigger] rest[i]).size < size {
            assert forall|i: int| 0 <= i < runs.len() implies (#[trigger] runs[i]).size < size by {
                if i > 0 {
                    assert(runs[i] == rest[i - 1]);
                } else {
                    assert(runs[0] == cand);
                }
            }
        } else {
            let k = choose|k: int| 0 <= k < rest.len() && !((#[trigger] rest[k]).size < size);
            assert(runs[k + 1] == rest[k]);
        }
    }
}

/// A search finds a block exactly where a block or a run of neighbouring
/// blocks of the stack holds the size; the block found holds the size; and
/// no byte is lost.
pub proof fn lemma_found_runs(v: Seq<Block>, size: usize)
    requires
        bounded(v),
    ensures
        found(v, size).1 is None <==> no_run_holds(v, size),
        found(v, size).1 matches Some(b) ==> b.size >= size,
        total(found(v, size).0) + granted(found(v, size).1) == total(v),
        found(v, size).0.len() <= v.len(),
{
    if v.len() > 0 {
        let n = v.len() as int;
        assert(region_end(v[n - 1]) <= usize::MAX);
        assert(bounded(v.drop_last()));
        lemma_gathered_runs(v.drop_last(), v.last(), Seq::empty(), size);
        let (w, a, r) = gathered(v.drop_last(), v.last(), Seq::empty(), size);
        let all = joined(v.drop_last(), v.last());
        assert(runs(v) == all);
        if forall|i: int| 0 <= i < all.len() ==> (#[trigger] all[i]).size < size {
            assert forall|i: int| 0 <= i < runs(v).len() implies (#[trigger] runs(v)[i]).size
                < size by {
                assert(all[i].size < size);
            }
        } else {
            let k = choose|k: int| 0 <= k < all.len() && !((#[trigger] all[k]).size < size);
            assert(runs(v)[k] == all[k]);
        }
        lemma_put_back_total(w, a);
        assert(total(Seq::<Block>::empty()) == 0);
        if r is Some {
            let c = r->0;
            if splits(c, size) {
                let w2 = w.push(second_half(c));
                assert(w2.drop_last() =~= w);
                lemma_put_back_total(w2, a);
                assert(first_half(c).size >= size) by (nonlinear_arith)
                    requires
                        c.size > size * 2,
                        first_half(c).size == c.size / 2,
                {
                }
                assert(c.size / 2 + c.size / 2 == c.size);
            }
        }
    }
}

impl RawSlice<Block> {
    /// Finds a block of at least `size` bytes on a stack of free blocks.
    /// Blocks are taken off the top; as long as the block in hand is too
    /// small, the next block is merged into it where it begins where the
    /// block in hand ends, and where it does not, the block in hand is set
    /// aside and the search goes on with the next. It ends with a block that
    /// is large enough or with a stack that is used up. A block that is more
    /// than twice as large as asked is cut in two, and the second half goes
    /// back on the stack; so do the blocks that were set aside, above it.
    pub fn find(&mut self, size: usize) -> (r: Option<Block>)
        requires
            old(self).wf(),
            bounded(old(self)@),
        ensures
            final(self).wf(),
            final(self).spec_capacity() == old(self).spec_capacity(),
            final(self).spec_is_null() == old(self).spec_is_null(),
            (final(self)@, r) == found(old(self)@, size),
            r is None <==> no_run_holds(old(self)@, size),
            r matches Some(b) ==> b.size >= size,
            total(final(self)@) + granted(r) == total(old(self)@),
            final(self)@.len() <= old(self)@.len(),
    {
        let ghost v0 = self@;
        proof {
            lemma_found_runs(v0, size);
        }
        let mut cand = match self.pop() {
            None => {
                return None;
            },
            Some(b) => b,
        };
        let mut aside: Vec<Block> = Vec::new();
        while cand.size < size
            invariant
                self.wf(),
                self.spec_capacity() == old(self).spec_capacity(),
                self.spec_is_null() == old(self).spec_is_null(),
                self@.len() + aside@.len() < old(self)@.len(),
                v0 == old(self)@,
                v0.len() > 0,
                old(self).wf(),
                bounded(v0),
                bounded(self@),
                region_end(cand) <= usize::MAX,
                gathered(self@, cand, aside@, size) == gathered(
                    v0.drop_last(),
                    v0.last(),
                    Seq::empty(),
                    size,
                ),
            decreases self@.len(),
        {
            match self.pop() {
                Some(next) => {
                    if cand.data + cand.size == next.data {
                        cand.merge_right(next);
                    } else {
                        aside.push(cand);
                        cand = next;
                    }
                },
                None => {
                    aside.push(cand);
                    self.restore(aside);
                    proof {
                        lemma_found_runs(v0, size);
                    }
                    return None;
                },
            }
        }
        if size <= usize::MAX / SPLIT_FACTOR && cand.size > size * SPLIT_FACTOR && cand.size % 2
            == 0 {
            let rest = cand.split(size);
            let _ = self.push(rest);
        }
        self.restore(aside);
        Some(cand)
    }

    /// Puts the blocks that a search has set aside back on the stack, the
    /// one that was set aside last first.
    fn restore(&mut self, aside: Vec<Block>)
        requires
            old(self).wf(),
            old(self)@.len() + aside@.len() <= old(self).spec_capacity(),
        ensures
            final(self).wf(),
            final(self).spec_capacity() == old(self).spec_capacity(),
            final(self).spec_is_null() == old(self).spec_is_null(),
            final(self)@ == put_back(old(self)@, aside@),
    {
        let ghost a0 = aside@;
        let mut aside = aside;
        while aside.len() > 0
            invariant
                self.wf(),
                self.spec_capacity() == old(self).spec_capacity(),
                self.spec_is_null() == old(self).spec_is_null(),
                self@.len() + aside@.len() <= self.spec_capacity(),
                put_back(self@, aside@) == put_back(old(self)@, a0),
            decreases aside@.len(),
        {
            match aside.pop() {
                Some(b) => {
                    let _ = self.push(b);
                },
                None => {},
            }
        }
    }
}

} // verus!
