//! The program break: the one place that keeps track of where the heap
//! ends, and the lock that lets one caller at a time move it.
//!
//! Moving the break is the operating system's work. The caller asks it, with
//! the target that `BrkState::target` gives, and hands back the break that
//! the system reports.

use core::sync::atomic::AtomicBool;
use core::sync::atomic::Ordering;
use vstd::prelude::*;

verus! {

/// The break where it is not known yet.
pub const UNKNOWN: usize = 0;

/// The cached program break.
pub struct BrkState {
    current: usize,
}

/// The break that a move by `size` bytes from `current` aims at, if that is
/// an address.
pub open spec fn spec_target(current: usize, size: isize) -> Option<usize> {
    if current != UNKNOWN && 0 < current + size <= usize::MAX {
        Some((current + size) as usize)
    } else {
        None
    }
}

impl BrkState {
    /// The cached break, `UNKNOWN` before the first report.
    pub closed spec fn spec_current(&self) -> usize {
        self.current
    }

    /// The break has been reported once.
    pub open spec fn known(&self) -> bool {
        self.spec_current() != UNKNOWN
    }

    /// A cache that knows no break yet.
    pub fn new() -> (state: BrkState)
        ensures
            !state.known(),
    {
        BrkState { current: UNKNOWN }
    }

    /// The cached break, if one has been reported.
    pub fn cached(&self) -> (r: Option<usize>)
        ensures
            r == if self.known() {
                Some(self.spec_current())
            } else {
                None::<usize>
            },
    {
        if self.current != UNKNOWN {
            Some(self.current)
        } else {
            None
        }
    }

    /// The current break. The first call takes it from `reported`, what the
    /// system says the break is, and keeps it; every later call returns what
    /// is kept.
    pub fn current_brk(&mut self, reported: usize) -> (r: usize)
        requires
            reported != UNKNOWN,
        ensures
            r == if old(self).known() {
                old(self).spec_current()
            } else {
                reported
            },
            final(self).spec_current() == r,
    {
        if self.current != UNKNOWN {
            return self.current;
        }
        self.current = reported;
        reported
    }

    /// The break to ask the system for when the heap is to change by `size`
    /// bytes; nothing where the break is not known or the sum is no address.
    pub fn target(&self, size: isize) -> (r: Option<usize>)
        ensures
            r == spec_target(self.spec_current(), size),
    {
        if self.current == UNKNOWN {
            return None;
        }
        if size >= 0 {
            let grow = size as usize;
            if grow <= usize::MAX - self.current {
                Some(self.current + grow)
            } else {
                None
            }
        } else {
            let back: usize = if size == isize::MIN {
                (isize::MAX as usize) + 1
            } else {
                (-size) as usize
            };
            if back < self.current {
                Some(self.current - back)
            } else {
                None
            }
        }
    }

    /// Records the outcome of asking the system for the break `target`,
    /// which answered with `achieved`. Where the break is where it was
    /// asked to be, it is kept and the old break is returned: the region
    /// between the two is what has been gained. Anything else is a failure,
    /// and nothing changes.
    pub fn moved(&mut self, target: usize, achieved: usize) -> (r: Result<usize, ()>)
        requires
            old(self).known(),
            target != UNKNOWN,
        ensures
            achieved == target ==> {
                &&& r == Ok::<usize, ()>(old(self).spec_current())
                &&& final(self).spec_current() == target
            },
            achieved != target ==> {
                &&& r is Err
                &&& final(self).spec_current() == old(self).spec_current()
            },
    {
        let old = self.current;
        if target == achieved {
            self.current = target;
            Ok(old)
        } else {
            Err(())
        }
    }

    /// Records the outcome of asking the system to move the break by `size`
    /// bytes, to the address that `target` gives; the system answered with
    /// `achieved`. Returns the old break where the move was made, and fails,
    /// with nothing changed, where it was not.
    pub fn sbrk(&mut self, size: isize, achieved: usize) -> (r: Result<usize, ()>)
        requires
            spec_target(old(self).spec_current(), size) is Some,
        ensures
            Some(achieved) == spec_target(old(self).spec_current(), size) ==> {
                &&& r == Ok::<usize, ()>(old(self).spec_current())
                &&& final(self).spec_current() == achieved
            },
            Some(achieved) != spec_target(old(self).spec_current(), size) ==> {
                &&& r is Err
                &&& final(self).spec_current() == old(self).spec_current()
            },
    {
        match self.target(size) {
            Some(expect) => self.moved(expect, achieved),
            None => Err(()),
        }
    }
}

/// Records a move of the break by `size` bytes in `state`; see
/// `BrkState::sbrk`.
pub fn sbrk(state: &mut BrkState, size: isize, achieved: usize) -> (r: Result<usize, ()>)
    requires
        spec_target(old(state).spec_current(), size) is Some,
    ensures
        Some(achieved) == spec_target(old(state).spec_current(), size) ==> {
            &&& r == Ok::<usize, ()>(old(state).spec_current())
            &&& final(state).spec_current() == achieved
        },
        Some(achieved) != spec_target(old(state).spec_current(), size) ==> {
            &&& r is Err
            &&& final(state).spec_current() == old(state).spec_current()
        },
{
    state.sbrk(size, achieved)
}

/// A lock that is taken by flipping a flag.
pub struct Mutex {
    semaphore: AtomicBool,
}

/// The right to the lock. It is given back with `unlock`.
pub struct Guard<'g>(&'g Mutex);

impl Mutex {
    /// A lock that nobody holds.
    pub fn new() -> Mutex {
        Mutex { semaphore: AtomicBool::new(false) }
    }

    /// Tries once to take the lock: flips the flag if it is down. Returns
    /// the right to the lock, or nothing where another caller holds it; the
    /// caller then yields and tries again.
    pub fn lock(&self) -> (r: Option<Guard<'_>>)
        ensures
            r matches Some(g) ==> g.of() == self,
    {
        let outcome = self.semaphore.compare_exchange(
            false,
            true,
            Ordering::SeqCst,
            Ordering::SeqCst,
        );
        if flag_taken(outcome) {
            Some(Guard(self))
        } else {
            None
        }
    }
}

impl<'g> Guard<'g> {
    /// The lock that this right is for.
    pub closed spec fn of(&self) -> &Mutex {
        self.0
    }

    /// Gives the lock back.
    pub fn unlock(self) {
        self.0.semaphore.store(false, Ordering::SeqCst)
    }
}

/// What an attempt to raise a flag that is down says of the lock: the
/// attempt reports the flag as it found it, as a success where it was down
/// and has been raised, as a failure where it was up already. The lock is
/// taken exactly where the attempt succeeded.
pub fn flag_taken(outcome: Result<bool, bool>) -> (taken: bool)
    ensures
        taken == (outcome is Ok),
{
    match outcome {
        Ok(_) => true,
        Err(_) => false,
    }
}

} // verus!
