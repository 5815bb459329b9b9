//! Size arithmetic shared by the allocators.

use vstd::prelude::*;

verus! {

/// The minimum alignment that the architecture guarantees for any allocation.
pub const MIN_ALIGN: usize = 16;

/// The factor between a requested segment and the extra bytes asked with it.
pub const BRK_MULTIPLIER: usize = 2;

/// The least number of extra bytes asked from the program break.
pub const BRK_MIN_EXTRA: usize = 1024;

/// The greatest number of extra bytes asked from the program break.
pub const BRK_MAX_EXTRA: usize = 65536;

/// `size` rounded up to the next multiple of four, as a mathematical integer.
pub open spec fn spec_align(size: int) -> int {
    ((size - 1) / 4) * 4 + 4
}

/// The extra bytes to ask for beside a segment of `size` bytes: twice the
/// size, kept between `BRK_MIN_EXTRA` and `BRK_MAX_EXTRA`.
pub open spec fn spec_extra_brk(size: int) -> int {
    let doubled = BRK_MULTIPLIER * size;
    let capped = if doubled < BRK_MAX_EXTRA { doubled } else { BRK_MAX_EXTRA as int };
    if capped > BRK_MIN_EXTRA { capped } else { BRK_MIN_EXTRA as int }
}

/// How many extra bytes to request when the break is moved for `size` bytes.
pub fn extra_brk(size: usize) -> (extra: usize)
    ensures
        extra == spec_extra_brk(size as int),
        BRK_MIN_EXTRA <= extra <= BRK_MAX_EXTRA,
{
    if size >= BRK_MAX_EXTRA / BRK_MULTIPLIER {
        BRK_MAX_EXTRA
    } else if BRK_MULTIPLIER * size > BRK_MIN_EXTRA {
        BRK_MULTIPLIER * size
    } else {
        BRK_MIN_EXTRA
    }
}

/// Rounds a size up to the allocator's granularity of four bytes.
///
/// A size of zero has no block and the largest sizes have no rounded value
/// that fits, so both are left out.
pub fn align(size: usize) -> (aligned: isize)
    requires
        0 < size <= isize::MAX - 3,
    ensures
        aligned == spec_align(size as int),
        aligned % 4 == 0,
        size <= aligned < size + 4,
{
    let rounded: usize = ((size - 1) / 4) * 4 + 4;
    rounded as isize
}

/// Rounding to the granularity gives a multiple of four that is at least the
/// size and less than four above it, for every size.
pub proof fn lemma_align_bounds(size: int)
    ensures
        spec_align(size) % 4 == 0,
        size <= spec_align(size) < size + 4,
{
}

} // verus!
