//! How far the program break moves when the heap runs out.
use vstd::prelude::*;

verus! {

/// Least the heap grows by at a time.
pub const GROW: usize = 65536;

/// What the heap grows by for an allocation: enough for it wherever it is
/// aligned, at least `GROW`, and whole pages.
pub open spec fn growth(size: int, align: int) -> int {
    let want = if size + align > GROW {
        size + align
    } else {
        GROW as int
    };
    (want + 4095) / 4096 * 4096
}

/// Where the break has to move from `old_end` for an allocation of `size`
/// bytes aligned to `align`: the bytes that are added, and the new end.
pub fn grow(old_end: u64, size: usize, align: usize) -> (r: (usize, u64))
    requires
        size + align + 4095 <= usize::MAX,
        old_end + growth(size as int, align as int) <= u64::MAX,
    ensures
        r.0 == growth(size as int, align as int),
        r.1 == old_end + r.0,
        r.0 >= size + align,
        r.0 >= GROW,
        r.0 % 4096 == 0,
        size + align <= 65536 ==> r.0 == 65536,
        size + align > 65536 ==> r.0 < size + align + 4096,
{
    let need: usize = size + align;
    let want: usize = if need > GROW {
        need
    } else {
        GROW
    };
    let more: usize = (want + 4095) / 4096 * 4096;
    (more, old_end + more as u64)
}

} // verus!
