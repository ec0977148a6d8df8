//! Where the kernel's heap lies.
use crate::memory::map::PAGE_SIZE;
use vstd::prelude::*;

verus! {

pub const HEAP_START: u64 = 0x4444_4444_0000;
pub const HEAP_SIZE: u64 = 0x10_0000;

/// The pages to map for the kernel's heap, in order.
pub fn heap_pages() -> (pages: Vec<u64>)
    ensures
        pages@.len() * PAGE_SIZE == HEAP_SIZE,
        forall|i: int|
            0 <= i < pages@.len() ==> #[trigger] pages@[i] == HEAP_START + i * PAGE_SIZE,
{
    let mut pages: Vec<u64> = Vec::new();
    let mut page: u64 = HEAP_START;
    while page < HEAP_START + HEAP_SIZE
        invariant
            page == HEAP_START + pages@.len() * PAGE_SIZE,
            pages@.len() * PAGE_SIZE <= HEAP_SIZE,
            forall|i: int|
                0 <= i < pages@.len() ==> #[trigger] pages@[i] == HEAP_START + i * PAGE_SIZE,
        decreases HEAP_START + HEAP_SIZE - page,
    {
        pages.push(page);
        page += PAGE_SIZE;
    }
    pages
}

} // verus!
