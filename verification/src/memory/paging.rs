//! Addresses and page tables as plain numbers.
use vstd::prelude::*;

verus! {

/// How many entries a page table has.
pub const ENTRIES: usize = 512;

/// Bytes that one entry of a top-level page table covers.
pub const PML4_SLOT_BYTES: u64 = 0x80_0000_0000;

/// Whether bits 48 to 63 of `addr` are copies of bit 47.
pub open spec fn canonical(addr: u64) -> bool {
    addr < 0x8000_0000_0000 || addr >= 0xffff_8000_0000_0000
}

/// `x86_64::VirtAddr::try_new` accepts exactly the canonical addresses.
#[verifier::external_body]
pub(crate) fn is_canonical(addr: u64) -> (r: bool)
    ensures
        r == canonical(addr),
{
    x86_64::VirtAddr::try_new(addr).is_ok()
}

/// The entry of a top-level page table that covers `addr`.
pub open spec fn p4_slot(addr: u64) -> int {
    (addr as int / PML4_SLOT_BYTES as int) % 512
}

/// `x86_64::VirtAddr::p4_index`, on a canonical address: bits 39 to 47 of
/// it, as a number. An address that is not canonical is left out, since
/// `VirtAddr::new` panics on it.
#[verifier::external_body]
fn p4_index(addr: u64) -> (i: usize)
    requires
        canonical(addr),
    ensures
        i == p4_slot(addr),
        i < ENTRIES,
{
    usize::from(x86_64::VirtAddr::new(addr).p4_index())
}

/// Whether every entry of the top-level page table `pml4` that covers an
/// address from `start` to `end_inclusive` is unused.
pub open spec fn slots_unused(pml4: Seq<u64>, start: u64, end_inclusive: u64) -> bool {
    forall|i: int| p4_slot(start) <= i <= p4_slot(end_inclusive) ==> #[trigger] pml4[i] == 0
}

/// Whether every entry of the top-level page table `pml4` that covers an
/// address from `start` to `end_inclusive` is unused: a mapping there then
/// belongs to a copy of the table alone. In an entry that is in use, the
/// copy shares the lower tables with the original.
pub fn pml4_slots_unused(pml4: &[u64], start: u64, end_inclusive: u64) -> (r: bool)
    requires
        pml4@.len() == ENTRIES,
        canonical(start),
        canonical(end_inclusive),
    ensures
        r == slots_unused(pml4@, start, end_inclusive),
{
    let first: usize = p4_index(start);
    let last: usize = p4_index(end_inclusive);
    let mut i: usize = first;
    while i <= last
        invariant
            first <= i,
            last < ENTRIES,
            pml4@.len() == ENTRIES,
            first == p4_slot(start),
            last == p4_slot(end_inclusive),
            forall|j: int| first <= j < i ==> #[trigger] pml4@[j] == 0,
        decreases last + 1 - i,
    {
        if pml4[i] != 0 {
            return false;
        }
        i = i + 1;
    }
    true
}

/// Flag bits of a page-table entry.
#[derive(Clone, Copy, Debug, PartialEq, Eq, Structural)]
pub struct PageFlags {
    pub present: u64,
    pub writable: u64,
    pub user_accessible: u64,
    pub no_execute: u64,
}

pub const PRESENT: u64 = 0x1;
pub const WRITABLE: u64 = 0x2;
pub const USER_ACCESSIBLE: u64 = 0x4;
pub const HUGE_PAGE: u64 = 0x80;
pub const NO_EXECUTE: u64 = 0x8000_0000_0000_0000;

/// The bits of `x86_64::structures::paging::PageTableFlags` that mappings
/// here are made with: bit 0, bit 1, bit 2 and bit 63.
#[verifier::external_body]
pub(crate) fn page_flags() -> (f: PageFlags)
    ensures
        f.present == PRESENT,
        f.writable == WRITABLE,
        f.user_accessible == USER_ACCESSIBLE,
        f.no_execute == NO_EXECUTE,
{
    PageFlags {
        present: x86_64::structures::paging::PageTableFlags::PRESENT.bits(),
        writable: x86_64::structures::paging::PageTableFlags::WRITABLE.bits(),
        user_accessible: x86_64::structures::paging::PageTableFlags::USER_ACCESSIBLE.bits(),
        no_execute: x86_64::structures::paging::PageTableFlags::NO_EXECUTE.bits(),
    }
}

} // verus!
