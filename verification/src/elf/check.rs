//! Whether an image may be loaded.
use vstd::prelude::*;

use crate::elf::header::{
    program_header, program_header_fits, program_header_in, ElfError, Header, ProgramHeader, PT_LOAD,
};
use crate::memory::map::PAGE_SIZE;
use crate::memory::paging::{pml4_slots_unused, slots_unused, ENTRIES};

verus! {

/// Where the stack page of every image is.
pub const STACK_ADDR: u64 = 0x7777_7777_0000;
/// One past the last address of the lower half.
pub const USER_SPACE_END: u64 = 0x8000_0000_0000;
/// Most loadable segments an image may have.
pub const MAX_LOAD_SEGMENTS: usize = 16;
/// Most program headers an image may have.
pub const MAX_PROGRAM_HEADERS: usize = 64;
/// Most pages an image may take, its stack included.
pub const MAX_IMAGE_PAGES: u64 = 1024;

/// Whether a program header asks for memory.
pub open spec fn is_load(ph: ProgramHeader) -> bool {
    ph.p_type == PT_LOAD && ph.p_memsz != 0
}

/// First and last page number of a segment.
pub open spec fn page_range(ph: ProgramHeader) -> (int, int) {
    (
        ph.p_vaddr as int / PAGE_SIZE as int,
        (ph.p_vaddr + ph.p_memsz - 1) / (PAGE_SIZE as int),
    )
}

/// The page of the stack.
pub open spec fn stack_page() -> int {
    STACK_ADDR as int / PAGE_SIZE as int
}

/// The page ranges claimed by the stack and by the segments among the first
/// `n` program headers.
pub open spec fn claims(image: Seq<u8>, h: Header, n: int) -> Seq<(int, int)>
    decreases n,
{
    if n <= 0 {
        seq![(stack_page(), stack_page())]
    } else {
        let before = claims(image, h, n - 1);
        let ph = program_header_in(image, h, n - 1);
        if is_load(ph) {
            before.push(page_range(ph))
        } else {
            before
        }
    }
}

/// How many pages the ranges cover.
pub open spec fn pages_in(ranges: Seq<(int, int)>) -> int
    decreases ranges.len(),
{
    if ranges.len() == 0 {
        0
    } else {
        pages_in(ranges.drop_last()) + ranges.last().1 - ranges.last().0 + 1
    }
}

/// Whether two page ranges share a page.
pub open spec fn overlap(a: (int, int), b: (int, int)) -> bool {
    a.0 <= b.1 && b.0 <= a.1
}

/// What is wrong with a segment, given the page ranges already claimed.
pub open spec fn segment_fault(
    image: Seq<u8>,
    ph: ProgramHeader,
    base: Seq<u64>,
    claimed: Seq<(int, int)>,
) -> Option<ElfError> {
    let end = ph.p_vaddr + ph.p_memsz;
    let range = page_range(ph);
    if claimed.len() > MAX_LOAD_SEGMENTS {
        Some(ElfError::TooManySegments)
    } else if ph.p_filesz > ph.p_memsz || ph.p_offset + ph.p_filesz > image.len() {
        Some(ElfError::SegmentOutOfFile)
    } else if end > USER_SPACE_END {
        Some(ElfError::SegmentOutsideUserSpace)
    } else if !slots_unused(base, ph.p_vaddr, (end - 1) as u64) {
        Some(ElfError::SegmentInSharedSlot)
    } else if pages_in(claimed) + range.1 - range.0 + 1 > MAX_IMAGE_PAGES {
        Some(ElfError::ImageTooLarge)
    } else if overlap(claimed[0], range) {
        Some(ElfError::SegmentOverlapsStack)
    } else if exists|k: int| 0 <= k < claimed.len() && overlap(#[trigger] claimed[k], range) {
        Some(ElfError::SegmentsOverlap)
    } else {
        None
    }
}

/// What is wrong with program header `i`, if nothing is with those before.
pub open spec fn header_entry_fault(image: Seq<u8>, h: Header, base: Seq<u64>, i: int) -> Option<
    ElfError,
> {
    if !program_header_fits(image, h, i) {
        Some(ElfError::BadProgramHeaders)
    } else if !is_load(program_header_in(image, h, i)) {
        None
    } else {
        segment_fault(image, program_header_in(image, h, i), base, claims(image, h, i))
    }
}

/// What is wrong with the first faulty program header from `i` on.
pub open spec fn first_fault(image: Seq<u8>, h: Header, base: Seq<u64>, i: int) -> Option<ElfError>
    decreases h.phnum - i,
{
    if i >= h.phnum {
        None
    } else if header_entry_fault(image, h, base, i) is Some {
        header_entry_fault(image, h, base, i)
    } else {
        first_fault(image, h, base, i + 1)
    }
}

/// What is wrong with an image whose header is `h`.
pub open spec fn image_fault(image: Seq<u8>, h: Header, base: Seq<u64>) -> Option<ElfError> {
    if h.entry >= USER_SPACE_END {
        Some(ElfError::SegmentOutsideUserSpace)
    } else if h.phnum > MAX_PROGRAM_HEADERS {
        Some(ElfError::TooManySegments)
    } else if !slots_unused(base, STACK_ADDR, (STACK_ADDR + PAGE_SIZE - 1) as u64) {
        Some(ElfError::SegmentInSharedSlot)
    } else if first_fault(image, h, base, 0) is Some {
        first_fault(image, h, base, 0)
    } else if claims(image, h, h.phnum as int).len() == 1 {
        Some(ElfError::NoLoadableSegments)
    } else {
        None
    }
}

/// A list of claimed page ranges as numbers.
pub open spec fn ranges_view(claimed: Seq<(u64, u64)>) -> Seq<(int, int)> {
    claimed.map_values(|r: (u64, u64)| (r.0 as int, r.1 as int))
}

/// The stack comes first among the claims.
proof fn stack_claimed_first(image: Seq<u8>, h: Header, n: int)
    ensures
        claims(image, h, n).len() >= 1,
        claims(image, h, n)[0] == (stack_page(), stack_page()),
    decreases n,
{
    if n > 0 {
        stack_claimed_first(image, h, n - 1);
    }
}

/// Check every segment before a single page is mapped. `base` holds the
/// entries of the top-level page table the image's address space starts
/// from.
pub fn validate(image: &[u8], header: &Header, base: &[u64]) -> (r: Result<(), ElfError>)
    requires
        base@.len() == ENTRIES,
    ensures
        match image_fault(image@, *header, base@) {
            Some(e) => r == Err::<(), ElfError>(e),
            None => r is Ok,
        },
{
    if header.entry >= USER_SPACE_END {
        return Err(ElfError::SegmentOutsideUserSpace);
    }
    if header.phnum as usize > MAX_PROGRAM_HEADERS {
        return Err(ElfError::TooManySegments);
    }
    if !pml4_slots_unused(base, STACK_ADDR, STACK_ADDR + PAGE_SIZE - 1) {
        return Err(ElfError::SegmentInSharedSlot);
    }
    let stack: u64 = STACK_ADDR / PAGE_SIZE;
    let mut claimed: Vec<(u64, u64)> = Vec::new();
    claimed.push((stack, stack));
    let mut total_pages: u64 = 1;
    let ghost h = *header;
    proof {
        let s = seq![(stack_page(), stack_page())];
        assert(ranges_view(claimed@) =~= s);
        assert(s.drop_last() =~= Seq::<(int, int)>::empty());
        assert(pages_in(s.drop_last()) == 0);
        assert(pages_in(s) == 1);
    }
    let mut i: usize = 0;
    while i < header.phnum as usize
        invariant
            h == *header,
            i <= h.phnum,
            h.phnum <= MAX_PROGRAM_HEADERS,
            h.entry < USER_SPACE_END,
            base@.len() == ENTRIES,
            slots_unused(base@, STACK_ADDR, (STACK_ADDR + PAGE_SIZE - 1) as u64),
            ranges_view(claimed@) == claims(image@, h, i as int),
            total_pages == pages_in(ranges_view(claimed@)),
            total_pages <= MAX_IMAGE_PAGES,
            1 <= claimed@.len() <= MAX_LOAD_SEGMENTS + 1,
            claimed@[0] == (stack, stack),
            stack == stack_page(),
            first_fault(image@, h, base@, 0) == first_fault(image@, h, base@, i as int),
        decreases h.phnum - i,
    {
        proof {
            stack_claimed_first(image@, h, i as int);
        }
        let ph = match program_header(image, header, i) {
            Ok(ph) => ph,
            Err(e) => {
                return Err(e);
            },
        };
        if ph.p_type == PT_LOAD && ph.p_memsz != 0 {
            match check_segment(image, &ph, base, &claimed, total_pages) {
                Err(e) => {
                    return Err(e);
                },
                Ok((first, last)) => {
                    let ghost before = claimed@;
                    claimed.push((first, last));
                    total_pages = total_pages + (last - first + 1);
                    proof {
                        assert(ranges_view(claimed@) =~= ranges_view(before).push(page_range(ph)));
                        assert(ranges_view(claimed@).drop_last() =~= ranges_view(before));
                    }
                },
            }
        }
        i = i + 1;
    }
    if claimed.len() == 1 {
        return Err(ElfError::NoLoadableSegments);
    }
    Ok(())
}

/// Check one segment against the file, the address space and the pages
/// claimed before it; returns its page range.
fn check_segment(
    image: &[u8],
    ph: &ProgramHeader,
    base: &[u64],
    claimed: &Vec<(u64, u64)>,
    total_pages: u64,
) -> (r: Result<(u64, u64), ElfError>)
    requires
        base@.len() == ENTRIES,
        is_load(*ph),
        claimed@.len() >= 1,
        claimed@[0].0 == stack_page(),
        claimed@[0].1 == stack_page(),
        total_pages == pages_in(ranges_view(claimed@)),
        total_pages <= MAX_IMAGE_PAGES,
    ensures
        match segment_fault(image@, *ph, base@, ranges_view(claimed@)) {
            Some(e) => r == Err::<(u64, u64), ElfError>(e),
            None => r matches Ok(range) && (range.0 as int, range.1 as int) == page_range(*ph)
                && range.0 <= range.1 && total_pages + (range.1 - range.0 + 1) <= MAX_IMAGE_PAGES
                && claimed@.len() <= MAX_LOAD_SEGMENTS,
        },
{
    let ghost ranges = ranges_view(claimed@);
    let len: u64 = image.len() as u64;
    if claimed.len() > MAX_LOAD_SEGMENTS {
        return Err(ElfError::TooManySegments);
    }
    if ph.p_filesz > ph.p_memsz {
        return Err(ElfError::SegmentOutOfFile);
    }
    match ph.p_offset.checked_add(ph.p_filesz) {
        None => {
            return Err(ElfError::SegmentOutOfFile);
        },
        Some(file_end) => {
            if file_end > len {
                return Err(ElfError::SegmentOutOfFile);
            }
        },
    }
    let mem_end: u64 = match ph.p_vaddr.checked_add(ph.p_memsz) {
        None => {
            return Err(ElfError::SegmentOutsideUserSpace);
        },
        Some(end) => end,
    };
    if mem_end > USER_SPACE_END {
        return Err(ElfError::SegmentOutsideUserSpace);
    }
    if !pml4_slots_unused(base, ph.p_vaddr, mem_end - 1) {
        return Err(ElfError::SegmentInSharedSlot);
    }
    let first: u64 = ph.p_vaddr / PAGE_SIZE;
    let last: u64 = (mem_end - 1) / PAGE_SIZE;
    let ghost range = (first as int, last as int);
    assert(range == page_range(*ph));
    if total_pages + (last - first + 1) > MAX_IMAGE_PAGES {
        return Err(ElfError::ImageTooLarge);
    }
    let mut k: usize = 0;
    while k < claimed.len()
        invariant
            k <= claimed@.len(),
            ranges == ranges_view(claimed@),
            claimed@.len() >= 1,
            range == (first as int, last as int),
            range == page_range(*ph),
            ranges[0] == (stack_page(), stack_page()),
            forall|j: int| 0 <= j < k ==> !overlap(#[trigger] ranges[j], range),
            k == 0 ==> segment_fault(image@, *ph, base@, ranges) == (if overlap(ranges[0], range) {
                Some(ElfError::SegmentOverlapsStack)
            } else if exists|j: int| 0 <= j < ranges.len() && overlap(#[trigger] ranges[j], range) {
                Some(ElfError::SegmentsOverlap)
            } else {
                None
            }),
            k > 0 ==> segment_fault(image@, *ph, base@, ranges) == (if exists|j: int|
                0 <= j < ranges.len() && overlap(#[trigger] ranges[j], range) {
                Some(ElfError::SegmentsOverlap)
            } else {
                None
            }),
        decreases claimed@.len() - k,
    {
        let other = claimed[k];
        assert(ranges[k as int] == (other.0 as int, other.1 as int));
        if first <= other.1 && last >= other.0 {
            assert(overlap(ranges[k as int], range));
            if k == 0 {
                return Err(ElfError::SegmentOverlapsStack);
            }
            return Err(ElfError::SegmentsOverlap);
        }
        k = k + 1;
    }
    Ok((first, last))
}

} // verus!
