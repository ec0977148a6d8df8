//! What the pages of a loaded image hold.
use vstd::prelude::*;

use crate::elf::check::{
    claims, first_fault, header_entry_fault, image_fault, is_load, overlap, page_range, pages_in,
    stack_page, validate, MAX_IMAGE_PAGES, MAX_LOAD_SEGMENTS, STACK_ADDR, USER_SPACE_END,
};
use crate::elf::header::{
    header_fault, header_in, header_of, program_header, program_header_in, ElfError, Header,
    ProgramHeader, PF_W, PF_X, PT_LOAD,
};
use crate::elf::stack::{write_initial_stack, Block, StartArgs, MAX_START_ARGS_BYTES};
use crate::memory::map::{MemMap, Segment, PAGE_SIZE};
use crate::memory::paging::{
    page_flags, slots_unused, ENTRIES, NO_EXECUTE, PRESENT, USER_ACCESSIBLE, WRITABLE,
};

verus! {

/// One page to map: where, with which flags, and what it holds.
pub struct PagePlan {
    pub addr: u64,
    pub flags: u64,
    pub bytes: Vec<u8>,
}

/// One page to map, with its bytes as a sequence.
pub struct PageModel {
    pub addr: u64,
    pub flags: u64,
    pub bytes: Seq<u8>,
}

impl View for PagePlan {
    type V = PageModel;

    open spec fn view(&self) -> PageModel {
        PageModel { addr: self.addr, flags: self.flags, bytes: self.bytes@ }
    }
}

/// Several pages to map.
pub open spec fn pages_view(pages: Seq<PagePlan>) -> Seq<PageModel> {
    Seq::new(pages.len(), |i: int| pages[i]@)
}

/// An image that may be loaded: where it starts, its first stack pointer,
/// the map of its memory, and its pages.
pub struct ImagePlan {
    pub entry: u64,
    pub stack_pointer: u64,
    pub map: MemMap,
    pub pages: Vec<PagePlan>,
}

/// A loaded image: its address space, where it starts, its first stack
/// pointer, and the map of its memory.
#[derive(Clone, Copy)]
pub struct LoadedImage {
    pub pml4: u64,
    pub entry: u64,
    pub stack_pointer: u64,
    pub map: MemMap,
}

/// The byte of a segment at address `a`: from the file where it has one
/// there, else zero.
pub open spec fn segment_byte(image: Seq<u8>, ph: ProgramHeader, a: int) -> u8 {
    if ph.p_vaddr <= a < ph.p_vaddr + ph.p_filesz {
        image[ph.p_offset + a - ph.p_vaddr]
    } else {
        0
    }
}

/// The flags a segment's pages are mapped with.
pub open spec fn segment_flags(ph: ProgramHeader) -> u64 {
    (PRESENT + USER_ACCESSIBLE + (if ph.p_flags & PF_W != 0 {
        WRITABLE
    } else {
        0
    }) + (if ph.p_flags & PF_X == 0 {
        NO_EXECUTE
    } else {
        0
    })) as u64
}

/// Page number `n` of a segment.
pub open spec fn segment_page(image: Seq<u8>, ph: ProgramHeader, n: int) -> PageModel {
    PageModel {
        addr: (n * PAGE_SIZE) as u64,
        flags: segment_flags(ph),
        bytes: Seq::new(PAGE_SIZE as nat, |k: int| segment_byte(image, ph, n * PAGE_SIZE + k)),
    }
}

/// All pages of a segment.
pub open spec fn segment_pages(image: Seq<u8>, ph: ProgramHeader) -> Seq<PageModel> {
    let range = page_range(ph);
    Seq::new((range.1 - range.0 + 1) as nat, |i: int| segment_page(image, ph, range.0 + i))
}

/// The pages of the segments among the first `n` program headers.
pub open spec fn image_pages(image: Seq<u8>, h: Header, n: int) -> Seq<PageModel>
    decreases n,
{
    if n <= 0 {
        Seq::empty()
    } else {
        let before = image_pages(image, h, n - 1);
        let ph = program_header_in(image, h, n - 1);
        if is_load(ph) {
            before + segment_pages(image, ph)
        } else {
            before
        }
    }
}

/// The memory of a segment.
pub open spec fn segment_memory(ph: ProgramHeader) -> Segment {
    let range = page_range(ph);
    Segment { base: (range.0 * PAGE_SIZE) as u64, pages: (range.1 - range.0 + 1) as usize }
}

/// The memory of the segments among the first `n` program headers.
pub open spec fn image_memory(image: Seq<u8>, h: Header, n: int) -> Seq<Segment>
    decreases n,
{
    if n <= 0 {
        Seq::empty()
    } else {
        let before = image_memory(image, h, n - 1);
        let ph = program_header_in(image, h, n - 1);
        if is_load(ph) {
            before.push(segment_memory(ph))
        } else {
            before
        }
    }
}

/// The stack page of an image with that start block.
pub open spec fn stack_model(block: Block) -> PageModel {
    PageModel {
        addr: STACK_ADDR,
        flags: (PRESENT + WRITABLE + USER_ACCESSIBLE + NO_EXECUTE) as u64,
        bytes: block.page(),
    }
}

/// Why an image with that start block may not be loaded over `base`.
pub open spec fn load_fault(base: Seq<u64>, image: Seq<u8>, block: Block) -> Option<ElfError> {
    if header_fault(image) is Some {
        header_fault(image)
    } else if block.size() > MAX_START_ARGS_BYTES {
        Some(ElfError::ArgsTooLarge)
    } else {
        image_fault(image, header_in(image), base)
    }
}

/// A segment that a check found nothing wrong with.
pub open spec fn segment_fits(image: Seq<u8>, ph: ProgramHeader) -> bool {
    &&& is_load(ph)
    &&& ph.p_filesz <= ph.p_memsz
    &&& ph.p_offset + ph.p_filesz <= image.len()
    &&& ph.p_vaddr + ph.p_memsz <= USER_SPACE_END
}

/// The pages of a segment: zero but where the file has contents for them.
fn load_segment(image: &[u8], ph: &ProgramHeader, pages: &mut Vec<PagePlan>)
    requires
        segment_fits(image@, *ph),
    ensures
        pages_view(final(pages)@) == pages_view(old(pages)@) + segment_pages(image@, *ph),
{
    let f = page_flags();
    let mut flags: u64 = f.present + f.user_accessible;
    if ph.p_flags & PF_W != 0 {
        flags = flags + f.writable;
    }
    if ph.p_flags & PF_X == 0 {
        flags = flags + f.no_execute;
    }
    let first: u64 = ph.p_vaddr / PAGE_SIZE;
    let last: u64 = (ph.p_vaddr + ph.p_memsz - 1) / PAGE_SIZE;
    let ghost before = pages_view(pages@);
    let ghost all = segment_pages(image@, *ph);
    let mut n: u64 = first;
    assert(pages_view(pages@) =~= before + all.take(0));
    while n <= last
        invariant
            segment_fits(image@, *ph),
            first <= n <= last + 1,
            first == page_range(*ph).0,
            last == page_range(*ph).1,
            flags == segment_flags(*ph),
            all == segment_pages(image@, *ph),
            pages_view(pages@) == before + all.take(n - first),
        decreases last + 1 - n,
    {
        let bytes = page_bytes(image, ph, n);
        let ghost was = pages@;
        let page = PagePlan { addr: n * PAGE_SIZE, flags, bytes };
        assert(page@.bytes =~= segment_page(image@, *ph, n as int).bytes);
        assert(page@ == all[n - first]);
        pages.push(page);
        assert(pages_view(pages@) =~= pages_view(was).push(page@));
        n = n + 1;
        assert(pages_view(pages@) =~= before + all.take(n - first));
    }
    assert(all.take(n - first) =~= all);
}

/// The contents of page number `n` of a segment.
fn page_bytes(image: &[u8], ph: &ProgramHeader, n: u64) -> (r: Vec<u8>)
    requires
        segment_fits(image@, *ph),
        page_range(*ph).0 <= n <= page_range(*ph).1,
    ensures
        r@ == segment_page(image@, *ph, n as int).bytes,
{
    let page_start: u64 = n * PAGE_SIZE;
    let file_end: u64 = ph.p_vaddr + ph.p_filesz;
    let _len: usize = image.len();
    let mut r: Vec<u8> = Vec::new();
    let mut k: u64 = 0;
    while k < PAGE_SIZE
        invariant
            k <= PAGE_SIZE,
            segment_fits(image@, *ph),
            image@.len() <= usize::MAX,
            page_start == n * PAGE_SIZE,
            page_start <= USER_SPACE_END,
            file_end == ph.p_vaddr + ph.p_filesz,
            r@.len() == k,
            forall|j: int| 0 <= j < k ==> #[trigger] r@[j] == segment_byte(image@, *ph, n * PAGE_SIZE + j),
        decreases PAGE_SIZE - k,
    {
        let a: u64 = page_start + k;
        let b: u8 = if ph.p_vaddr <= a && a < file_end {
            image[(ph.p_offset + (a - ph.p_vaddr)) as usize]
        } else {
            0
        };
        r.push(b);
        k = k + 1;
    }
    assert(r@ =~= segment_page(image@, *ph, n as int).bytes);
    r
}

/// If nothing is wrong from entry `from` on, nothing is wrong with entry `i`.
pub proof fn no_fault_at(image: Seq<u8>, h: Header, base: Seq<u64>, from: int, i: int)
    requires
        first_fault(image, h, base, from) is None,
        from <= i < h.phnum,
    ensures
        header_entry_fault(image, h, base, i) is None,
    decreases i - from,
{
    if from < i {
        no_fault_at(image, h, base, from + 1, i);
    }
}

/// As many segments have memory as claim pages, the stack left out.
proof fn memory_per_claim(image: Seq<u8>, h: Header, n: int)
    ensures
        image_memory(image, h, n).len() + 1 == claims(image, h, n).len(),
    decreases n,
{
    if n > 0 {
        memory_per_claim(image, h, n - 1);
    }
}

/// Work out how to load `image` into an address space that starts from the
/// top-level page table `base`, with an empty start block.
pub fn load_image(base: &[u64], image: &[u8]) -> (r: Result<ImagePlan, ElfError>)
    requires
        base@.len() == ENTRIES,
    ensures
        ({
            let block = Block { argv: Seq::empty(), envp: Seq::empty() };
            match load_fault(base@, image@, block) {
                Some(e) => r matches Err(f) && f == e,
                None => r matches Ok(plan) && plans(plan, image@, block),
            }
        }),
{
    let none: Vec<&[u8]> = Vec::new();
    let args = StartArgs { argv: none.as_slice(), envp: none.as_slice() };
    proof {
        assert(args.block().argv =~= Seq::<Seq<u8>>::empty());
        assert(args.block().envp =~= Seq::<Seq<u8>>::empty());
    }
    load_image_with_args(base, image, &args)
}

/// Whether `plan` loads `image` with that start block.
pub open spec fn plans(plan: ImagePlan, image: Seq<u8>, block: Block) -> bool {
    let h = header_in(image);
    &&& plan.entry == h.entry
    &&& plan.stack_pointer == STACK_ADDR + block.start()
    &&& plan.map.wf()
    &&& plan.map@ == image_memory(image, h, h.phnum as int).push(
        Segment { base: STACK_ADDR, pages: 1 },
    )
    &&& pages_view(plan.pages@) == image_pages(image, h, h.phnum as int).push(stack_model(block))
}

/// Work out how to load `image` into an address space that starts from the
/// top-level page table `base`, with the arguments and environment of
/// `args` on its stack. Nothing is planned for an image with a fault.
pub fn load_image_with_args(base: &[u64], image: &[u8], args: &StartArgs) -> (r: Result<
    ImagePlan,
    ElfError,
>)
    requires
        base@.len() == ENTRIES,
    ensures
        match load_fault(base@, image@, args.block()) {
            Some(e) => r matches Err(f) && f == e,
            None => r matches Ok(plan) && plans(plan, image@, args.block()),
        },
{
    let header = match header_of(image) {
        Ok(h) => h,
        Err(e) => {
            return Err(e);
        },
    };
    let fits: bool = match args.block_size() {
        Some(size) => size <= MAX_START_ARGS_BYTES,
        None => false,
    };
    if !fits {
        return Err(ElfError::ArgsTooLarge);
    }
    match validate(image, &header, base) {
        Ok(_) => {},
        Err(e) => {
            return Err(e);
        },
    }
    let ghost h = header;
    let mut map = MemMap::empty();
    let mut pages: Vec<PagePlan> = Vec::new();
    assert(pages_view(pages@) =~= Seq::<PageModel>::empty());
    let mut i: usize = 0;
    while i < header.phnum as usize
        invariant
            h == header,
            h == header_in(image@),
            i <= h.phnum,
            image_fault(image@, h, base@) is None,
            map.wf(),
            map@ == image_memory(image@, h, i as int),
            pages_view(pages@) == image_pages(image@, h, i as int),
        decreases h.phnum - i,
    {
        proof {
            no_fault_at(image@, h, base@, 0, i as int);
            memory_per_claim(image@, h, i as int);
        }
        match program_header(image, &header, i) {
            Ok(ph) => {
                if ph.p_type == PT_LOAD && ph.p_memsz != 0 {
                    load_segment(image, &ph, &mut pages);
                    let first: u64 = ph.p_vaddr / PAGE_SIZE;
                    let last: u64 = (ph.p_vaddr + ph.p_memsz - 1) / PAGE_SIZE;
                    let count: u64 = last - first + 1;
                    proof {
                        claims_are_ranges(image@, h, base@, i as int);
                        assert(count <= MAX_IMAGE_PAGES);
                    }
                    let pushed: bool = map.push(first * PAGE_SIZE, count as usize);
                    assert(pushed);
                }
            },
            Err(e) => {
                return Err(e);
            },
        }
        i = i + 1;
    }
    let (bytes, stack_pointer) = write_initial_stack(args);
    let f = page_flags();
    let stack = PagePlan {
        addr: STACK_ADDR,
        flags: f.present + f.writable + f.user_accessible + f.no_execute,
        bytes,
    };
    let ghost was = pages@;
    let ghost st = stack@;
    pages.push(stack);
    assert(pages_view(pages@) =~= pages_view(was).push(st));
    proof {
        memory_per_claim(image@, h, h.phnum as int);
        claims_bounded(image@, h, base@, h.phnum as int);
    }
    let pushed: bool = map.push(STACK_ADDR, 1);
    assert(pushed);
    Ok(ImagePlan { entry: header.entry, stack_pointer, map, pages })
}

/// An accepted image has at most so many segments.
pub proof fn claims_bounded(image: Seq<u8>, h: Header, base: Seq<u64>, n: int)
    requires
        first_fault(image, h, base, 0) is None,
        0 <= n <= h.phnum,
    ensures
        claims(image, h, n).len() <= MAX_LOAD_SEGMENTS + 1,
    decreases n,
{
    if n > 0 {
        claims_bounded(image, h, base, n - 1);
        no_fault_at(image, h, base, 0, n - 1);
    }
}

/// Among the claims of the first `n` entries of an accepted image, every
/// range has a page, no two share one, and they are not too many.
pub proof fn claims_are_ranges(image: Seq<u8>, h: Header, base: Seq<u64>, n: int)
    requires
        first_fault(image, h, base, 0) is None,
        0 <= n <= h.phnum,
    ensures
        ({
            let c = claims(image, h, n);
            &&& c.len() >= 1
            &&& c[0] == (stack_page(), stack_page())
            &&& forall|k: int| 0 <= k < c.len() ==> (#[trigger] c[k]).0 <= c[k].1
            &&& forall|a: int, b: int|
                #![trigger c[a], c[b]]
                0 <= a < b < c.len() ==> !overlap(c[a], c[b])
            &&& 1 <= pages_in(c) <= MAX_IMAGE_PAGES
        }),
    decreases n,
{
    let c = claims(image, h, n);
    if n > 0 {
        claims_are_ranges(image, h, base, n - 1);
        no_fault_at(image, h, base, 0, n - 1);
        let before = claims(image, h, n - 1);
        let ph = program_header_in(image, h, n - 1);
        if is_load(ph) {
            assert(c.drop_last() =~= before);
            assert forall|a: int, b: int|
                #![trigger c[a], c[b]]
                0 <= a < b < c.len() implies !overlap(c[a], c[b]) by {
                if b == before.len() {
                    assert(c[a] == before[a]);
                }
            }
        }
    } else {
        let s = seq![(stack_page(), stack_page())];
        assert(s.drop_last() =~= Seq::<(int, int)>::empty());
        assert(pages_in(s.drop_last()) == 0);
    }
}

impl ImagePlan {
    /// The image once its pages are mapped in the address space `pml4`.
    pub fn loaded_at(&self, pml4: u64) -> (r: LoadedImage)
        ensures
            r.pml4 == pml4,
            r.entry == self.entry,
            r.stack_pointer == self.stack_pointer,
            r.map == self.map,
    {
        LoadedImage {
            pml4,
            entry: self.entry,
            stack_pointer: self.stack_pointer,
            map: self.map,
        }
    }
}

/// An image that may be loaded never asks for a page twice, nor for the
/// stack's, nor for more pages than an image may have.
pub proof fn accepted_pages_are_apart(base: Seq<u64>, image: Seq<u8>, block: Block)
    requires
        load_fault(base, image, block) is None,
    ensures
        ({
            let h = header_in(image);
            let c = claims(image, h, h.phnum as int);
            &&& 2 <= c.len() <= MAX_LOAD_SEGMENTS + 1
            &&& c[0] == (stack_page(), stack_page())
            &&& forall|a: int, b: int|
                #![trigger c[a], c[b]]
                0 <= a < b < c.len() ==> !overlap(c[a], c[b])
            &&& pages_in(c) <= MAX_IMAGE_PAGES
        }),
{
    let h = header_in(image);
    claims_are_ranges(image, h, base, h.phnum as int);
    claims_bounded(image, h, base, h.phnum as int);
}

/// Every segment of an image that may be loaded lies within its file, in the
/// lower half, and in slots of the top-level page table that the base
/// address space does not use.
pub proof fn accepted_segments_are_private(base: Seq<u64>, image: Seq<u8>, block: Block, i: int)
    requires
        load_fault(base, image, block) is None,
        0 <= i < header_in(image).phnum,
        is_load(program_header_in(image, header_in(image), i)),
    ensures
        ({
            let ph = program_header_in(image, header_in(image), i);
            &&& segment_fits(image, ph)
            &&& slots_unused(base, ph.p_vaddr, (ph.p_vaddr + ph.p_memsz - 1) as u64)
        }),
{
    no_fault_at(image, header_in(image), base, 0, i);
}

} // verus!
