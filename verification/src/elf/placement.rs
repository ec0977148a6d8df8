//! Where the bytes of an image end up, and which images may be loaded.
use vstd::prelude::*;

use crate::elf::check::{
    claims, first_fault, header_entry_fault, is_load, overlap, page_range, pages_in, segment_fault,
    stack_page,
};
use crate::elf::header::{header_in, program_header_in, ElfError, Header, ProgramHeader};
use crate::elf::load::{
    claims_are_ranges, claims_bounded, image_memory, image_pages, load_fault, no_fault_at,
    pages_view, plans, segment_flags, segment_memory, segment_page, segment_pages, ImagePlan,
};
use crate::elf::stack::Block;
use crate::memory::map::Segment;
use crate::memory::paging::slots_unused;

verus! {

/// Where the fields of an image's header are: little-endian numbers at fixed
/// places.
pub proof fn header_fields(image: Seq<u8>)
    requires
        image.len() >= 64,
    ensures
        header_in(image).entry == image[24] + 0x100 * image[25] + 0x1_0000 * image[26] + 0x100_0000
            * image[27] + 0x1_0000_0000 * image[28] + 0x100_0000_0000 * image[29]
            + 0x1_0000_0000_0000 * image[30] + 0x100_0000_0000_0000 * image[31],
        header_in(image).phoff == image[32] + 0x100 * image[33] + 0x1_0000 * image[34] + 0x100_0000
            * image[35] + 0x1_0000_0000 * image[36] + 0x100_0000_0000 * image[37]
            + 0x1_0000_0000_0000 * image[38] + 0x100_0000_0000_0000 * image[39],
        header_in(image).phentsize == image[54] + 0x100 * image[55],
        header_in(image).phnum == image[56] + 0x100 * image[57],
{
}

/// Where the fields of program header `i` are.
pub proof fn program_header_fields(image: Seq<u8>, i: int)
    requires
        image.len() >= 64,
        0 <= i,
    ensures
        ({
            let h = header_in(image);
            let ph = program_header_in(image, h, i);
            let at = h.phoff + i * h.phentsize;
            &&& ph.p_type == image[at] + 0x100 * image[at + 1] + 0x1_0000 * image[at + 2]
                + 0x100_0000 * image[at + 3]
            &&& ph.p_flags == image[at + 4] + 0x100 * image[at + 5] + 0x1_0000 * image[at + 6]
                + 0x100_0000 * image[at + 7]
            &&& ph.p_offset == image[at + 8] + 0x100 * image[at + 9] + 0x1_0000 * image[at + 10]
                + 0x100_0000 * image[at + 11] + 0x1_0000_0000 * image[at + 12] + 0x100_0000_0000
                * image[at + 13] + 0x1_0000_0000_0000 * image[at + 14] + 0x100_0000_0000_0000
                * image[at + 15]
            &&& ph.p_vaddr == image[at + 16] + 0x100 * image[at + 17] + 0x1_0000 * image[at + 18]
                + 0x100_0000 * image[at + 19] + 0x1_0000_0000 * image[at + 20] + 0x100_0000_0000
                * image[at + 21] + 0x1_0000_0000_0000 * image[at + 22] + 0x100_0000_0000_0000
                * image[at + 23]
            &&& ph.p_filesz == image[at + 32] + 0x100 * image[at + 33] + 0x1_0000 * image[at + 34]
                + 0x100_0000 * image[at + 35] + 0x1_0000_0000 * image[at + 36] + 0x100_0000_0000
                * image[at + 37] + 0x1_0000_0000_0000 * image[at + 38] + 0x100_0000_0000_0000
                * image[at + 39]
            &&& ph.p_memsz == image[at + 40] + 0x100 * image[at + 41] + 0x1_0000 * image[at + 42]
                + 0x100_0000 * image[at + 43] + 0x1_0000_0000 * image[at + 44] + 0x100_0000_0000
                * image[at + 45] + 0x1_0000_0000_0000 * image[at + 46] + 0x100_0000_0000_0000
                * image[at + 47]
        }),
{
}

/// Whether page `j` of a plan holds the byte at address `a`.
pub open spec fn holds(plan: ImagePlan, j: int, a: int) -> bool {
    0 <= j < plan.pages@.len() && plan.pages@[j].addr <= a < plan.pages@[j].addr + 4096
}

/// Page number `r` of the segment of program header `i` is planned.
proof fn segment_page_is_planned(image: Seq<u8>, h: Header, n: int, i: int, r: int) -> (j: int)
    requires
        0 <= i < n,
        is_load(program_header_in(image, h, i)),
        page_range(program_header_in(image, h, i)).0 <= r <= page_range(
            program_header_in(image, h, i),
        ).1,
    ensures
        0 <= j < image_pages(image, h, n).len(),
        image_pages(image, h, n)[j] == segment_page(image, program_header_in(image, h, i), r),
    decreases n,
{
    let before = image_pages(image, h, n - 1);
    let ph = program_header_in(image, h, n - 1);
    if i == n - 1 {
        let j = before.len() + r - page_range(ph).0;
        assert(segment_pages(image, ph)[r - page_range(ph).0] == segment_page(image, ph, r));
        j
    } else {
        segment_page_is_planned(image, h, n - 1, i, r)
    }
}

/// Every planned page of an image is a page of one of its segments.
proof fn planned_page_is_a_segments(image: Seq<u8>, h: Header, n: int, j: int) -> (r: (int, int))
    requires
        0 <= j < image_pages(image, h, n).len(),
    ensures
        0 <= r.0 < n,
        is_load(program_header_in(image, h, r.0)),
        page_range(program_header_in(image, h, r.0)).0 <= r.1 <= page_range(
            program_header_in(image, h, r.0),
        ).1,
        image_pages(image, h, n)[j] == segment_page(image, program_header_in(image, h, r.0), r.1),
    decreases n,
{
    let before = image_pages(image, h, n - 1);
    let ph = program_header_in(image, h, n - 1);
    if j < before.len() {
        planned_page_is_a_segments(image, h, n - 1, j)
    } else {
        (n - 1, page_range(ph).0 + j - before.len())
    }
}

/// The claim of the segment of program header `i`, and where it is.
proof fn claim_of(image: Seq<u8>, h: Header, n: int, i: int)
    requires
        0 <= i < n,
        is_load(program_header_in(image, h, i)),
    ensures
        1 <= claims(image, h, i).len() < claims(image, h, n).len(),
        claims(image, h, n)[claims(image, h, i).len() as int] == page_range(
            program_header_in(image, h, i),
        ),
    decreases n,
{
    claims_start(image, h, i);
    if i < n - 1 {
        claim_of(image, h, n - 1, i);
    }
}

proof fn claims_start(image: Seq<u8>, h: Header, n: int)
    ensures
        claims(image, h, n).len() >= 1,
        claims(image, h, n)[0] == (stack_page(), stack_page()),
    decreases n,
{
    if n > 0 {
        claims_start(image, h, n - 1);
    }
}

/// Every claim but the stack's is that of a segment.
proof fn claim_is_a_segments(image: Seq<u8>, h: Header, n: int, k: int) -> (i: int)
    requires
        1 <= k < claims(image, h, n).len(),
    ensures
        0 <= i < n,
        is_load(program_header_in(image, h, i)),
        claims(image, h, n)[k] == page_range(program_header_in(image, h, i)),
        claims(image, h, i).len() == k,
    decreases n,
{
    if n <= 0 {
        0
    } else {
        let before = claims(image, h, n - 1);
        if k < before.len() {
            claim_is_a_segments(image, h, n - 1, k)
        } else {
            n - 1
        }
    }
}

/// Two segments of an accepted image have no page in common, and none with
/// the stack.
proof fn segments_are_apart(base: Seq<u64>, image: Seq<u8>, block: Block, i: int, j: int)
    requires
        load_fault(base, image, block) is None,
        0 <= i < j < header_in(image).phnum,
        is_load(program_header_in(image, header_in(image), i)),
        is_load(program_header_in(image, header_in(image), j)),
    ensures
        !overlap(
            page_range(program_header_in(image, header_in(image), i)),
            page_range(program_header_in(image, header_in(image), j)),
        ),
{
    let h = header_in(image);
    let n = h.phnum as int;
    claims_are_ranges(image, h, base, n);
    claim_of(image, h, n, i);
    claim_of(image, h, n, j);
    claim_of(image, h, j, i);
    let c = claims(image, h, n);
    let a = claims(image, h, i).len() as int;
    let b = claims(image, h, j).len() as int;
    assert(!overlap(c[a], c[b]));
}

/// In the planned pages of an accepted image, byte `k` of each segment is
/// byte `p_offset + k` of the file as far as the file has contents for it,
/// and zero behind that; there is exactly one page that holds it.
pub proof fn segments_are_where_they_belong(
    base: Seq<u64>,
    image: Seq<u8>,
    block: Block,
    plan: ImagePlan,
    i: int,
    k: int,
)
    requires
        load_fault(base, image, block) is None,
        plans(plan, image, block),
        0 <= i < header_in(image).phnum,
        program_header_in(image, header_in(image), i).p_type == 1,
        0 <= k < program_header_in(image, header_in(image), i).p_memsz,
    ensures
        ({
            let ph = program_header_in(image, header_in(image), i);
            let a = ph.p_vaddr + k;
            &&& exists|j: int| #[trigger] holds(plan, j, a)
            &&& forall|j: int| #[trigger]
                holds(plan, j, a) ==> {
                    let byte = plan.pages@[j].bytes@[a - plan.pages@[j].addr];
                    &&& plan.pages@[j].bytes@.len() == 4096
                    &&& k < ph.p_filesz ==> byte == image[ph.p_offset + k]
                    &&& k >= ph.p_filesz ==> byte == 0
                }
            &&& forall|j: int, l: int| #[trigger]
                holds(plan, j, a) && #[trigger] holds(plan, l, a) ==> j == l
        }),
{
    let h = header_in(image);
    let n = h.phnum as int;
    let ph = program_header_in(image, h, i);
    let a = ph.p_vaddr + k;
    let r = a / 4096;
    let all = image_pages(image, h, n);
    let pages = pages_view(plan.pages@);
    no_fault_at(image, h, base, 0, i);
    assert(pages == all.push(crate::elf::load::stack_model(block)));
    assert(pages.len() == plan.pages@.len());
    assert(page_range(ph).0 <= r <= page_range(ph).1);
    let at = segment_page_is_planned(image, h, n, i, r);
    assert(pages[at] == plan.pages@[at]@);
    assert(holds(plan, at, a)) by {
        assert(pages[at] == all[at]);
        assert(0 <= r * 4096 <= a < r * 4096 + 4096);
    }
    assert forall|j: int| #[trigger] holds(plan, j, a) implies {
        let byte = plan.pages@[j].bytes@[a - plan.pages@[j].addr];
        &&& plan.pages@[j].bytes@.len() == 4096
        &&& k < ph.p_filesz ==> byte == image[ph.p_offset + k]
        &&& k >= ph.p_filesz ==> byte == 0
        &&& j == at
    } by {
        assert(pages[j] == plan.pages@[j]@);
        only_page_of(base, image, block, plan, i, a, j);
        only_page_of(base, image, block, plan, i, a, at);
        let page = segment_page(image, ph, r);
        assert(page.bytes[a - r * 4096] == crate::elf::load::segment_byte(image, ph, a));
        pages_come_once(base, image, block, plan, at, j);
    }
}

/// A planned page that holds an address of a segment is that segment's.
proof fn only_page_of(
    base: Seq<u64>,
    image: Seq<u8>,
    block: Block,
    plan: ImagePlan,
    i: int,
    a: int,
    j: int,
)
    requires
        load_fault(base, image, block) is None,
        plans(plan, image, block),
        0 <= i < header_in(image).phnum,
        is_load(program_header_in(image, header_in(image), i)),
        program_header_in(image, header_in(image), i).p_vaddr <= a < program_header_in(
            image,
            header_in(image),
            i,
        ).p_vaddr + program_header_in(image, header_in(image), i).p_memsz,
        holds(plan, j, a),
    ensures
        j < image_pages(image, header_in(image), header_in(image).phnum as int).len(),
        plan.pages@[j]@ == segment_page(
            image,
            program_header_in(image, header_in(image), i),
            a / 4096,
        ),
        plan.pages@[j].addr == a / 4096 * 4096,
{
    let h = header_in(image);
    let n = h.phnum as int;
    let all = image_pages(image, h, n);
    let pages = pages_view(plan.pages@);
    let r = a / 4096;
    assert(pages.len() == plan.pages@.len());
    assert(pages[j] == plan.pages@[j]@);
    page_in_range(base, image, i, a);
    if j < all.len() {
        let (s, t) = planned_page_number(base, image, n, j);
        assert(t == r);
        if s < i {
            segments_are_apart(base, image, block, s, i);
        } else if i < s {
            segments_are_apart(base, image, block, i, s);
        }
        assert(s == i);
    } else {
        assert(pages[j].addr == 0x7777_7777_0000);
        stack_is_apart(base, image, block, i);
        assert(r == stack_page());
        assert(false);
    }
}

/// An address of a segment is in a page of its range.
proof fn page_in_range(base: Seq<u64>, image: Seq<u8>, i: int, a: int)
    requires
        0 <= i < header_in(image).phnum,
        is_load(program_header_in(image, header_in(image), i)),
        program_header_in(image, header_in(image), i).p_vaddr <= a < program_header_in(
            image,
            header_in(image),
            i,
        ).p_vaddr + program_header_in(image, header_in(image), i).p_memsz,
    ensures
        page_range(program_header_in(image, header_in(image), i)).0 <= a / 4096 <= page_range(
            program_header_in(image, header_in(image), i),
        ).1,
{
}

/// The segment and the number of a planned page.
proof fn planned_page_number(base: Seq<u64>, image: Seq<u8>, n: int, j: int) -> (r: (int, int))
    requires
        first_fault(image, header_in(image), base, 0) is None,
        0 <= n <= header_in(image).phnum,
        0 <= j < image_pages(image, header_in(image), n).len(),
    ensures
        0 <= r.0 < n,
        is_load(program_header_in(image, header_in(image), r.0)),
        page_range(program_header_in(image, header_in(image), r.0)).0 <= r.1 <= page_range(
            program_header_in(image, header_in(image), r.0),
        ).1,
        image_pages(image, header_in(image), n)[j] == segment_page(
            image,
            program_header_in(image, header_in(image), r.0),
            r.1,
        ),
        image_pages(image, header_in(image), n)[j].addr == r.1 * 4096,
{
    let h = header_in(image);
    let (s, t) = planned_page_is_a_segments(image, h, n, j);
    no_fault_at(image, h, base, 0, s);
    let ph = program_header_in(image, h, s);
    page_address_fits(ph, t);
    (s, t)
}

proof fn page_address_fits(ph: ProgramHeader, t: int)
    requires
        is_load(ph),
        ph.p_vaddr + ph.p_memsz <= 0x8000_0000_0000,
        page_range(ph).0 <= t <= page_range(ph).1,
    ensures
        0 <= t * 4096 < 0x8000_0000_0000,
{
}

/// No segment of an accepted image has a page in common with the stack.
proof fn stack_is_apart(base: Seq<u64>, image: Seq<u8>, block: Block, i: int)
    requires
        load_fault(base, image, block) is None,
        0 <= i < header_in(image).phnum,
        is_load(program_header_in(image, header_in(image), i)),
    ensures
        !overlap(
            (stack_page(), stack_page()),
            page_range(program_header_in(image, header_in(image), i)),
        ),
{
    let h = header_in(image);
    let n = h.phnum as int;
    claims_are_ranges(image, h, base, n);
    claim_of(image, h, n, i);
    let c = claims(image, h, n);
    assert(!overlap(c[0], c[claims(image, h, i).len() as int]));
}

/// No page is planned twice.
proof fn pages_come_once(
    base: Seq<u64>,
    image: Seq<u8>,
    block: Block,
    plan: ImagePlan,
    j: int,
    l: int,
)
    requires
        load_fault(base, image, block) is None,
        plans(plan, image, block),
        0 <= j < image_pages(image, header_in(image), header_in(image).phnum as int).len(),
        0 <= l < image_pages(image, header_in(image), header_in(image).phnum as int).len(),
        plan.pages@[j].addr == plan.pages@[l].addr,
    ensures
        j == l,
{
    let h = header_in(image);
    let n = h.phnum as int;
    let all = image_pages(image, h, n);
    let pages = pages_view(plan.pages@);
    assert(pages.len() == plan.pages@.len());
    assert(pages[j] == plan.pages@[j]@ && pages[l] == plan.pages@[l]@);
    assert(pages[j] == all[j] && pages[l] == all[l]);
    addresses_differ(base, image, block, n, j, l);
}

proof fn addresses_differ(base: Seq<u64>, image: Seq<u8>, block: Block, n: int, j: int, l: int)
    requires
        load_fault(base, image, block) is None,
        0 <= n <= header_in(image).phnum,
        0 <= j < image_pages(image, header_in(image), n).len(),
        0 <= l < image_pages(image, header_in(image), n).len(),
        image_pages(image, header_in(image), n)[j].addr == image_pages(
            image,
            header_in(image),
            n,
        )[l].addr,
    ensures
        j == l,
    decreases n,
{
    let h = header_in(image);
    if n > 0 {
        let before = image_pages(image, h, n - 1);
        let ph = program_header_in(image, h, n - 1);
        no_fault_at(image, h, base, 0, n - 1);
        if j < before.len() && l < before.len() {
            addresses_differ(base, image, block, n - 1, j, l);
        } else if j < before.len() || l < before.len() {
            let a = if j < before.len() {
                j
            } else {
                l
            };
            let b = if j < before.len() {
                l
            } else {
                j
            };
            let (s, t) = planned_page_is_a_segments(image, h, n - 1, a);
            no_fault_at(image, h, base, 0, s);
            segments_are_apart(base, image, block, s, n - 1);
            let u = page_range(ph).0 + b - before.len();
            assert(image_pages(image, h, n)[b] == segment_page(image, ph, u));
            assert(0 <= t * 4096 < 0x8000_0000_0000 && 0 <= u * 4096 < 0x8000_0000_0000);
            assert(t == u);
        } else {
            let t = page_range(ph).0 + j - before.len();
            let u = page_range(ph).0 + l - before.len();
            assert(image_pages(image, h, n)[j] == segment_page(image, ph, t));
            assert(image_pages(image, h, n)[l] == segment_page(image, ph, u));
            assert(0 <= t * 4096 < 0x8000_0000_0000 && 0 <= u * 4096 < 0x8000_0000_0000);
        }
    }
}

/// Every page of a segment can be read by the program; it can be written
/// exactly if the segment says so, and run exactly if the segment says so.
pub proof fn pages_have_the_segments_rights(
    base: Seq<u64>,
    image: Seq<u8>,
    block: Block,
    plan: ImagePlan,
    i: int,
    k: int,
    j: int,
)
    requires
        load_fault(base, image, block) is None,
        plans(plan, image, block),
        0 <= i < header_in(image).phnum,
        program_header_in(image, header_in(image), i).p_type == 1,
        0 <= k < program_header_in(image, header_in(image), i).p_memsz,
        holds(plan, j, program_header_in(image, header_in(image), i).p_vaddr + k),
    ensures
        ({
            let ph = program_header_in(image, header_in(image), i);
            let flags = plan.pages@[j].flags as int;
            &&& flags % 2 == 1
            &&& flags / 4 % 2 == 1
            &&& flags / 2 % 2 == (if ph.p_flags & 2 != 0 {
                1int
            } else {
                0
            })
            &&& flags / 0x8000_0000_0000_0000 == (if ph.p_flags & 1 != 0 {
                0int
            } else {
                1
            })
            &&& flags % 0x8000_0000_0000_0000 < 8
            &&& plan.pages@[j].addr % 4096 == 0
        }),
{
    let ph = program_header_in(image, header_in(image), i);
    only_page_of(base, image, block, plan, i, ph.p_vaddr + k, j);
    assert(plan.pages@[j]@.flags == plan.pages@[j].flags);
    rights_of(ph);
}

proof fn rights_of(ph: ProgramHeader)
    ensures
        ({
            let flags = segment_flags(ph) as int;
            &&& flags % 2 == 1
            &&& flags / 4 % 2 == 1
            &&& flags / 2 % 2 == (if ph.p_flags & 2 != 0 {
                1int
            } else {
                0
            })
            &&& flags / 0x8000_0000_0000_0000 == (if ph.p_flags & 1 != 0 {
                0int
            } else {
                1
            })
            &&& flags % 0x8000_0000_0000_0000 < 8
        }),
{
}

/// The program starts where its header says, its stack pointer lies in the
/// page planned for its stack, which it can read and write and not run, and
/// is a multiple of sixteen.
pub proof fn program_starts_where_its_header_says(
    base: Seq<u64>,
    image: Seq<u8>,
    block: Block,
    plan: ImagePlan,
)
    requires
        load_fault(base, image, block) is None,
        plans(plan, image, block),
    ensures
        plan.entry == header_in(image).entry,
        plan.pages@.len() > 0,
        ({
            let stack = plan.pages@.last();
            &&& stack.addr == 0x7777_7777_0000
            &&& stack.flags == 0x8000_0000_0000_0007
            &&& stack.bytes@ == block.page()
            &&& stack.addr <= plan.stack_pointer < stack.addr + 4096
            &&& plan.stack_pointer % 16 == 0
        }),
{
    let pages = pages_view(plan.pages@);
    let last = plan.pages@.len() - 1;
    assert(pages.len() == plan.pages@.len());
    assert(pages[last] == plan.pages@[last]@);
    crate::elf::stack::block_is_in_its_page(block);
}

/// The memory map of an accepted image names the pages of each segment and
/// of the stack, and nothing else: the entry of a segment starts at the page
/// of its first byte and ends behind the page of its last.
pub proof fn map_covers_the_segments(
    base: Seq<u64>,
    image: Seq<u8>,
    block: Block,
    plan: ImagePlan,
    i: int,
)
    requires
        load_fault(base, image, block) is None,
        plans(plan, image, block),
        0 <= i < header_in(image).phnum,
        is_load(program_header_in(image, header_in(image), i)),
    ensures
        plan.map@.len() == claims(image, header_in(image), header_in(image).phnum as int).len(),
        plan.map@.last() == (Segment { base: 0x7777_7777_0000, pages: 1 }),
        exists|s: int|
            0 <= s < plan.map@.len() - 1 && {
                let ph = program_header_in(image, header_in(image), i);
                let seg = #[trigger] plan.map@[s];
                &&& seg.base % 4096 == 0
                &&& seg.base <= ph.p_vaddr < seg.base + 4096
                &&& seg.base + 4096 * seg.pages >= ph.p_vaddr + ph.p_memsz
                &&& seg.base + 4096 * (seg.pages - 1) < ph.p_vaddr + ph.p_memsz
            },
{
    let h = header_in(image);
    let n = h.phnum as int;
    let ph = program_header_in(image, h, i);
    no_fault_at(image, h, base, 0, i);
    memory_of(image, h, n, i);
    let s = claims(image, h, i).len() - 1;
    let m = image_memory(image, h, n);
    claim_of(image, h, n, i);
    assert(plan.map@[s] == m[s]);
    assert(plan.map@[s] == segment_memory(ph));
    claims_are_ranges(image, h, base, i);
    memory_spans(ph);
}

proof fn memory_spans(ph: ProgramHeader)
    requires
        is_load(ph),
        ph.p_vaddr + ph.p_memsz <= 0x8000_0000_0000,
        page_range(ph).1 - page_range(ph).0 < 1024,
    ensures
        ({
            let seg = segment_memory(ph);
            &&& seg.base % 4096 == 0
            &&& seg.base <= ph.p_vaddr < seg.base + 4096
            &&& seg.base + 4096 * seg.pages >= ph.p_vaddr + ph.p_memsz
            &&& seg.base + 4096 * (seg.pages - 1) < ph.p_vaddr + ph.p_memsz
        }),
{
    let range = page_range(ph);
    assert(0 <= range.0 <= range.1 < 0x8_0000_0000);
    assert(0 <= range.0 * 4096 <= ph.p_vaddr);
}

proof fn memory_of(image: Seq<u8>, h: Header, n: int, i: int)
    ensures
        image_memory(image, h, n).len() + 1 == claims(image, h, n).len(),
        0 <= i < n && is_load(program_header_in(image, h, i)) ==> 1 <= claims(image, h, i).len()
            < claims(image, h, n).len() && image_memory(image, h, n)[claims(image, h, i).len() - 1]
            == segment_memory(program_header_in(image, h, i)),
    decreases n,
{
    if n > 0 {
        memory_of(image, h, n - 1, i);
        claims_start(image, h, i);
        claims_start(image, h, n - 1);
    }
}

/// What an image has to be like to be loaded, said of its bytes and of its
/// headers: nothing else is asked, and nothing less.
pub open spec fn loadable(base: Seq<u64>, image: Seq<u8>, block: Block) -> bool {
    let h = header_in(image);
    let n = h.phnum as int;
    &&& image.len() >= 64
    &&& image[0] == 0x7f && image[1] == 0x45 && image[2] == 0x4c && image[3] == 0x46
    &&& image[4] == 2 && image[5] == 1
    &&& block.size() <= 2048
    &&& h.entry < 0x8000_0000_0000
    &&& h.phnum <= 64
    &&& slots_unused(base, 0x7777_7777_0000, 0x7777_7777_0fff)
    // Every program header lies within the file.
    &&& forall|i: int|
        0 <= i < n ==> h.phentsize >= 56 && #[trigger] (i * h.phentsize) + h.phoff + 56 <= image.len()
    // So does every segment, which also lies in the lower half, where the
    // base address space has nothing.
    &&& forall|i: int| #[trigger]
        loads(image, i) ==> {
            let ph = program_header_in(image, h, i);
            &&& ph.p_filesz <= ph.p_memsz
            &&& ph.p_offset + ph.p_filesz <= image.len()
            &&& ph.p_vaddr + ph.p_memsz <= 0x8000_0000_0000
            &&& slots_unused(base, ph.p_vaddr, (ph.p_vaddr + ph.p_memsz - 1) as u64)
        }
    // No page is needed twice.
    &&& forall|i: int| #[trigger] loads(image, i) ==> !shares_page_with_stack(image, i)
    &&& forall|i: int, j: int|
        i < j && #[trigger] loads(image, i) && #[trigger] loads(image, j) ==> !share_page(image, i, j)
    // There is a segment, and there are not too many, nor too many pages.
    &&& exists|i: int| loads(image, i)
    &&& claims(image, h, n).len() <= 17
    &&& pages_in(claims(image, h, n)) <= 1024
}

/// Whether program header `i` is there and asks for memory.
pub open spec fn loads(image: Seq<u8>, i: int) -> bool {
    let ph = program_header_in(image, header_in(image), i);
    0 <= i < header_in(image).phnum && ph.p_type == 1 && ph.p_memsz != 0
}

/// Whether a byte of segment `i` is in the page of the stack.
pub open spec fn shares_page_with_stack(image: Seq<u8>, i: int) -> bool {
    let ph = program_header_in(image, header_in(image), i);
    ph.p_vaddr < 0x7777_7777_1000 && ph.p_vaddr + ph.p_memsz > 0x7777_7777_0000
}

/// Whether a byte of segment `i` and one of segment `j` are in one page.
pub open spec fn share_page(image: Seq<u8>, i: int, j: int) -> bool {
    let a = program_header_in(image, header_in(image), i);
    let b = program_header_in(image, header_in(image), j);
    a.p_vaddr as int / 4096 <= (b.p_vaddr + b.p_memsz - 1) / 4096 && b.p_vaddr as int / 4096 <= (
    a.p_vaddr + a.p_memsz - 1) / 4096
}

/// An image that has everything asked of it is loaded.
pub proof fn loadable_image_is_accepted(base: Seq<u64>, image: Seq<u8>, block: Block)
    requires
        loadable(base, image, block),
    ensures
        load_fault(base, image, block) is None,
{
    let h = header_in(image);
    let n = h.phnum as int;
    assert(image.take(4) =~= seq![0x7fu8, 0x45u8, 0x4cu8, 0x46u8]);
    let i = choose|i: int| loads(image, i);
    claim_of(image, h, n, i);
    no_fault_from(base, image, block, 0);
}

proof fn no_fault_from(base: Seq<u64>, image: Seq<u8>, block: Block, i: int)
    requires
        loadable(base, image, block),
        0 <= i,
    ensures
        first_fault(image, header_in(image), base, i) is None,
    decreases header_in(image).phnum - i,
{
    let h = header_in(image);
    let n = h.phnum as int;
    if i < n {
        no_fault_from(base, image, block, i + 1);
        let ph = program_header_in(image, h, i);
        assert((i * h.phentsize) + h.phoff + 56 <= image.len());
        if is_load(ph) {
            assert(loads(image, i));
            let c = claims(image, h, i);
            claims_start(image, h, i);
            claim_of(image, h, n, i);
            pages_grow(image, h, n, i);
            assert(0 <= ph.p_vaddr + ph.p_memsz - 1 < 0x8000_0000_0000);
            assert forall|k: int| 0 <= k < c.len() implies !overlap(#[trigger] c[k], page_range(ph)) by {
                if k == 0 {
                    assert(!shares_page_with_stack(image, i));
                } else {
                    let j = claim_is_a_segments(image, h, i, k);
                    assert(loads(image, j));
                    assert(!share_page(image, j, i));
                }
            }
            assert(segment_fault(image, ph, base, c) is None);
        }
        assert(header_entry_fault(image, h, base, i) is None);
    }
}

/// The pages of more segments are more.
proof fn pages_grow(image: Seq<u8>, h: Header, n: int, i: int)
    requires
        0 <= i < n,
        is_load(program_header_in(image, h, i)),
    ensures
        pages_in(claims(image, h, i)) + page_range(program_header_in(image, h, i)).1 - page_range(
            program_header_in(image, h, i),
        ).0 + 1 <= pages_in(claims(image, h, n)),
    decreases n,
{
    let before = claims(image, h, n - 1);
    let ph = program_header_in(image, h, n - 1);
    if is_load(ph) {
        assert(claims(image, h, n).drop_last() =~= before);
        assert(page_range(ph).0 <= page_range(ph).1);
    }
    if i < n - 1 {
        pages_grow(image, h, n - 1, i);
    }
}

/// An image that is accepted had everything asked of it.
pub proof fn accepted_image_was_loadable(base: Seq<u64>, image: Seq<u8>, block: Block)
    requires
        load_fault(base, image, block) is None,
    ensures
        loadable(base, image, block),
{
    let h = header_in(image);
    let n = h.phnum as int;
    let magic = image.take(4);
    assert(magic[0] == 0x7f && magic[1] == 0x45 && magic[2] == 0x4c && magic[3] == 0x46);
    claims_are_ranges(image, h, base, n);
    claims_bounded(image, h, base, n);
    assert(claims(image, h, n).len() >= 2) by {
        claims_start(image, h, n);
    }
    let first = claim_is_a_segments(image, h, n, 1);
    assert(loads(image, first));
    assert forall|i: int| 0 <= i < n implies h.phentsize >= 56 && #[trigger] (i * h.phentsize) + h.phoff
        + 56 <= image.len() by {
        no_fault_at(image, h, base, 0, i);
    }
    assert forall|i: int| #[trigger] loads(image, i) implies {
        let ph = program_header_in(image, h, i);
        &&& ph.p_filesz <= ph.p_memsz
        &&& ph.p_offset + ph.p_filesz <= image.len()
        &&& ph.p_vaddr + ph.p_memsz <= 0x8000_0000_0000
        &&& slots_unused(base, ph.p_vaddr, (ph.p_vaddr + ph.p_memsz - 1) as u64)
        &&& !shares_page_with_stack(image, i)
    } by {
        no_fault_at(image, h, base, 0, i);
        claims_start(image, h, i);
    }
    assert forall|i: int, j: int|
        i < j && #[trigger] loads(image, i) && #[trigger] loads(image, j) implies !share_page(
        image,
        i,
        j,
    ) by {
        segments_are_apart(base, image, block, i, j);
    }
}

/// Why an image is refused at first sight: it is shorter than a header, does
/// not start with the four bytes that mark the format, or is not for a
/// little-endian machine of 64 bits. Then its arguments are looked at, and
/// only then its segments.
pub proof fn first_sight_comes_first(base: Seq<u64>, image: Seq<u8>, block: Block)
    ensures
        ({
            let marked = image[0] == 0x7f && image[1] == 0x45 && image[2] == 0x4c && image[3] == 0x46;
            let fits = image[4] == 2 && image[5] == 1;
            let fault = load_fault(base, image, block);
            &&& image.len() < 64 ==> fault == Some(ElfError::TooSmall)
            &&& image.len() >= 64 && !marked ==> fault == Some(ElfError::NotElf)
            &&& image.len() >= 64 && marked && !fits ==> fault == Some(ElfError::NotElf64)
            &&& image.len() >= 64 && marked && fits && block.size() > 2048 ==> fault == Some(
                ElfError::ArgsTooLarge,
            )
        }),
{
    let m = seq![0x7fu8, 0x45u8, 0x4cu8, 0x46u8];
    if image.len() >= 64 {
        let start = image.take(4);
        assert(start[0] == image[0] && start[1] == image[1] && start[2] == image[2] && start[3]
            == image[3]);
        if image[0] == 0x7f && image[1] == 0x45 && image[2] == 0x4c && image[3] == 0x46 {
            assert(start =~= m);
        } else {
            assert(m[0] == 0x7f && m[1] == 0x45 && m[2] == 0x4c && m[3] == 0x46);
        }
    }
}

} // verus!
