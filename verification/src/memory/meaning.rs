//! What page tables, memory maps and frame lists mean.
use vstd::prelude::*;

use crate::bytes::{le64, overwrite, same_word, stored_word, word_bytes};
use crate::memory::copy::{
    copies_between, copy_fault, fork_source, puts, room, span, writable_part, CopyError, PageCopy,
    WindowModel,
};
use crate::memory::cow::{
    added, dropped, is_own, mapping_of, moved, opened, owned_pages, protected, Mapping, COW,
};
use crate::memory::frames::{
    frame_in_region, frame_ok, frames_in, nth_frame, regions_ok, FrameModel, Region,
};
use crate::memory::map::{page_list, segment_pages, Segment};
use crate::memory::paging::{slots_unused, WRITABLE};
use crate::memory::space::{
    entry, entry_frame, frame_copied, frames_below, private_below, private_frames, subtree,
};
use crate::memory::steps::{following, BuildStep};
use crate::memory::walk::{mapped, page_at, seen, walk, Mapped};

verus! {

/// An address is mapped by way of four tables: its bits from 39 on select
/// the entry of the first, those from 30 on that of the second, those from
/// 21 on that of the third, and those from 12 on that of the last, nine bits
/// each; the page is the one that the last entry points at.
pub proof fn four_tables_lead_to_a_page(mem: Seq<u8>, pml4: u64, addr: u64, t3: u64, t2: u64, t1: u64)
    requires
        addr < 0x8000_0000_0000,
        frame_ok(mem.len(), pml4),
        frame_ok(mem.len(), t3),
        frame_ok(mem.len(), t2),
        frame_ok(mem.len(), t1),
        entry_frame(entry(mem, pml4, addr as int / 0x80_0000_0000 % 512)) == Some(t3),
        entry_frame(entry(mem, t3, addr as int / 0x4000_0000 % 512)) == Some(t2),
        entry_frame(entry(mem, t2, addr as int / 0x20_0000 % 512)) == Some(t1),
        entry(mem, pml4, addr as int / 0x80_0000_0000 % 512) != 0,
        entry(mem, t3, addr as int / 0x4000_0000 % 512) != 0,
        entry(mem, t2, addr as int / 0x20_0000 % 512) != 0,
    ensures
        ({
            let i = addr as int / 0x1000 % 512;
            let e = entry(mem, t1, i);
            &&& e == 0 ==> mapped(mem, pml4, addr) is None
            &&& e != 0 ==> mapped(mem, pml4, addr) == Some(
                Mapped { at: (t1 + 8 * i) as u64, entry: e, level: 1 },
            )
            &&& e != 0 && (e & 0x000f_ffff_ffff_f000) % 4096 == 0 && (e & 0x000f_ffff_ffff_f000)
                + 4096 <= mem.len() ==> page_at(mem, pml4, addr) == Some(e & 0x000f_ffff_ffff_f000)
        }),
{
    let i = addr as int / 0x1000 % 512;
    let e = entry(mem, t1, i);
    let m = Mapped { at: (t1 + 8 * i) as u64, entry: e, level: 1 };
    assert(mapped(mem, pml4, addr) == (if e == 0 {
        None
    } else {
        Some(m)
    })) by {
        reveal(mapped);
        assert(walk(mem, t1, 1, addr) == (if e == 0 {
            None
        } else {
            Some(m)
        }));
        assert(walk(mem, t2, 2, addr) == walk(mem, t1, 1, addr));
        assert(walk(mem, t3, 3, addr) == walk(mem, t2, 2, addr));
        assert(walk(mem, pml4, 4, addr) == walk(mem, t3, 3, addr));
    }
    place_in_page(m, addr);
}

proof fn place_in_page(m: Mapped, addr: u64)
    requires
        m.level == 1,
    ensures
        (m.entry & 0x000f_ffff_ffff_f000) % 4096 == 0 ==> m.page(addr) == m.entry
            & 0x000f_ffff_ffff_f000,
{
}

/// An entry of the second level that maps a huge page maps two megabytes of
/// memory: each page of them by its place among them.
pub proof fn huge_page_is_mapped_whole(mem: Seq<u8>, pml4: u64, addr: u64, t3: u64, t2: u64)
    requires
        addr < 0x8000_0000_0000,
        frame_ok(mem.len(), pml4),
        frame_ok(mem.len(), t3),
        frame_ok(mem.len(), t2),
        entry_frame(entry(mem, pml4, addr as int / 0x80_0000_0000 % 512)) == Some(t3),
        entry_frame(entry(mem, t3, addr as int / 0x4000_0000 % 512)) == Some(t2),
        entry(mem, pml4, addr as int / 0x80_0000_0000 % 512) != 0,
        entry(mem, t3, addr as int / 0x4000_0000 % 512) != 0,
        entry(mem, t2, addr as int / 0x20_0000 % 512) != 0,
        entry(mem, t2, addr as int / 0x20_0000 % 512) & 0x1 != 0,
        entry(mem, t2, addr as int / 0x20_0000 % 512) & 0x80 != 0,
    ensures
        ({
            let i = addr as int / 0x20_0000 % 512;
            let e = entry(mem, t2, i);
            let m = Mapped { at: (t2 + 8 * i) as u64, entry: e, level: 2 };
            let start = (e & 0x000f_ffff_ffff_f000) as int / 0x20_0000 * 0x20_0000;
            &&& mapped(mem, pml4, addr) == Some(m)
            &&& m.page(addr) <= start + addr as int % 0x20_0000 < m.page(addr) + 4096
            &&& m.page(addr) % 4096 == 0
        }),
{
    let i = addr as int / 0x20_0000 % 512;
    let e = entry(mem, t2, i);
    assert(mapped(mem, pml4, addr) == Some(
        Mapped { at: (t2 + 8 * i) as u64, entry: e, level: 2 },
    )) by {
        reveal(mapped);
        assert(walk(mem, t3, 3, addr) == walk(mem, t2, 2, addr));
        assert(walk(mem, pml4, 4, addr) == walk(mem, t3, 3, addr));
    }
    place_in_huge_page(Mapped { at: (t2 + 8 * i) as u64, entry: e, level: 2 }, addr);
}

proof fn place_in_huge_page(m: Mapped, addr: u64)
    requires
        m.level == 2,
    ensures
        ({
            let start = (m.entry & 0x000f_ffff_ffff_f000) as int / 0x20_0000 * 0x20_0000;
            &&& m.page(addr) <= start + addr as int % 0x20_0000 < m.page(addr) + 4096
            &&& m.page(addr) % 4096 == 0
        }),
{
}

/// What is not mapped: an address that no table entry leads to, and one that
/// is not an address at all.
pub proof fn what_is_not_mapped(mem: Seq<u8>, pml4: u64, addr: u64)
    ensures
        0x8000_0000_0000 <= addr < 0xffff_8000_0000_0000 ==> mapped(mem, pml4, addr) is None,
        entry(mem, pml4, addr as int / 0x80_0000_0000 % 512) == 0 ==> mapped(mem, pml4, addr) is None,
        !frame_ok(mem.len(), pml4) ==> mapped(mem, pml4, addr) is None,
{
    reveal(mapped);
}

/// A memory map lists the pages of each of its segments, from the first on,
/// and no others.
pub proof fn map_lists_the_pages_of_its_segments(segments: Seq<Segment>, s: int, k: int)
    requires
        0 <= s < segments.len(),
        0 <= k < segments[s].pages,
    ensures
        page_list(segments).contains((segments[s].base + 4096 * k) as u64),
    decreases segments.len(),
{
    let front = segments.drop_last();
    let last = segment_pages(segments.last(), segments.last().pages as nat);
    if s < front.len() {
        assert(front[s] == segments[s]);
        map_lists_the_pages_of_its_segments(front, s, k);
        let i = page_list(front).index_of((segments[s].base + 4096 * k) as u64);
        assert(page_list(segments)[i] == page_list(front)[i]);
    } else {
        assert(last[k] == (segments[s].base + 4096 * k) as u64);
        assert(page_list(segments)[page_list(front).len() + k] == last[k]);
    }
}

/// Every page that a memory map lists is one of a segment.
pub proof fn listed_page_is_of_a_segment(segments: Seq<Segment>, i: int)
    requires
        0 <= i < page_list(segments).len(),
    ensures
        exists|s: int, k: int|
            #![trigger page_of_segment(segments[s], k)]
            0 <= s < segments.len() && 0 <= k < segments[s].pages && page_list(segments)[i]
                == page_of_segment(segments[s], k),
    decreases segments.len(),
{
    let front = segments.drop_last();
    let n = page_list(front).len() as int;
    if i < n {
        listed_page_is_of_a_segment(front, i);
        let (s, k) = choose|s: int, k: int|
            #![trigger page_of_segment(front[s], k)]
            0 <= s < front.len() && 0 <= k < front[s].pages && page_list(front)[i]
                == page_of_segment(front[s], k);
        assert(front[s] == segments[s]);
        assert(page_list(segments)[i] == page_of_segment(segments[s], k));
    } else {
        let s = segments.len() - 1;
        assert(page_list(segments)[i] == page_of_segment(segments[s], i - n));
    }
}

/// The address of page `k` of a segment.
pub open spec fn page_of_segment(s: Segment, k: int) -> u64 {
    (s.base + 4096 * k) as u64
}

/// A copy goes through exactly if every byte of it is mapped on both sides;
/// otherwise it stops at the first that is not, and says which side.
pub proof fn copy_stops_where_something_is_missing(
    src: WindowModel,
    s: int,
    dst: WindowModel,
    d: int,
    from: int,
    len: int,
)
    requires
        0 <= from,
    ensures
        match copy_fault(src, s, dst, d, from, len) {
            None => forall|i: int|
                from <= i < len ==> src.phys(s + i) is Some && (#[trigger] dst.phys(d + i)) is Some,
            Some((k, e)) => {
                &&& from <= k < len
                &&& forall|i: int|
                    from <= i < k ==> src.phys(s + i) is Some && (#[trigger] dst.phys(d + i)) is Some
                &&& e == CopyError::SrcNotMapped <==> src.phys(s + k) is None
                &&& e == CopyError::DstNotMapped <==> src.phys(s + k) is Some && dst.phys(d + k) is None
            },
        },
    decreases len - from,
{
    if from < len && src.phys(s + from) is Some && dst.phys(d + from) is Some {
        copy_stops_where_something_is_missing(src, s, dst, d, from + 1, len);
    }
}

/// The byte at an address is in the page that holds it, as far behind its
/// start as the address is behind that of its page.
pub proof fn bytes_are_in_their_page(w: WindowModel, a: int, p: u64)
    requires
        0 <= a,
        w.pages[a / 4096 - w.first_page] == Some(p),
    ensures
        w.phys(a) is Some,
        w.phys(a)->0 - p == a - a / 4096 * 4096,
        p <= w.phys(a)->0 < p + 4096,
{
}

/// A frame that is handed out fresh is a whole frame of a region that may be
/// used.
pub proof fn frames_come_from_usable_memory(regions: Seq<Region>, k: int, len: nat)
    requires
        0 <= k,
        nth_frame(regions, k) is Some,
        regions_ok(regions, len),
        len <= u64::MAX,
    ensures
        frame_ok(len, nth_frame(regions, k)->0),
        exists|i: int|
            0 <= i < regions.len() && (#[trigger] regions[i]).usable && regions[i].start_frame * 4096
                <= nth_frame(regions, k)->0 && nth_frame(regions, k)->0 + 4096
                <= regions[i].end_frame * 4096,
{
    let i = frame_in_region(regions, k, len);
    nth_is_whole(regions, k, len);
    assert(regions[i].usable);
    assert(0 < regions[i].start_frame && regions[i].end_frame * 4096 <= len);
    let f = nth_frame(regions, k)->0;
    assert(f % 4096 == 0);
    assert(f / 4096 < regions[i].end_frame);
}

proof fn nth_is_whole(regions: Seq<Region>, k: int, len: nat)
    requires
        0 <= k,
        nth_frame(regions, k) is Some,
        regions_ok(regions, len),
        len <= u64::MAX,
    ensures
        nth_frame(regions, k)->0 % 4096 == 0,
    decreases regions.len(),
{
    let r = regions[0];
    if k < frames_in(r) {
        assert(regions[0].end_frame * 4096 <= len);
        assert(0 <= (r.start_frame + k) * 4096 <= u64::MAX);
    } else {
        let rest = regions.skip(1);
        assert forall|i: int|
            0 <= i < rest.len() && frames_in(#[trigger] rest[i]) > 0 implies 0 < rest[i].start_frame
            && rest[i].end_frame * 4096 <= len by {
            assert(rest[i] == regions[i + 1]);
        }
        nth_is_whole(rest, k - frames_in(r), len);
    }
}

/// Every frame of a usable region is handed out in its turn.
pub proof fn every_usable_frame_has_its_turn(regions: Seq<Region>, i: int, n: u64) -> (k: int)
    requires
        0 <= i < regions.len(),
        regions[i].usable,
        regions[i].start_frame <= n < regions[i].end_frame,
    ensures
        0 <= k,
        nth_frame(regions, k) == Some((n * 4096) as u64),
    decreases regions.len(),
{
    if i == 0 {
        n - regions[0].start_frame
    } else {
        let rest = regions.skip(1);
        assert(rest[i - 1] == regions[i]);
        let k = every_usable_frame_has_its_turn(rest, i - 1, n);
        k + frames_in(regions[0])
    }
}

/// Frames in use are counted: one more for each handed out, one less for
/// each that comes back.
pub proof fn frames_in_use_are_counted(a: FrameModel, f: u64)
    ensures
        a.allocated().in_use == a.in_use + 1,
        a.in_use > 0 ==> a.freed(f).in_use == a.in_use - 1,
        a.freed(f).next == a.next,
        a.freed(f).free.len() == a.free.len() + 1,
        a.freed(f).free[0] == f,
{
}

/// Sharing a page and making it private again change whether it can be
/// written to and whether it is marked, and nothing else; a shared page is
/// in the same frame, so both sides see the same bytes.
pub proof fn sharing_changes_nothing_else(page: Mapping, frame: u64, mem: Seq<u8>)
    ensures
        page.shared().flags & !(WRITABLE | COW) == page.flags & !(WRITABLE | COW),
        page.private(frame).flags & !(WRITABLE | COW) == page.flags & !(WRITABLE | COW),
        page.shared().bytes(mem) == page.bytes(mem),
        page.private(frame).frame == frame,
        page.flags & WRITABLE == 0 ==> page.shared() == page,
{
    let f = page.flags;
    assert(((f & !2u64) | 0x200u64) & !(2u64 | 0x200u64) == f & !(2u64 | 0x200u64) && ((f
        & !0x200u64) | 2u64) & !(2u64 | 0x200u64) == f & !(2u64 | 0x200u64)) by (bit_vector);
}

/// An entry of a page table and the page it maps say the same.
pub proof fn entry_and_page_say_the_same(e: u64)
    ensures
        mapping_of(e).entry() == e,
{
    assert((e & 0x000f_ffff_ffff_f000u64) | (e & !0x000f_ffff_ffff_f000u64) == e) by (bit_vector);
}

/// Sharing a page counts one more mapping of its frame and of no other.
pub proof fn sharers_are_counted(extra: Seq<u32>, page: Mapping, f: int)
    requires
        0 <= page.frame_nr() < extra.len(),
        0 <= f < extra.len(),
        extra[page.frame_nr()] < u32::MAX,
    ensures
        ({
            let more = added(extra, seq![page]);
            &&& more[page.frame_nr()] == extra[page.frame_nr()] + 1
            &&& f != page.frame_nr() ==> more[f] == extra[f]
            &&& dropped(more, page.frame_nr()) == extra
        }),
        f != page.frame_nr() ==> dropped(extra, page.frame_nr())[f] == extra[f],
        extra[page.frame_nr()] > 0 ==> dropped(extra, page.frame_nr())[page.frame_nr()]
            == extra[page.frame_nr()] - 1,
{
    let one = seq![page];
    assert(one.drop_last() =~= Seq::<Mapping>::empty());
    assert(added(extra, one.drop_last()) == extra);
    assert(dropped(added(extra, one), page.frame_nr()) =~= extra);
}

/// An entry leads to the frame in its bits 12 to 51 if its lowest bit says
/// that it is present and bit 7 does not say that it maps a huge page.
pub proof fn entry_leads_to_its_frame(e: u64)
    ensures
        e & 0x1 == 0 || e & 0x80 != 0 ==> entry_frame(e) is None,
        e & 0x1 != 0 && e & 0x80 == 0 ==> entry_frame(e) == Some(e & 0x000f_ffff_ffff_f000),
{
}

/// A window shows for every address within it the page that the address
/// space maps there.
pub proof fn window_shows_what_is_mapped(mem: Seq<u8>, pml4: u64, addr: u64, len: int, a: int)
    requires
        addr <= a < addr + len,
        addr + len <= u64::MAX,
    ensures
        ({
            let page = page_at(mem, pml4, (a / 4096 * 4096) as u64);
            &&& page is None ==> seen(mem, pml4, addr, len).phys(a) is None
            &&& page is Some ==> seen(mem, pml4, addr, len).phys(a) == Some(
                page->0 + a - a / 4096 * 4096,
            )
        }),
{
    let w = seen(mem, pml4, addr, len);
    let k = a / 4096 - w.first_page;
    assert(0 <= k < w.pages.len());
    assert((w.first_page + k) * 4096 == a / 4096 * 4096);
}

/// A page is forked as it is mapped: from the entry that maps it, with the
/// frame and the rights that the entry gives it. One that is not mapped, or
/// that is part of a huge page, is not.
pub proof fn page_is_forked_as_it_is_mapped(
    mem: Seq<u8>,
    pml4: u64,
    base: Seq<u64>,
    page: u64,
    m: Mapped,
)
    requires
        page + 4096 <= u64::MAX,
        slots_unused(base, page, (page + 4095) as u64),
    ensures
        mapped(mem, pml4, page) is None ==> fork_source(mem, pml4, base, page) is None,
        mapped(mem, pml4, page) == Some(m) && m.level != 1 ==> fork_source(mem, pml4, base, page) is None,
        mapped(mem, pml4, page) == Some(m) && m.level == 1 ==> fork_source(mem, pml4, base, page)
            == Some(PageCopy { page, at: m.at, source: mapping_of(m.entry) }),
{
}

/// Once an address space is shared, the entry of every page of it is the one
/// of a shared page, and nothing else in memory has changed.
pub proof fn every_shared_page_is_protected(mem: Seq<u8>, copies: Seq<PageCopy>, n: int, i: int, k: int)
    requires
        0 <= i < n <= copies.len(),
        forall|j: int| 0 <= j < copies.len() ==> (#[trigger] copies[j]).at + 8 <= mem.len(),
        forall|j: int|
            0 <= j < copies.len() && j != i ==> (#[trigger] copies[j]).at + 8 <= copies[i].at
                || copies[i].at + 8 <= copies[j].at,
        0 <= k < mem.len(),
        forall|j: int|
            0 <= j < copies.len() ==> k < (#[trigger] copies[j]).at || copies[j].at + 8 <= k,
    ensures
        le64(protected(mem, copies, n), copies[i].at as int) == copies[i].source.shared().entry(),
        protected(mem, copies, n)[k] == mem[k],
        protected(mem, copies, n).len() == mem.len(),
    decreases n,
{
    let before = protected(mem, copies, n - 1);
    let last = copies[n - 1];
    let bytes = word_bytes(last.source.shared().entry());
    assert(last.at + 8 <= mem.len());
    if i < n - 1 {
        every_shared_page_is_protected(mem, copies, n - 1, i, k);
        same_word(before, overwrite(before, last.at as int, bytes), copies[i].at as int);
    } else {
        untouched(mem, copies, n - 1, k);
        stored_word(before, last.at as int, last.source.shared().entry());
    }
}

proof fn untouched(mem: Seq<u8>, copies: Seq<PageCopy>, n: int, k: int)
    requires
        0 <= n <= copies.len(),
        0 <= k < mem.len(),
        forall|j: int|
            0 <= j < copies.len() ==> k < (#[trigger] copies[j]).at || copies[j].at + 8 <= k,
    ensures
        protected(mem, copies, n).len() == mem.len(),
        protected(mem, copies, n)[k] == mem[k],
    decreases n,
{
    if n > 0 {
        untouched(mem, copies, n - 1, k);
        assert(k < copies[n - 1].at || copies[n - 1].at + 8 <= k);
    }
}

/// An address space is built page by page, from the first to the last.
pub proof fn pages_are_built_in_order(n: int, k: int)
    requires
        0 <= n <= usize::MAX,
        -1 <= k < n || k == -1,
    ensures
        k + 1 < n ==> following(n, k) == BuildStep::Next((k + 1) as usize),
        k + 1 >= n ==> following(n, k) == BuildStep::Done,
{
}

/// An entry of the third level may map a whole gigabyte in the same way; one
/// of the fourth maps nothing by itself.
pub proof fn larger_pages_are_mapped_whole(mem: Seq<u8>, pml4: u64, addr: u64, t3: u64)
    requires
        addr < 0x8000_0000_0000,
        frame_ok(mem.len(), pml4),
        entry(mem, pml4, addr as int / 0x80_0000_0000 % 512) != 0,
        entry(mem, pml4, addr as int / 0x80_0000_0000 % 512) & 0x1 != 0,
    ensures
        entry(mem, pml4, addr as int / 0x80_0000_0000 % 512) & 0x80 != 0 ==> mapped(mem, pml4, addr) is None,
        ({
            let i = addr as int / 0x4000_0000 % 512;
            let e = entry(mem, t3, i);
            frame_ok(mem.len(), t3) && entry_frame(
                entry(mem, pml4, addr as int / 0x80_0000_0000 % 512),
            ) == Some(t3) && e != 0 && e & 0x1 != 0 && e & 0x80 != 0 ==> mapped(mem, pml4, addr)
                == Some(Mapped { at: (t3 + 8 * i) as u64, entry: e, level: 3 })
        }),
{
    reveal(mapped);
    let i = addr as int / 0x4000_0000 % 512;
    let e = entry(mem, t3, i);
    if frame_ok(mem.len(), t3) && entry_frame(
        entry(mem, pml4, addr as int / 0x80_0000_0000 % 512),
    ) == Some(t3) {
        assert(walk(mem, pml4, 4, addr) == walk(mem, t3, 3, addr));
    }
}

/// The page of an address within a gigabyte that is mapped whole.
pub proof fn place_in_a_larger_page(m: Mapped, addr: u64)
    requires
        m.level == 3,
    ensures
        ({
            let start = (m.entry & 0x000f_ffff_ffff_f000) as int / 0x4000_0000 * 0x4000_0000;
            &&& m.page(addr) <= start + addr as int % 0x4000_0000 < m.page(addr) + 4096
            &&& m.page(addr) % 4096 == 0
        }),
{
}

/// Whether the page at address `page` is mapped for writing, to memory that
/// is in use.
pub open spec fn may_be_written(mem: Seq<u8>, a: FrameModel, pml4: u64, page: u64) -> bool {
    &&& mapped(mem, pml4, page) matches Some(m) && m.entry & 0x2 != 0
    &&& page_at(mem, pml4, page) matches Some(p) && !a.free.contains(p)
}

/// Whether every page of the `len` bytes at `addr` may be written to.
pub open spec fn all_may_be_written(mem: Seq<u8>, a: FrameModel, pml4: u64, addr: u64, len: int) -> bool {
    forall|k: int|
        addr as int / 4096 <= k && k * 4096 < addr + len ==> may_be_written(
            mem,
            a,
            pml4,
            #[trigger] ((k * 4096) as u64),
        )
}

proof fn nothing_to_own(
    mem: Seq<u8>,
    a: FrameModel,
    extra: Seq<u32>,
    pml4: u64,
    addr: u64,
    len: int,
    n: int,
)
    requires
        0 <= n <= span(addr, len),
        addr + len <= u64::MAX,
        all_may_be_written(mem, a, pml4, addr, len),
    ensures
        owned_pages(mem, a, extra, pml4, addr as int / 4096, n) == ((mem, a, extra), n),
    decreases n,
{
    if n > 0 {
        nothing_to_own(mem, a, extra, pml4, addr, len, n - 1);
        let k = addr as int / 4096 + n - 1;
        assert(k * 4096 < addr + len);
        assert(may_be_written(mem, a, pml4, (k * 4096) as u64));
    }
}

proof fn all_is_there(mem: Seq<u8>, a: FrameModel, pml4: u64, addr: u64, len: int, i: int)
    requires
        0 <= i < len,
        addr + len <= u64::MAX,
        all_may_be_written(mem, a, pml4, addr, len),
    ensures
        writable_part(seen(mem, pml4, addr, len), span(addr, len), a.free).phys(addr + i) is Some,
{
    let w = seen(mem, pml4, addr, len);
    let k = (addr + i) / 4096;
    assert(k * 4096 < addr + len);
    assert(may_be_written(mem, a, pml4, (k * 4096) as u64));
    assert(w.pages[k - w.first_page] == page_at(mem, pml4, (k * 4096) as u64));
}

/// A write to pages that may be written to succeeds, takes no frame and
/// changes nothing about who maps what.
pub proof fn write_to_own_pages_succeeds(
    mem: Seq<u8>,
    a: FrameModel,
    extra: Seq<u32>,
    pml4: u64,
    addr: u64,
    bytes: Seq<u8>,
    now: Seq<u8>,
    b: FrameModel,
    left: Seq<u32>,
    r: Result<(), CopyError>,
)
    requires
        puts(mem, a, extra, pml4, addr, bytes, now, b, left, r),
        addr + bytes.len() <= u64::MAX,
        all_may_be_written(mem, a, pml4, addr, bytes.len() as int),
    ensures
        r is Ok,
        b == a,
        left == extra,
{
    let len = bytes.len() as int;
    nothing_to_own(mem, a, extra, pml4, addr, len, span(addr, len));
    let w = writable_part(seen(mem, pml4, addr, len), span(addr, len), a.free);
    assert forall|i: int| 0 <= i < len implies (#[trigger] w.phys(addr + i)) is Some by {
        all_is_there(mem, a, pml4, addr, len, i);
    }
    room_for_all(w, addr as int, 0, len);
}

proof fn room_for_all(w: WindowModel, d: int, i: int, len: int)
    requires
        0 <= i <= len,
        forall|k: int| i <= k < len ==> (#[trigger] w.phys(d + k)) is Some,
    ensures
        room(w, d, i, len) >= len,
    decreases len - i,
{
    if i < len {
        assert(w.phys(d + i) is Some);
        room_for_all(w, d, i + 1, len);
    }
}

/// A copy from pages that are mapped to pages that may be written to
/// succeeds.
pub proof fn copy_to_own_pages_succeeds(
    mem: Seq<u8>,
    a: FrameModel,
    extra: Seq<u32>,
    src: u64,
    src_addr: u64,
    dst: u64,
    dst_addr: u64,
    len: int,
    now: Seq<u8>,
    b: FrameModel,
    left: Seq<u32>,
    r: Result<(), CopyError>,
)
    requires
        copies_between(mem, a, extra, src, src_addr, dst, dst_addr, len, now, b, left, r),
        0 <= len,
        src_addr + len <= u64::MAX,
        dst_addr + len <= u64::MAX,
        forall|k: int|
            src_addr as int / 4096 <= k && k * 4096 < src_addr + len ==> (page_at(
                mem,
                src,
                #[trigger] ((k * 4096) as u64),
            )) is Some,
        all_may_be_written(mem, a, dst, dst_addr, len),
    ensures
        r is Ok,
        b == a,
        left == extra,
{
    nothing_to_own(mem, a, extra, dst, dst_addr, len, span(dst_addr, len));
    let from = seen(mem, src, src_addr, len);
    let to = writable_part(seen(mem, dst, dst_addr, len), span(dst_addr, len), a.free);
    assert forall|i: int| 0 <= i < len implies (#[trigger] from.phys(src_addr + i)) is Some by {
        let k = (src_addr + i) / 4096;
        assert(k * 4096 < src_addr + len);
        assert(page_at(mem, src, (k * 4096) as u64) is Some);
        window_shows_what_is_mapped(mem, src, src_addr, len, src_addr + i);
    }
    assert forall|i: int| 0 <= i < len implies (#[trigger] to.phys(dst_addr + i)) is Some by {
        all_is_there(mem, a, dst, dst_addr, len, i);
    }
    no_fault(from, src_addr as int, to, dst_addr as int, 0, len);
}

proof fn no_fault(src: WindowModel, s: int, dst: WindowModel, d: int, i: int, len: int)
    requires
        0 <= i <= len,
        forall|k: int| i <= k < len ==> (#[trigger] src.phys(s + k)) is Some,
        forall|k: int| i <= k < len ==> (#[trigger] dst.phys(d + k)) is Some,
    ensures
        copy_fault(src, s, dst, d, i, len) is None,
    decreases len - i,
{
    if i < len {
        assert(src.phys(s + i) is Some);
        assert(dst.phys(d + i) is Some);
        no_fault(src, s, dst, d, i + 1, len);
    }
}

/// A page that a fork left marked can be opened: as it is if nobody else
/// maps it any more, and in a fresh frame otherwise, as long as there is one.
/// One that may be written to already needs nothing, and one that is neither
/// cannot be opened.
pub proof fn marked_page_can_be_opened(mem: Seq<u8>, a: FrameModel, extra: Seq<u32>, m: Mapped)
    ensures
        ({
            let f = mapping_of(m.entry).frame_nr();
            let marked = m.level == 1 && m.entry & 0x2 == 0 && m.entry & 0x200 != 0;
            &&& m.entry & 0x2 != 0 ==> opened(mem, a, extra, m) == Some((mem, a, extra))
            &&& m.entry & 0x2 == 0 && m.entry & 0x200 == 0 ==> opened(mem, a, extra, m) is None
            &&& marked && extra[f] == 0 ==> (opened(mem, a, extra, m) matches Some(s) && s.1 == a && s.2
                == extra)
            &&& marked && extra[f] != 0 && a.head() is None ==> opened(mem, a, extra, m) is None
            &&& marked && extra[f] != 0 && a.head() is Some ==> (opened(mem, a, extra, m) matches Some(
                s,
            ) && s.1 == a.allocated() && s.2 == dropped(extra, f))
        }),
{
}

proof fn below_has(mem: Seq<u8>, t: u64, level: nat, n: int, i: int, g: u64, x: u64)
    requires
        level >= 1,
        0 <= i < n,
        entry_frame(entry(mem, t, i)) == Some(g),
        level == 1 ==> x == g,
        level > 1 ==> subtree(mem, g, (level - 1) as nat).contains(x),
    ensures
        frames_below(mem, t, level, n).contains(x),
    decreases n,
{
    let before = frames_below(mem, t, level, n - 1);
    if i < n - 1 {
        below_has(mem, t, level, n - 1, i, g, x);
        let k = before.index_of(x);
        assert(frames_below(mem, t, level, n)[k] == x);
    } else if level == 1 {
        assert(frames_below(mem, t, level, n)[before.len() as int] == x);
    } else {
        let k = subtree(mem, g, (level - 1) as nat).index_of(x);
        assert(frames_below(mem, t, level, n)[before.len() + k] == x);
    }
}

proof fn subtree_has(mem: Seq<u8>, t: u64, level: nat, i: int, g: u64, x: u64)
    requires
        level >= 1,
        0 <= i < 512,
        entry_frame(entry(mem, t, i)) == Some(g),
        level == 1 ==> x == g,
        level > 1 ==> subtree(mem, g, (level - 1) as nat).contains(x),
    ensures
        subtree(mem, t, level).contains(x),
{
    below_has(mem, t, level, 512, i, g, x);
    let k = frames_below(mem, t, level, 512).index_of(x);
    assert(subtree(mem, t, level)[k] == x);
}

proof fn subtree_has_its_top(mem: Seq<u8>, t: u64, level: nat)
    requires
        level >= 1,
    ensures
        subtree(mem, t, level).contains(t),
{
    assert(subtree(mem, t, level).last() == t);
}

proof fn private_has(mem: Seq<u8>, pml4: u64, base: u64, n: int, i: int, t3: u64, x: u64)
    requires
        0 <= i < n,
        entry(mem, base, i) == 0,
        entry(mem, pml4, i) != 0,
        entry_frame(entry(mem, pml4, i)) == Some(t3),
        subtree(mem, t3, 3).contains(x),
    ensures
        private_below(mem, pml4, base, n).contains(x),
    decreases n,
{
    let before = private_below(mem, pml4, base, n - 1);
    if i < n - 1 {
        private_has(mem, pml4, base, n - 1, i, t3, x);
        let k = before.index_of(x);
        assert(private_below(mem, pml4, base, n)[k] == x);
    } else {
        let k = subtree(mem, t3, 3).index_of(x);
        assert(private_below(mem, pml4, base, n)[before.len() + k] == x);
    }
}

/// The frames of an address space are its top-level table and, under every
/// slot that the kernel does not use, the tables of each level and the pages
/// that they lead to.
pub proof fn space_is_its_tables_and_pages(
    mem: Seq<u8>,
    pml4: u64,
    base: u64,
    i: int,
    t3: u64,
    j: int,
    t2: u64,
    k: int,
    t1: u64,
    l: int,
    f: u64,
)
    requires
        0 <= i < 512,
        0 <= j < 512,
        0 <= k < 512,
        0 <= l < 512,
        entry(mem, base, i) == 0,
        entry(mem, pml4, i) != 0,
        entry_frame(entry(mem, pml4, i)) == Some(t3),
        entry_frame(entry(mem, t3, j)) == Some(t2),
        entry_frame(entry(mem, t2, k)) == Some(t1),
        entry_frame(entry(mem, t1, l)) == Some(f),
    ensures
        private_frames(mem, pml4, base).contains(pml4),
        private_frames(mem, pml4, base).contains(t3),
        private_frames(mem, pml4, base).contains(t2),
        private_frames(mem, pml4, base).contains(t1),
        private_frames(mem, pml4, base).contains(f),
{
    let all = private_frames(mem, pml4, base);
    let below = private_below(mem, pml4, base, 512);
    assert(all[below.len() as int] == pml4);
    subtree_has_its_top(mem, t3, 3);
    subtree_has_its_top(mem, t2, 2);
    subtree_has_its_top(mem, t1, 1);
    subtree_has(mem, t3, 3, j, t2, t2);
    subtree_has(mem, t2, 2, k, t1, t1);
    subtree_has(mem, t3, 3, j, t2, t1);
    subtree_has(mem, t1, 1, l, f, f);
    subtree_has(mem, t2, 2, k, t1, f);
    subtree_has(mem, t3, 3, j, t2, f);
    private_has(mem, pml4, base, 512, i, t3, t3);
    private_has(mem, pml4, base, 512, i, t3, t2);
    private_has(mem, pml4, base, 512, i, t3, t1);
    private_has(mem, pml4, base, 512, i, t3, f);
    in_the_space(mem, pml4, base, t3);
    in_the_space(mem, pml4, base, t2);
    in_the_space(mem, pml4, base, t1);
    in_the_space(mem, pml4, base, f);
}

proof fn in_the_space(mem: Seq<u8>, pml4: u64, base: u64, x: u64)
    requires
        private_below(mem, pml4, base, 512).contains(x),
    ensures
        private_frames(mem, pml4, base).contains(x),
{
    let k = private_below(mem, pml4, base, 512).index_of(x);
    assert(private_frames(mem, pml4, base)[k] == x);
}

proof fn nothing_below(mem: Seq<u8>, pml4: u64, base: u64, n: int)
    requires
        0 <= n <= 512,
        forall|i: int|
            0 <= i < 512 ==> (#[trigger] entry(mem, pml4, i)) == 0 || entry(mem, base, i) != 0,
    ensures
        private_below(mem, pml4, base, n).len() == 0,
    decreases n,
{
    if n > 0 {
        nothing_below(mem, pml4, base, n - 1);
        assert(entry(mem, pml4, n - 1) == 0 || entry(mem, base, n - 1) != 0);
    }
}

/// What the kernel's slots lead to is not part of an address space: one that
/// uses no other slots is its top-level table alone.
pub proof fn kernel_slots_are_nobodys_own(mem: Seq<u8>, pml4: u64, base: u64)
    requires
        forall|i: int|
            0 <= i < 512 ==> (#[trigger] entry(mem, pml4, i)) == 0 || entry(mem, base, i) != 0,
    ensures
        private_frames(mem, pml4, base) == seq![pml4],
{
    nothing_below(mem, pml4, base, 512);
    assert(private_frames(mem, pml4, base) =~= seq![pml4]);
}

/// A page that somebody else maps too is not written to in place unless it
/// is mapped for writing, and a page that may only be read stays so when it
/// gets a frame of its own.
pub proof fn shared_page_is_not_written_in_place(
    mem: Seq<u8>,
    a: FrameModel,
    extra: Seq<u32>,
    m: Mapped,
    fresh: u64,
)
    requires
        m.level == 1,
        m.at + 8 <= mem.len(),
        mapping_of(m.entry).frame_nr() < extra.len(),
        a.head() == Some(fresh),
    ensures
        ({
            let page = mapping_of(m.entry);
            &&& m.entry & 0x2 == 0 && extra[page.frame_nr()] > 0 ==> !is_own(extra, m)
            &&& m.entry & 0x2 != 0 ==> is_own(extra, m)
            &&& m.entry & 0x200 != 0 && m.entry & 0x2 == 0 ==> !is_own(extra, m)
            &&& m.entry & 0x200 == 0 && extra[page.frame_nr()] == 0 ==> is_own(extra, m)
            &&& moved(mem, a, extra, m) matches Some(s) && s.1 == a.allocated() && s.2 == dropped(
                extra,
                page.frame_nr(),
            ) && (m.at + 8 <= fresh || fresh + 4096 <= m.at ==> le64(s.0, m.at as int) == fresh
                | page.flags)
        }),
{
    let page = mapping_of(m.entry);
    let now = frame_copied(mem, page.frame, fresh);
    stored_word(now, m.at as int, (Mapping { frame: fresh, ..page }).entry());
}

} // verus!
