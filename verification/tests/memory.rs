use neumann::calls::sys_vircopy;
use neumann::com;
use neumann::elf::load::PagePlan;
use neumann::memory::copy::{
    copy_between_address_spaces, fork_address_space, put_bytes, CopyError, PageCopy,
};
use neumann::memory::cow::{
    is_shareable, make_writable, reclaim, release_pages, share_address_space, try_make_writable,
    Mapping,
    Sharers, WriteStep, COW,
};
use neumann::memory::frames::{regions_fit, BootInfoFrameAllocator, Region};
use neumann::memory::map::{MemMap, Segment, MAX_SEGMENTS, PAGE_SIZE};
use neumann::memory::paging::{pml4_slots_unused, NO_EXECUTE, PRESENT, USER_ACCESSIBLE, WRITABLE};
use neumann::memory::space::{
    free_address_space, new_address_space_from, try_free_address_space,
};
use neumann::memory::steps::{build_step, fill_frame, first_step, fork_step, BuildStep};
use neumann::memory::walk::{find_entry, leaves, page_of};
use neumann::proc::births::spawn;
use neumann::proc::model::AddressSpace;
use neumann::proc::scheduler::Scheduler;

fn machine(frames: usize) -> (Vec<u8>, BootInfoFrameAllocator) {
    let mem = vec![0u8; frames * 4096];
    let regions = vec![
        Region { start_frame: 0, end_frame: 2, usable: false },
        Region { start_frame: 2, end_frame: frames as u64, usable: true },
    ];
    let alloc = BootInfoFrameAllocator::init(regions, &mem);
    (mem, alloc)
}

fn put_entry(mem: &mut [u8], table: u64, i: usize, e: u64) {
    let at = table as usize + 8 * i;
    mem[at..at + 8].copy_from_slice(&e.to_le_bytes());
}

fn entry(mem: &[u8], table: u64, i: usize) -> u64 {
    let at = table as usize + 8 * i;
    let mut w = [0u8; 8];
    w.copy_from_slice(&mem[at..at + 8]);
    u64::from_le_bytes(w)
}

#[test]
fn freed_frames_are_reused_last_in_first_out() {
    let (mut mem, mut alloc) = machine(16);
    let (baseline, _) = alloc.frame_stats(&mem);
    let first = alloc.allocate_frame(&mut mem).unwrap();
    let second = alloc.allocate_frame(&mut mem).unwrap();
    assert_eq!((first, second), (0x2000, 0x3000));
    assert_eq!(alloc.frame_stats(&mem).0, baseline + 2);
    alloc.deallocate_frame(&mut mem, second);
    alloc.deallocate_frame(&mut mem, first);
    assert_eq!(alloc.frame_stats(&mem), (baseline, 2));
    assert_eq!(alloc.allocate_frame(&mut mem), Some(first));
    assert_eq!(alloc.allocate_frame(&mut mem), Some(second));
    assert_eq!(alloc.allocate_frame(&mut mem), Some(0x4000));
}

#[test]
fn frames_run_out() {
    let (mut mem, mut alloc) = machine(5);
    for _ in 0..3 {
        assert!(alloc.allocate_frame(&mut mem).is_some());
    }
    assert_eq!(alloc.allocate_frame(&mut mem), None);
    assert_eq!(alloc.frame_stats(&mem), (3, 0));
}

#[test]
fn handed_out_frames_are_zero() {
    let (mut mem, mut alloc) = machine(4);
    let f = alloc.allocate_frame(&mut mem).unwrap() as usize;
    mem[f..f + 4096].fill(0xaa);
    alloc.deallocate_frame(&mut mem, f as u64);
    let again = alloc.allocate_frame(&mut mem).unwrap() as usize;
    assert_eq!(again, f);
    assert!(mem[f..f + 4096].iter().all(|&b| b == 0));
}

#[test]
fn address_spaces_come_and_go_without_a_trace() {
    let (mut mem, mut alloc) = machine(32);
    let kernel = alloc.allocate_frame(&mut mem).unwrap();
    put_entry(&mut mem, kernel, 0, 0x1000 | 3);
    let before = alloc.frame_stats(&mem).0;
    for _ in 0..5 {
        let space = new_address_space_from(&mut alloc, &mut mem, kernel).unwrap();
        assert_eq!(entry(&mem, space, 0), 0x1003);
        // A page of its own, under tables of its own.
        let mut table = space;
        for _ in 0..4 {
            let next = alloc.allocate_frame(&mut mem).unwrap();
            put_entry(&mut mem, table, 170, next | 7);
            table = next;
        }
        assert_eq!(alloc.frame_stats(&mem).0, before + 5);
        let mut sharers = Sharers::new(32);
        let freed = free_address_space(&mut alloc, &mut sharers, &mut mem, space, kernel);
        assert_eq!(freed, 5);
        assert_eq!(alloc.frame_stats(&mem).0, before);
    }
    assert_eq!(entry(&mem, kernel, 0), 0x1003);
}

#[test]
fn no_frame_no_address_space() {
    let (mut mem, mut alloc) = machine(3);
    let kernel = alloc.allocate_frame(&mut mem).unwrap();
    assert_eq!(new_address_space_from(&mut alloc, &mut mem, kernel), None);
}

#[test]
fn top_level_slots() {
    let mut table = vec![0u64; 512];
    table[0x88] = 1;
    assert!(!pml4_slots_unused(&table, 0x4444_4444_0000, 0x4444_4444_0fff));
    assert!(pml4_slots_unused(&table, 0x5555_5555_0000, 0x5555_5555_0fff));
    assert!(!pml4_slots_unused(&table, 0, 0x7fff_ffff_ffff));
    table[0x88] = 0;
    table[511] = 1;
    assert!(!pml4_slots_unused(&table, 0xffff_ff80_0000_0000, 0xffff_ff80_0000_0000));
    assert!(pml4_slots_unused(&table, 0xffff_ff00_0000_0000, 0xffff_ff00_0000_0000));
    assert!(pml4_slots_unused(&table, 0, 0x7fff_ffff_ffff));
}

#[test]
fn memory_maps() {
    let mut map = MemMap::empty();
    assert!(map.is_empty());
    assert!(map.push(0x1000, 2));
    assert!(map.push(0x8000, 1));
    assert_eq!(map.segments(), vec![Segment { base: 0x1000, pages: 2 }, Segment { base: 0x8000, pages: 1 }]);
    assert_eq!(map.total_pages(), 3);
    assert_eq!(map.pages(), vec![0x1000, 0x2000, 0x8000]);
    assert!(map.can_set_segment(0x8000));
    assert!(map.set_segment(0x8000, 4));
    assert_eq!(map.total_pages(), 6);
    assert!(map.set_segment(0x8000, 0));
    assert_eq!(map.total_pages(), 2);
    let mut full = MemMap::empty();
    for i in 0..MAX_SEGMENTS {
        assert!(full.push(i as u64 * 0x10000, 1));
    }
    assert!(!full.push(0xf00_0000, 1));
    assert!(!full.can_set_segment(0xf00_0000));
    assert!(full.can_set_segment(0x10000));
}

/// Map the page at `addr`, with tables from the frames at `next` on.
fn map_page(mem: &mut [u8], pml4: u64, next: &mut u64, addr: u64, entry: u64) {
    let mut table = pml4;
    for level in (0..4).rev() {
        let at = (table + 8 * ((addr >> (12 + 9 * level)) & 511)) as usize;
        let mut w = [0u8; 8];
        w.copy_from_slice(&mem[at..at + 8]);
        let mut e = u64::from_le_bytes(w);
        if level == 0 {
            e = entry;
        } else if e == 0 {
            e = *next | 7;
            *next += 4096;
        }
        mem[at..at + 8].copy_from_slice(&e.to_le_bytes());
        table = e & 0x000f_ffff_ffff_f000;
    }
}

#[test]
fn entries_are_found_through_the_tables() {
    let mut mem = vec![0u8; 16 * 4096];
    let mut next = 0x8000;
    map_page(&mut mem, 0x1000, &mut next, 0x5555_5555_3000, 0x2000 | 5);
    let m = find_entry(&mem, 0x1000, 0x5555_5555_3abc).unwrap();
    assert_eq!((m.entry, m.level), (0x2005, 1));
    assert_eq!(page_of(&mem, &m, 0x5555_5555_3abc), Some(0x2000));
    assert_eq!(find_entry(&mem, 0x1000, 0x5555_5555_4000), None);
    assert_eq!(find_entry(&mem, 0x1000, 0x1234_5555_3000), None);
    assert_eq!(find_entry(&mem, 0x1000, 0x8000_0000_0000), None);
    // A page of 2 MiB at 0, mapped by the second entry of a table of level 2.
    let l2 = 0xe000usize;
    mem[0x1000..0x1008].copy_from_slice(&0xd007u64.to_le_bytes());
    mem[0xd000..0xd008].copy_from_slice(&0xe007u64.to_le_bytes());
    mem[l2 + 8..l2 + 16].copy_from_slice(&0x83u64.to_le_bytes());
    let huge = find_entry(&mem, 0x1000, 0x20_5123).unwrap();
    assert_eq!((huge.at, huge.level), (l2 as u64 + 8, 2));
    assert_eq!(page_of(&mem, &huge, 0x20_5123), Some(0x5000));
    // Past the end of memory there is nothing.
    assert_eq!(page_of(&mem, &huge, 0x21_0000), None);
    // What is mapped where the other address space has nothing.
    mem[0xf000..0xf008].copy_from_slice(&1u64.to_le_bytes());
    assert_eq!(leaves(&mem, 0x1000, 0xf000), vec![m]);
}

#[test]
fn copies_between_address_spaces() {
    let mut mem = vec![0u8; 24 * 4096];
    let text = b"across a page boundary";
    // The source's pages 16 and 17 are frames 3 and 1.
    let mut next = 0x8000;
    map_page(&mut mem, 0x5000, &mut next, 16 * 4096, 3 * 4096 | 7);
    map_page(&mut mem, 0x5000, &mut next, 17 * 4096, 4096 | 7);
    map_page(&mut mem, 0x6000, &mut next, 5 * 4096, 4 * 4096 | 7);
    for (k, &b) in text.iter().enumerate() {
        let a = 4096 - 5 + k;
        let phys = if a < 4096 { 3 * 4096 + a } else { 4096 + a - 4096 };
        mem[phys] = b;
    }
    let mut frames = BootInfoFrameAllocator::init(vec![], &mem);
    let mut sharers = Sharers::new(24);
    let from = 16 * 4096 + 4096 - 5;
    let to = 5 * 4096 + 100;
    assert_eq!(
        copy_between_address_spaces(
            &mut frames,
            &mut sharers,
            &mut mem,
            0x5000,
            from,
            0x6000,
            to,
            text.len()
        ),
        Ok(())
    );
    assert_eq!(&mem[4 * 4096 + 100..4 * 4096 + 100 + text.len()], text);
}

#[test]
fn copies_stop_at_unmapped_pages() {
    let mut mem = vec![1u8; 24 * 4096];
    for b in mem[0x5000..].iter_mut() {
        *b = 0;
    }
    let mut next = 0x8000;
    // One process has a hole after its page; the other has none.
    map_page(&mut mem, 0x5000, &mut next, 0, 0x1000 | 7);
    map_page(&mut mem, 0x6000, &mut next, 0, 0x2000 | 7);
    map_page(&mut mem, 0x6000, &mut next, 0x1000, 0x3000 | 7);
    let mut frames = BootInfoFrameAllocator::init(vec![], &mem);
    let mut sharers = Sharers::new(24);
    let mut sched = Scheduler::new((0x7000, 0));
    let space = |pml4: u64| Some(AddressSpace { pml4, map: MemMap::empty() });
    let (hole, whole) = (com::TTY_PROC_NR, com::DRVR_PROC_NR);
    spawn(&mut sched, hole, "hole", 1, 6, 16, true, space(0x5000), 0x10_0000, 2);
    spawn(&mut sched, whole, "whole", 1, 6, 16, true, space(0x6000), 0x10_0000, 2);
    assert_eq!(
        sys_vircopy(&sched, &mut frames, &mut sharers, &mut mem, hole, 4090, whole, 0, 10),
        Err(CopyError::SrcNotMapped)
    );
    assert_eq!(
        sys_vircopy(&sched, &mut frames, &mut sharers, &mut mem, whole, 0, hole, 4090, 10),
        Err(CopyError::DstNotMapped)
    );
    mem[0x2000..0x2006].copy_from_slice(b"copied");
    assert_eq!(sys_vircopy(&sched, &mut frames, &mut sharers, &mut mem, whole, 0, hole, 0, 6), Ok(()));
    assert_eq!(&mem[0x1000..0x1006], b"copied");
    // Bytes of the kernel's own go the same way.
    assert_eq!(put_bytes(&mut frames, &mut sharers, &mut mem, 0x5000, 4094, b"abc"), Err(CopyError::DstNotMapped));
    assert_eq!(&mem[0x1ffe..0x2000], b"ab");
    assert_eq!(put_bytes(&mut frames, &mut sharers, &mut mem, 0x6000, 4094, b"abc"), Ok(()));
    assert_eq!(&mem[0x2ffe..0x3001], b"abc");
}

#[test]
fn forks_find_every_page() {
    let mut mem = vec![0u8; 24 * 4096];
    let mut next = 0x8000;
    map_page(&mut mem, 0x5000, &mut next, 0x5555_5555_0000, 0x1000 | 7);
    let mut map = MemMap::empty();
    map.push(0x5555_5555_0000, 1);
    map.push(0x6666_6666_0000, 1);
    let mut base = vec![0u64; 512];
    assert_eq!(fork_address_space(&mem, 0x5000, &base, &map), None);
    map_page(&mut mem, 0x5000, &mut next, 0x6666_6666_0000, 0x2000 | 5);
    let copies = fork_address_space(&mem, 0x5000, &base, &map).unwrap();
    assert_eq!(copies.len(), 2);
    assert_eq!(copies[0].page, 0x5555_5555_0000);
    assert_eq!(copies[0].source, Mapping { frame: 0x1000, flags: 7 });
    assert_eq!(copies[1].source, Mapping { frame: 0x2000, flags: 5 });
    base[0xaa] = 1;
    assert_eq!(fork_address_space(&mem, 0x5000, &base, &map), None);
}

#[test]
fn a_forked_space_shares_until_it_writes() {
    let mut mem = vec![0u8; 32 * 4096];
    let (parent, child, kernel) = (0x5000, 0x6000, 0x7000);
    let mut next = 0x8000;
    let page = 0x5555_5555_0000;
    map_page(&mut mem, parent, &mut next, page, 0x1000 | 7);
    mem[0x1000..0x1004].copy_from_slice(b"both");
    let mut map = MemMap::empty();
    map.push(page, 1);
    let mut sharers = Sharers::new(32);
    let copies = fork_address_space(&mem, parent, &vec![0u64; 512], &map).unwrap();
    let shared = share_address_space(&mut sharers, &mut mem, &copies);
    assert_eq!(shared, vec![Mapping { frame: 0x1000, flags: 5 | COW }]);
    assert_eq!(find_entry(&mem, parent, page).unwrap().entry, 0x1000 | 5 | COW);
    map_page(&mut mem, child, &mut next, page, shared[0].frame | shared[0].flags);
    let regions = vec![Region { start_frame: 24, end_frame: 32, usable: true }];
    let mut frames = BootInfoFrameAllocator::init(regions, &mem);
    // The child gets a copy; the parent, alone by then, its page back.
    assert!(make_writable(&mut frames, &mut sharers, &mut mem, child, page));
    assert_eq!(find_entry(&mem, child, page).unwrap().entry, 24 * 4096 | 7);
    assert_eq!(&mem[24 * 4096..24 * 4096 + 4], b"both");
    assert!(make_writable(&mut frames, &mut sharers, &mut mem, parent, page));
    assert_eq!(find_entry(&mem, parent, page).unwrap().entry, 0x1000 | 7);
    put_bytes(&mut frames, &mut sharers, &mut mem, child, page, b"mine").unwrap();
    assert_eq!(&mem[0x1000..0x1004], b"both");
    assert_eq!(frames.frame_stats(&mem), (1, 0));
    // Writable already, read-only, and not mapped at all.
    assert!(make_writable(&mut frames, &mut sharers, &mut mem, parent, page));
    map_page(&mut mem, parent, &mut next, page + 0x1000, 0x2000 | 5);
    assert!(!make_writable(&mut frames, &mut sharers, &mut mem, parent, page + 0x1000));
    assert!(!make_writable(&mut frames, &mut sharers, &mut mem, parent, page + 0x2000));
    // A page that somebody else maps is left out of a teardown.
    let copies = fork_address_space(&mem, parent, &vec![0u64; 512], &map).unwrap();
    share_address_space(&mut sharers, &mut mem, &copies);
    release_pages(&mut sharers, &mut mem, parent, kernel);
    assert_eq!(find_entry(&mem, parent, page), None);
    assert_eq!(find_entry(&mem, parent, page + 0x1000).unwrap().entry, 0x2000 | 5);
    assert_eq!(sharers.extra_sharers(0x1000), 0);
}

#[test]
fn a_failed_fork_leaves_nothing_behind() {
    let mut mem = vec![0u8; 40 * 4096];
    let (parent, child, kernel) = (0x5000, 0x6000, 0x7000);
    let mut next = 0x8000;
    let page = 0x5555_5555_0000;
    let mut map = MemMap::empty();
    map.push(page, 3);
    for k in 0..3 {
        map_page(&mut mem, parent, &mut next, page + k * 0x1000, (k + 1) * 0x1000 | 7);
    }
    let mut sharers = Sharers::new(40);
    let copies = fork_address_space(&mem, parent, &vec![0u64; 512], &map).unwrap();
    let shared = share_address_space(&mut sharers, &mut mem, &copies);
    let counts = |s: &Sharers| [1, 2, 3].map(|f| s.extra_sharers(f * 0x1000));
    assert_eq!(counts(&sharers), [1, 1, 1]);
    assert_eq!(first_step(shared.len()), BuildStep::Next(0));
    map_page(&mut mem, child, &mut next, page, shared[0].frame | shared[0].flags);
    assert_eq!(fork_step(&mut sharers, &shared, 0, true), BuildStep::Next(1));
    assert_eq!(counts(&sharers), [1, 1, 1]);
    // The second page cannot be mapped.
    assert_eq!(fork_step(&mut sharers, &shared, 1, false), BuildStep::TearDown);
    assert_eq!(counts(&sharers), [1, 0, 0]);
    release_pages(&mut sharers, &mut mem, child, kernel);
    assert_eq!(counts(&sharers), [0, 0, 0]);
    assert_eq!(find_entry(&mem, child, page), None);
    assert_eq!(find_entry(&mem, parent, page).unwrap().entry, 0x1000 | 5 | COW);
    // The last page ends it; without pages there is nothing to do.
    assert_eq!(fork_step(&mut sharers, &shared, 2, true), BuildStep::Done);
    assert_eq!(first_step(0), BuildStep::Done);
}

#[test]
fn a_failed_page_gives_its_frame_back() {
    let (mut mem, mut frames) = machine(4);
    let plan = PagePlan { addr: 0x5555_5555_0000, flags: 7, bytes: b"page".to_vec() };
    let f = fill_frame(&mut frames, &mut mem, &plan).unwrap();
    assert_eq!(&mem[f as usize..f as usize + 5], b"page\0");
    assert_eq!(frames.frame_stats(&mem), (1, 0));
    assert_eq!(build_step(&mut frames, &mut mem, 3, 0, Some(f), true), BuildStep::Next(1));
    assert_eq!(frames.frame_stats(&mem), (1, 0));
    let g = fill_frame(&mut frames, &mut mem, &plan).unwrap();
    assert_eq!(build_step(&mut frames, &mut mem, 3, 1, Some(g), false), BuildStep::TearDown);
    assert_eq!(frames.frame_stats(&mem), (1, 1));
    assert_eq!(fill_frame(&mut frames, &mut mem, &plan), Some(g));
    // No frame is left.
    assert_eq!(fill_frame(&mut frames, &mut mem, &plan), None);
    assert_eq!(build_step(&mut frames, &mut mem, 3, 2, None, false), BuildStep::TearDown);
    assert_eq!(build_step(&mut frames, &mut mem, 3, 2, Some(g), true), BuildStep::Done);
}

#[test]
fn only_pages_in_use_are_opened() {
    let mut mem = vec![0u8; 32 * 4096];
    let (parent, page) = (0x5000, 0x5555_5555_0000);
    let mut next = 0x8000;
    let regions = vec![Region { start_frame: 24, end_frame: 32, usable: true }];
    let mut frames = BootInfoFrameAllocator::init(regions, &mem);
    let mut sharers = Sharers::new(32);
    let f = frames.allocate_frame(&mut mem).unwrap();
    assert!(frames.is_held(&mem, f));
    assert!(!frames.is_held(&mem, f + 0x1000));
    assert!(frames.can_count());
    map_page(&mut mem, parent, &mut next, page, f | 5 | COW);
    assert!(try_make_writable(&mut frames, &mut sharers, &mut mem, parent, page));
    assert_eq!(find_entry(&mem, parent, page).unwrap().entry, f | 7);
    assert!(!try_make_writable(&mut frames, &mut sharers, &mut mem, parent, page + 0x1000));
    // A frame that came back is nobody's page.
    map_page(&mut mem, parent, &mut next, page, f | 5 | COW);
    frames.deallocate_frame(&mut mem, f);
    assert!(!frames.is_held(&mem, f));
    assert!(!try_make_writable(&mut frames, &mut sharers, &mut mem, parent, page));
    assert_eq!(find_entry(&mem, parent, page).unwrap().entry, f | 5 | COW);
}

/// An address space with a kernel half, and a way to look at it.
struct Spaces {
    mem: Vec<u8>,
    frames: BootInfoFrameAllocator,
    sharers: Sharers,
    kernel: u64,
    /// A space that holds what is copied in and out.
    scratch: u64,
}

const DATA: u64 = 0x5555_5556_0000;
const TEXT: u64 = 0x5555_5555_0000;

impl Spaces {
    fn new() -> Spaces {
        let (mut mem, mut frames) = machine(64);
        let kernel = frames.allocate_frame(&mut mem).unwrap();
        put_entry(&mut mem, kernel, 0, 0x1000 | 3);
        let mut s = Spaces { mem, frames, sharers: Sharers::new(64), kernel, scratch: 0 };
        s.scratch = s.space();
        let frame = s.frame();
        s.map(s.scratch, DATA, frame | 7);
        s
    }

    fn frame(&mut self) -> u64 {
        self.frames.allocate_frame(&mut self.mem).unwrap()
    }

    fn space(&mut self) -> u64 {
        new_address_space_from(&mut self.frames, &mut self.mem, self.kernel).unwrap()
    }

    fn map(&mut self, pml4: u64, addr: u64, e: u64) {
        let mut table = pml4;
        for level in (1..4).rev() {
            let i = (addr >> (12 + 9 * level)) as usize & 511;
            if entry(&self.mem, table, i) == 0 {
                let f = self.frame();
                put_entry(&mut self.mem, table, i, f | 7);
            }
            table = entry(&self.mem, table, i) & 0x000f_ffff_ffff_f000;
        }
        put_entry(&mut self.mem, table, (addr >> 12) as usize & 511, e);
    }

    /// A program with a page of text and one of data.
    fn program(&mut self) -> (u64, MemMap) {
        let pml4 = self.space();
        let (text, data) = (self.frame(), self.frame());
        self.mem[text as usize..text as usize + 4].copy_from_slice(&0x0102_0304u32.to_le_bytes());
        self.map(pml4, TEXT, text | 5);
        self.map(pml4, DATA, data | 7);
        let mut map = MemMap::empty();
        map.push(TEXT, 1);
        map.push(DATA, 1);
        (pml4, map)
    }

    fn fork(&mut self, parent: u64, map: &MemMap) -> u64 {
        let kernel: Vec<u64> = (0..512).map(|i| entry(&self.mem, self.kernel, i)).collect();
        let copies = fork_address_space(&self.mem, parent, &kernel, map).unwrap();
        assert!(is_shareable(&self.sharers, &self.mem, &copies));
        let child = self.space();
        let shared = share_address_space(&mut self.sharers, &mut self.mem, &copies);
        for (c, p) in copies.iter().zip(shared.iter()) {
            self.map(child, c.page, p.frame | p.flags);
        }
        child
    }

    fn copy(&mut self, from: u64, a: u64, to: u64, b: u64) -> Result<(), CopyError> {
        let Spaces { mem, frames, sharers, .. } = self;
        copy_between_address_spaces(frames, sharers, mem, from, a, to, b, 4)
    }

    fn write_u32(&mut self, pml4: u64, addr: u64, w: u32) -> Result<(), CopyError> {
        let at = self.at(self.scratch, DATA).unwrap() & !4095;
        self.mem[at as usize..at as usize + 4].copy_from_slice(&w.to_le_bytes());
        self.copy(self.scratch, DATA, pml4, addr)
    }

    fn read_u32(&mut self, pml4: u64, addr: u64) -> u32 {
        self.copy(pml4, addr, self.scratch, DATA).unwrap();
        let at = self.at(self.scratch, DATA).unwrap() as usize & !4095;
        u32::from_le_bytes([self.mem[at], self.mem[at + 1], self.mem[at + 2], self.mem[at + 3]])
    }

    fn at(&self, pml4: u64, addr: u64) -> Option<u64> {
        find_entry(&self.mem, pml4, addr).map(|m| m.entry)
    }

    fn free(&mut self, pml4: u64) -> usize {
        let Spaces { mem, frames, sharers, kernel, .. } = self;
        try_free_address_space(frames, sharers, mem, pml4, *kernel).unwrap()
    }

    fn in_use(&self) -> usize {
        self.frames.frame_stats(&self.mem).0
    }
}

#[test]
fn kernel_writes_break_sharing() {
    let mut s = Spaces::new();
    let baseline = s.in_use();
    let (parent, map) = s.program();
    s.write_u32(parent, DATA, 0x1111_1111).unwrap();
    let before_fork = s.in_use();
    let child = s.fork(parent, &map);
    // Shared, not copied: the fork costs tables only.
    assert_eq!(s.in_use() - before_fork, 4);
    let shared = s.at(parent, DATA).unwrap();
    assert_eq!(s.at(child, DATA), Some(shared));
    assert_eq!(s.at(child, TEXT), s.at(parent, TEXT));
    assert_eq!((shared & WRITABLE, shared & COW), (0, COW));
    // A write to the child copies away.
    s.write_u32(child, DATA, 0x2222_2222).unwrap();
    let own = s.at(child, DATA).unwrap();
    assert_ne!(own & !4095, shared & !4095);
    assert_eq!((own & WRITABLE, own & COW), (WRITABLE, 0));
    assert_eq!(s.read_u32(child, DATA), 0x2222_2222);
    assert_eq!(s.read_u32(parent, DATA), 0x1111_1111);
    assert_eq!(s.sharers.extra_sharers(shared & !4095), 0);
    // The parent is the only owner now: in place.
    s.write_u32(parent, DATA, 0x3333_3333).unwrap();
    let back = s.at(parent, DATA).unwrap();
    assert_eq!(back & !4095, shared & !4095);
    assert_eq!((back & WRITABLE, back & COW), (WRITABLE, 0));
    assert_eq!(s.read_u32(parent, DATA), 0x3333_3333);
    assert_eq!(s.read_u32(child, DATA), 0x2222_2222);
    // The parent copies away first, and the other child reclaims.
    let child2 = s.fork(parent, &map);
    s.write_u32(parent, DATA, 0x4444_4444).unwrap();
    let left = s.at(child2, DATA).unwrap();
    assert_eq!(s.sharers.extra_sharers(left & !4095), 0);
    let Spaces { mem, frames, sharers, .. } = &mut s;
    put_bytes(frames, sharers, mem, child2, DATA, &0x5555_5555u32.to_le_bytes()).unwrap();
    assert_eq!(s.at(child2, DATA), Some(left & !(COW) | WRITABLE));
    assert_eq!(s.read_u32(child2, DATA), 0x5555_5555);
    assert_eq!(s.read_u32(parent, DATA), 0x4444_4444);
    s.free(child2);
    // Text is shared by the two that are left.
    let text = s.at(parent, TEXT).unwrap();
    assert_eq!(s.sharers.extra_sharers(text & !4095), 1);
    let word = s.read_u32(parent, TEXT);
    s.free(child);
    assert_eq!(s.at(parent, TEXT), Some(text));
    assert_eq!(s.read_u32(parent, TEXT), word);
    assert_eq!(word, 0x0102_0304);
    assert_eq!(s.sharers.extra_sharers(text & !4095), 0);
    s.free(parent);
    assert_eq!(s.in_use(), baseline);
}

#[test]
fn shared_text_is_copied_before_the_kernel_writes_to_it() {
    let mut s = Spaces::new();
    let (parent, map) = s.program();
    let child = s.fork(parent, &map);
    let text = s.at(parent, TEXT).unwrap();
    s.write_u32(child, TEXT, 7).unwrap();
    assert_eq!(s.read_u32(child, TEXT), 7);
    assert_eq!(s.read_u32(parent, TEXT), 0x0102_0304);
    let own = s.at(child, TEXT).unwrap();
    assert_ne!(own & !4095, text & !4095);
    assert_eq!(own & 4095, text & 4095);
    // Nobody else maps it now: it is written to as it is.
    s.write_u32(parent, TEXT, 8).unwrap();
    assert_eq!(s.at(parent, TEXT), Some(text));
    assert_eq!(s.read_u32(child, TEXT), 7);
}

#[test]
fn copies_stop_where_there_is_no_frame() {
    let mut s = Spaces::new();
    let (parent, map) = s.program();
    let child = s.fork(parent, &map);
    let mut hoard = vec![];
    while let Some(f) = s.frames.allocate_frame(&mut s.mem) {
        hoard.push(f);
    }
    assert_eq!(s.write_u32(child, DATA, 9), Err(CopyError::DstNotMapped));
    assert_eq!(s.read_u32(parent, DATA), 0);
    assert_eq!(s.at(child, DATA), s.at(parent, DATA));
    s.frames.deallocate_frame(&mut s.mem, hoard[0]);
    assert_eq!(s.write_u32(child, DATA, 9), Ok(()));
    assert_eq!(s.read_u32(parent, DATA), 0);
    // A page in a frame that is free is nobody's to write to.
    let f = s.at(child, DATA).unwrap() & !4095;
    s.frames.deallocate_frame(&mut s.mem, f);
    assert_eq!(s.write_u32(child, DATA, 9), Err(CopyError::DstNotMapped));
}

#[test]
fn a_space_out_of_order_is_not_taken_down() {
    let mut s = Spaces::new();
    let (parent, _) = s.program();
    let before = s.in_use();
    let data = s.at(parent, DATA).unwrap();
    // The same frame twice, counted once.
    s.map(parent, TEXT, data);
    let Spaces { mem, frames, sharers, kernel, .. } = &mut s;
    assert_eq!(try_free_address_space(frames, sharers, mem, parent, *kernel), None);
    assert_eq!(try_free_address_space(frames, sharers, mem, 5, *kernel), None);
    assert_eq!(try_free_address_space(frames, sharers, mem, parent, 7), None);
    assert_eq!(s.in_use(), before);
    assert_eq!(s.at(parent, DATA), Some(data));
}

#[test]
fn regions_have_to_fit() {
    let region = |start_frame, end_frame| Region { start_frame, end_frame, usable: true };
    assert!(regions_fit(&vec![region(1, 4)], 4 * 4096));
    assert!(!regions_fit(&vec![region(1, 4)], 4 * 4096 - 1));
    assert!(!regions_fit(&vec![region(1, 2), region(0, 1)], 4 * 4096));
    assert!(regions_fit(&vec![Region { start_frame: 0, end_frame: 9, usable: false }], 4096));
}

#[test]
fn pages_that_are_not_counted_cannot_be_shared() {
    let s = Spaces::new();
    let source = Mapping { frame: 63 * 4096, flags: 7 };
    let copy = PageCopy { page: DATA, at: 0x1000, source };
    assert!(is_shareable(&s.sharers, &s.mem, &vec![copy]));
    let far = PageCopy { source: Mapping { frame: 64 * 4096, flags: 7 }, ..copy };
    assert!(!is_shareable(&s.sharers, &s.mem, &vec![copy, far]));
    let outside = PageCopy { at: 64 * 4096 - 7, ..copy };
    assert!(!is_shareable(&s.sharers, &s.mem, &vec![outside]));
}

fn word(mem: &[u8], page: &Mapping) -> u32 {
    let at = page.frame as usize;
    u32::from_le_bytes([mem[at], mem[at + 1], mem[at + 2], mem[at + 3]])
}

fn put_word(mem: &mut [u8], page: &Mapping, w: u32) {
    let at = page.frame as usize;
    mem[at..at + 4].copy_from_slice(&w.to_le_bytes());
}

#[test]
fn forking_by_sharing_copies_on_write() {
    let mut mem = vec![0u8; 16 * 4096];
    let mut sharers = Sharers::new(16);
    let rw = PRESENT | WRITABLE | USER_ACCESSIBLE;
    let mut parent =
        vec![Mapping { frame: 0x2000, flags: rw }, Mapping { frame: 0x3000, flags: PRESENT }];
    put_word(&mut mem, &parent[0], 0x1111_1111);

    // Shared, not copied.
    let mut child = sharers.share_pages(&mut parent);
    assert_eq!(child, parent);
    assert_eq!(parent[0].frame, 0x2000);
    assert_eq!(parent[0].flags & WRITABLE, 0);
    assert_eq!(parent[0].flags & COW, COW);
    assert_eq!(parent[1], Mapping { frame: 0x3000, flags: PRESENT });
    assert_eq!(sharers.extra_sharers(0x2000), 1);

    // The child writes, and gets a copy.
    assert_eq!(sharers.write_step(&child[0]), WriteStep::Copy);
    sharers.copy_page(&mut mem, &mut child[0], 0x5000);
    assert_eq!(child[0], Mapping { frame: 0x5000, flags: rw });
    assert_eq!(word(&mem, &child[0]), 0x1111_1111);
    put_word(&mut mem, &child[0], 0x2222_2222);
    assert_eq!(word(&mem, &parent[0]), 0x1111_1111);
    assert_eq!(sharers.extra_sharers(0x2000), 0);

    // The parent is the only owner now, and writes in place.
    assert_eq!(sharers.write_step(&parent[0]), WriteStep::Reclaim);
    reclaim(&mut parent[0]);
    assert_eq!(parent[0], Mapping { frame: 0x2000, flags: rw });
    assert_eq!(sharers.write_step(&parent[0]), WriteStep::NotCow);

    // Taking the child down leaves what is shared alone.
    assert!(sharers.release(child[0].frame));
    assert!(!sharers.release(child[1].frame));
    assert!(sharers.release(parent[1].frame));
    assert_eq!(sharers.write_step(&parent[1]), WriteStep::NotCow);
}

#[test]
fn flag_bits() {
    assert_eq!(PRESENT | WRITABLE | USER_ACCESSIBLE, 7);
    assert_eq!(NO_EXECUTE, 1 << 63);
    assert_eq!(PAGE_SIZE, 4096);
}
