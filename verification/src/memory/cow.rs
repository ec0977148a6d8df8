//! Pages that a fork shares until one side writes to them.
use crate::bytes::{le64, overwrite, same_word, stored_word, word_bytes, write64};
use crate::memory::copy::PageCopy;
use crate::memory::frames::{
    agree_on, frame_ok, frames_apart, is_frame, BootInfoFrameAllocator, FrameModel,
};
use crate::memory::map::PAGE_SIZE;
use crate::memory::paging::WRITABLE;
use crate::memory::space::{copy_frame, entry, frame_copied, ADDRESS_MASK};
use crate::memory::walk::{
    changed_entry_is_found, entry_is_in_last_table, find_entry, leaves, mapped, private_leaves,
    table_index, tables, Mapped,
};
use vstd::multiset::Multiset;
use vstd::prelude::*;

verus! {

/// The flag of a page that was writable and is shared: one of the bits that
/// the processor leaves to the system.
pub const COW: u64 = 0x200;

/// A page as it is mapped: the frame it is in, and its flags.
#[derive(Clone, Copy, Debug, PartialEq, Eq, Structural)]
pub struct Mapping {
    pub frame: u64,
    pub flags: u64,
}

impl Mapping {
    /// The page once it is shared: what was writable no longer is, and is
    /// marked.
    pub open spec fn shared(self) -> Mapping {
        if self.flags & WRITABLE != 0 {
            Mapping { flags: (self.flags & !WRITABLE) | COW, ..self }
        } else {
            self
        }
    }

    /// The page in frame `frame`, writable and no longer marked.
    pub open spec fn private(self, frame: u64) -> Mapping {
        Mapping { frame, flags: (self.flags & !COW) | WRITABLE }
    }

    /// The page-table entry that maps the page so.
    pub open spec fn entry(self) -> u64 {
        self.frame | self.flags
    }

    /// Which frame the page is in, by number.
    pub open spec fn frame_nr(self) -> int {
        self.frame as int / 4096
    }

    /// What the page holds.
    pub open spec fn bytes(self, mem: Seq<u8>) -> Seq<u8> {
        mem.subrange(self.frame as int, self.frame + 4096)
    }
}

/// The page that a page-table entry of the first level maps.
pub open spec fn mapping_of(e: u64) -> Mapping {
    Mapping { frame: e & ADDRESS_MASK, flags: e & !ADDRESS_MASK }
}

/// The page that a page-table entry of the first level maps.
pub fn mapping_in(e: u64) -> (p: Mapping)
    ensures
        p == mapping_of(e),
{
    Mapping { frame: e & ADDRESS_MASK, flags: e & !ADDRESS_MASK }
}

/// A shared page cannot be written to, and is marked if it could be before.
pub proof fn shared_is_protected(page: Mapping)
    ensures
        page.shared().frame == page.frame,
        page.shared().flags & WRITABLE == 0,
        page.flags & WRITABLE != 0 ==> page.shared().flags & COW != 0,
{
    let f = page.flags;
    assert(((f & !2u64) | 0x200u64) & 2u64 == 0 && ((f & !2u64) | 0x200u64) & 0x200u64 != 0)
        by (bit_vector);
}

/// A private page can be written to, and is not marked.
pub proof fn private_is_writable(page: Mapping, frame: u64)
    ensures
        page.private(frame).flags & WRITABLE != 0,
        page.private(frame).flags & COW == 0,
{
    let f = page.flags;
    assert(((f & !0x200u64) | 2u64) & 2u64 != 0 && ((f & !0x200u64) | 2u64) & 0x200u64 == 0)
        by (bit_vector);
}

/// How many mappings each frame has besides the first.
pub struct Sharers {
    extra: Vec<u32>,
}

impl View for Sharers {
    type V = Seq<u32>;

    closed spec fn view(&self) -> Seq<u32> {
        self.extra@
    }
}

/// One more mapping of each of `pages`.
pub open spec fn added(extra: Seq<u32>, pages: Seq<Mapping>) -> Seq<u32>
    decreases pages.len(),
{
    if pages.len() == 0 {
        extra
    } else {
        let before = added(extra, pages.drop_last());
        let f = pages.last().frame_nr();
        before.update(f, (before[f] + 1) as u32)
    }
}

/// The counts as they are, or with one mapping of frame number `f` less.
pub open spec fn dropped(extra: Seq<u32>, f: int) -> Seq<u32> {
    if extra[f] > 0 {
        extra.update(f, (extra[f] - 1) as u32)
    } else {
        extra
    }
}

/// What a write to a page needs.
#[derive(Clone, Copy, Debug, PartialEq, Eq, Structural)]
pub enum WriteStep {
    /// The page is not one that a fork shared: nothing can be done here.
    NotCow,
    /// Nobody else maps the page any more: it becomes writable as it is.
    Reclaim,
    /// The page has to be copied to a frame of its own.
    Copy,
}

impl Sharers {
    /// No frame of `frames` is shared.
    pub fn new(frames: usize) -> (s: Sharers)
        ensures
            s@ == Seq::new(frames as nat, |i: int| 0u32),
    {
        let mut extra: Vec<u32> = Vec::new();
        while extra.len() < frames
            invariant
                extra@.len() <= frames,
                extra@ == Seq::new(extra@.len(), |i: int| 0u32),
            decreases frames - extra@.len(),
        {
            let ghost n = extra@.len();
            extra.push(0);
            assert(extra@ =~= Seq::new(n + 1, |i: int| 0u32));
        }
        Sharers { extra }
    }

    /// Whether the frame at `frame` is one whose mappings are counted.
    pub fn counts(&self, frame: u64) -> (r: bool)
        ensures
            r == ((frame as int / 4096) < self@.len()),
    {
        (frame / PAGE_SIZE) < self.extra.len() as u64
    }

    /// How many mappings the frame at `frame` has besides the first.
    pub fn extra_sharers(&self, frame: u64) -> (n: u32)
        requires
            frame as int / 4096 < self@.len(),
        ensures
            n == self@[frame as int / 4096],
    {
        let _len: usize = self.extra.len();
        self.extra[(frame / PAGE_SIZE) as usize]
    }

    /// One mapping of the frame at `frame` is gone. Returns whether it was
    /// the last, so that the frame is free.
    pub fn release(&mut self, frame: u64) -> (last: bool)
        requires
            frame as int / 4096 < old(self)@.len(),
        ensures
            last == (old(self)@[frame as int / 4096] == 0),
            final(self)@ == dropped(old(self)@, frame as int / 4096),
    {
        let _len: usize = self.extra.len();
        let f: usize = (frame / PAGE_SIZE) as usize;
        let n: u32 = self.extra[f];
        if n == 0 {
            return true;
        }
        self.extra.set(f, n - 1);
        false
    }

    /// Share all of `pages` with a new address space: nothing is copied.
    /// What was writable is write-protected and marked on both sides.
    /// Returns the pages of the new address space, the same as those of the
    /// old one now.
    pub fn share_pages(&mut self, pages: &mut Vec<Mapping>) -> (child: Vec<Mapping>)
        requires
            forall|i: int|
                0 <= i < old(pages)@.len() ==> (#[trigger] old(pages)@[i]).frame_nr() < old(
                    self,
                )@.len(),
            forall|f: int|
                0 <= f < old(self)@.len() ==> #[trigger] old(self)@[f] + old(pages)@.len()
                    <= u32::MAX,
        ensures
            child@ == final(pages)@,
            final(pages)@ == old(pages)@.map_values(|p: Mapping| p.shared()),
            final(self)@ == added(old(self)@, old(pages)@),
    {
        let ghost before = pages@;
        let ghost start = self@;
        let mut child: Vec<Mapping> = Vec::new();
        let mut i: usize = 0;
        assert(before.take(0) =~= Seq::<Mapping>::empty());
        while i < pages.len()
            invariant
                i <= pages@.len(),
                pages@.len() == before.len(),
                child@.len() == i,
                forall|k: int|
                    0 <= k < before.len() ==> (#[trigger] before[k]).frame_nr() < start.len(),
                forall|k: int|
                    i <= k < before.len() ==> #[trigger] pages@[k] == before[k],
                forall|k: int|
                    0 <= k < i ==> #[trigger] pages@[k] == before[k].shared() && child@[k]
                        == pages@[k],
                self@ == added(start, before.take(i as int)),
                self@.len() == start.len(),
                forall|f: int|
                    0 <= f < start.len() ==> #[trigger] start[f] + before.len() <= u32::MAX,
                forall|f: int|
                    0 <= f < start.len() ==> start[f] <= #[trigger] self@[f] <= start[f] + i,
            decreases pages@.len() - i,
        {
            let mut page: Mapping = pages[i];
            assert(page == before[i as int]);
            let _len: usize = self.extra.len();
            let f: usize = (page.frame / PAGE_SIZE) as usize;
            let n: u32 = self.extra[f];
            assert(self@[f as int] <= start[f as int] + i);
            assert(start[f as int] + before.len() <= u32::MAX);
            self.extra.set(f, n + 1);
            if page.flags & WRITABLE != 0 {
                page.flags = (page.flags & !WRITABLE) | COW;
            }
            pages.set(i, page);
            child.push(page);
            proof {
                assert(before.take(i + 1).drop_last() =~= before.take(i as int));
            }
            i += 1;
        }
        assert(before.take(i as int) =~= before);
        assert(pages@ =~= before.map_values(|p: Mapping| p.shared()));
        assert(child@ =~= pages@);
        child
    }

    /// What a write to `page` needs.
    pub fn write_step(&self, page: &Mapping) -> (step: WriteStep)
        requires
            page.flags & COW != 0 ==> page.frame_nr() < self@.len(),
        ensures
            step == (if page.flags & COW == 0 {
                WriteStep::NotCow
            } else if self@[page.frame_nr()] == 0 {
                WriteStep::Reclaim
            } else {
                WriteStep::Copy
            }),
    {
        if page.flags & COW == 0 {
            WriteStep::NotCow
        } else if self.extra_sharers(page.frame) == 0 {
            WriteStep::Reclaim
        } else {
            WriteStep::Copy
        }
    }

    /// Give `page` a copy of its own in the frame at `fresh`.
    pub fn copy_page(&mut self, mem: &mut [u8], page: &mut Mapping, fresh: u64)
        requires
            old(page).frame_nr() < old(self)@.len(),
            frame_ok(old(mem)@.len(), old(page).frame),
            frame_ok(old(mem)@.len(), fresh),
        ensures
            *final(page) == old(page).private(fresh),
            final(mem)@ == frame_copied(old(mem)@, old(page).frame, fresh),
            final(self)@ == dropped(old(self)@, old(page).frame_nr()),
    {
        copy_frame(mem, page.frame, fresh);
        let _ = self.release(page.frame);
        page.frame = fresh;
        page.flags = (page.flags & !COW) | WRITABLE;
    }
}

/// Make a page that nobody else maps writable again.
pub fn reclaim(page: &mut Mapping)
    ensures
        *final(page) == old(page).private(old(page).frame),
{
    page.flags = (page.flags & !COW) | WRITABLE;
}

/// Memory after the entries of the first `n` pages were rewritten so that
/// the pages are shared.
pub open spec fn protected(mem: Seq<u8>, copies: Seq<PageCopy>, n: int) -> Seq<u8>
    decreases n,
{
    if n <= 0 {
        mem
    } else {
        overwrite(
            protected(mem, copies, n - 1),
            copies[n - 1].at as int,
            word_bytes(copies[n - 1].source.shared().entry()),
        )
    }
}

/// Whether the pages `copies` can be shared: they are counted, and one more
/// mapping of each can be, and the entries that map them are in a memory of
/// `len` bytes.
pub open spec fn can_share(len: nat, extra: Seq<u32>, copies: Seq<PageCopy>) -> bool {
    &&& forall|i: int|
        0 <= i < copies.len() ==> (#[trigger] copies[i]).source.frame_nr() < extra.len()
            && copies[i].at + 8 <= len
    &&& forall|f: int|
        0 <= f < extra.len() ==> #[trigger] extra[f] + copies.len() <= u32::MAX
}

/// Whether the pages `copies` can be shared.
pub fn is_shareable(sharers: &Sharers, mem: &[u8], copies: &Vec<PageCopy>) -> (r: bool)
    ensures
        r == can_share(mem@.len(), sharers@, copies@),
{
    let len: usize = mem.len();
    let n: usize = copies.len();
    let mut i: usize = 0;
    while i < n
        invariant
            i <= n == copies@.len(),
            len == mem@.len(),
            forall|k: int|
                0 <= k < i ==> (#[trigger] copies@[k]).source.frame_nr() < sharers@.len()
                    && copies@[k].at + 8 <= mem@.len(),
        decreases n - i,
    {
        let c = copies[i];
        if !sharers.counts(c.source.frame) || len < 8 || c.at > len as u64 - 8 {
            assert(copies@[i as int] == c);
            return false;
        }
        i = i + 1;
    }
    let mut f: usize = 0;
    while f < sharers.extra.len()
        invariant
            f <= sharers.extra@.len(),
            n == copies@.len(),
            forall|k: int| 0 <= k < f ==> #[trigger] sharers@[k] + copies@.len() <= u32::MAX,
        decreases sharers.extra@.len() - f,
    {
        if n as u64 > u32::MAX as u64 - sharers.extra[f] as u64 {
            assert(sharers@[f as int] + copies@.len() > u32::MAX);
            return false;
        }
        f = f + 1;
    }
    true
}

/// Share the pages `copies` of an address space with a new one: nothing is
/// copied, and what was writable is write-protected and marked on both
/// sides. Returns the pages of the new address space.
pub fn share_address_space(sharers: &mut Sharers, mem: &mut [u8], copies: &Vec<PageCopy>) -> (child:
    Vec<Mapping>)
    requires
        can_share(old(mem)@.len(), old(sharers)@, copies@),
    ensures
        child@ == copies@.map_values(|c: PageCopy| c.source.shared()),
        final(sharers)@ == added(old(sharers)@, copies@.map_values(|c: PageCopy| c.source)),
        final(mem)@ == protected(old(mem)@, copies@, copies@.len() as int),
{
    let _len: usize = mem.len();
    let ghost m0 = mem@;
    let mut pages: Vec<Mapping> = Vec::new();
    let mut i: usize = 0;
    while i < copies.len()
        invariant
            i <= copies@.len(),
            pages@.len() == i,
            forall|k: int| 0 <= k < i ==> #[trigger] pages@[k] == copies@[k].source,
        decreases copies@.len() - i,
    {
        pages.push(copies[i].source);
        i = i + 1;
    }
    assert(pages@ =~= copies@.map_values(|c: PageCopy| c.source));
    let child = sharers.share_pages(&mut pages);
    assert(child@ =~= copies@.map_values(|c: PageCopy| c.source.shared()));
    let mut j: usize = 0;
    while j < copies.len()
        invariant
            j <= copies@.len(),
            child@ == copies@.map_values(|c: PageCopy| c.source.shared()),
            forall|k: int|
                0 <= k < copies@.len() ==> (#[trigger] copies@[k]).at + 8 <= m0.len(),
            mem@.len() == m0.len(),
            m0.len() <= usize::MAX,
            mem@ == protected(m0, copies@, j as int),
        decreases copies@.len() - j,
    {
        let page: Mapping = child[j];
        assert(copies@[j as int].at + 8 <= m0.len());
        write64(mem, copies[j].at as usize, page.frame | page.flags);
        j = j + 1;
    }
    child
}

/// Memory and counts after the pages of the first `n` of `leaves` were
/// released: a page that somebody else still maps is taken out of the table.
pub open spec fn released(mem: Seq<u8>, extra: Seq<u32>, leaves: Seq<Mapped>, n: int) -> (
    Seq<u8>,
    Seq<u32>,
)
    decreases n,
{
    if n <= 0 {
        (mem, extra)
    } else {
        let (m, x) = released(mem, extra, leaves, n - 1);
        let leaf = leaves[n - 1];
        let f = mapping_of(leaf.entry).frame_nr();
        (
            if x[f] == 0 {
                m
            } else {
                overwrite(m, leaf.at as int, word_bytes(0))
            },
            dropped(x, f),
        )
    }
}

/// Release the pages of the address space `pml4` before it is taken down:
/// those that somebody else still maps are taken out of its tables, so that
/// they are not freed with it.
pub fn release_pages(sharers: &mut Sharers, mem: &mut [u8], pml4: u64, base: u64)
    requires
        frame_ok(old(mem)@.len(), pml4),
        frame_ok(old(mem)@.len(), base),
        forall|k: int|
            0 <= k < private_leaves(old(mem)@, pml4, base, 512).len() ==> mapping_of(
                (#[trigger] private_leaves(old(mem)@, pml4, base, 512)[k]).entry,
            ).frame_nr() < old(sharers)@.len(),
    ensures
        ({
            let leaves = private_leaves(old(mem)@, pml4, base, 512);
            (final(mem)@, final(sharers)@) == released(
                old(mem)@,
                old(sharers)@,
                leaves,
                leaves.len() as int,
            )
        }),
{
    let found = leaves(mem, pml4, base);
    let _len: usize = mem.len();
    let ghost m0 = mem@;
    let ghost x0 = sharers@;
    let mut i: usize = 0;
    while i < found.len()
        invariant
            i <= found@.len(),
            (mem@, sharers@) == released(m0, x0, found@, i as int),
            mem@.len() == m0.len(),
            m0.len() <= usize::MAX,
            sharers@.len() == x0.len(),
            forall|k: int|
                0 <= k < found@.len() ==> (#[trigger] found@[k]).at + 8 <= m0.len() && mapping_of(
                    found@[k].entry,
                ).frame_nr() < x0.len(),
        decreases found@.len() - i,
    {
        let leaf = found[i];
        assert(found@[i as int].at + 8 <= m0.len());
        let page = mapping_in(leaf.entry);
        if !sharers.release(page.frame) {
            write64(mem, leaf.at as usize, 0);
        }
        i = i + 1;
    }
}

/// Releasing pages leaves the free list alone, as long as the tables that
/// map them are in use.
pub(crate) proof fn release_keeps_free_list(
    alloc: &BootInfoFrameAllocator,
    mem: Seq<u8>,
    extra: Seq<u32>,
    leaves: Seq<Mapped>,
    n: int,
)
    requires
        alloc.wf(mem),
        0 <= n <= leaves.len(),
        forall|k: int|
            0 <= k < leaves.len() ==> (#[trigger] leaves[k]).at % 8 == 0 && !alloc@.free.contains(
                (leaves[k].at / 4096 * 4096) as u64,
            ),
    ensures
        alloc.wf(released(mem, extra, leaves, n).0),
        released(mem, extra, leaves, n).0.len() == mem.len(),
    decreases n,
{
    if n > 0 {
        release_keeps_free_list(alloc, mem, extra, leaves, n - 1);
        let leaf = leaves[n - 1];
        word_in_frame(leaf.at);
        assert(word_bytes(0).len() == 8);
        free_list_stays(
            alloc,
            released(mem, extra, leaves, n - 1).0,
            leaf.at as int,
            word_bytes(0),
            (leaf.at / 4096 * 4096) as u64,
        );
    }
}

/// Whether frame `f` is in use: not free, and not next to be handed out.
pub open spec fn held(a: FrameModel, f: u64) -> bool {
    !a.free.contains(f) && a.head() != Some(f)
}

/// Memory, frames and sharers once the page that `m` maps can be written to;
/// `None` if that cannot be.
pub open spec fn opened(mem: Seq<u8>, a: FrameModel, extra: Seq<u32>, m: Mapped) -> Option<
    (Seq<u8>, FrameModel, Seq<u32>),
> {
    let page = mapping_of(m.entry);
    if m.entry & WRITABLE != 0 {
        Some((mem, a, extra))
    } else if m.level != 1 || m.entry & COW == 0 {
        None
    } else if extra[page.frame_nr()] == 0 {
        let e = page.private(page.frame).entry();
        Some((overwrite(mem, m.at as int, word_bytes(e)), a, extra))
    } else {
        match a.head() {
            None => None,
            Some(fresh) => {
                let e = page.private(fresh).entry();
                let now = frame_copied(mem, page.frame, fresh);
                Some(
                    (
                        overwrite(now, m.at as int, word_bytes(e)),
                        a.allocated(),
                        dropped(extra, page.frame_nr()),
                    ),
                )
            },
        }
    }
}

/// Memory, frames and sharers once the page at `addr` can be written to;
/// `None` if that cannot be.
pub open spec fn writable_state(
    mem: Seq<u8>,
    a: FrameModel,
    extra: Seq<u32>,
    pml4: u64,
    addr: u64,
) -> Option<(Seq<u8>, FrameModel, Seq<u32>)> {
    match mapped(mem, pml4, addr) {
        Some(m) => opened(mem, a, extra, m),
        None => None,
    }
}

/// Whether the page that `m` maps, and the table with its entry, are in use.
pub open spec fn frames_held(mem: Seq<u8>, a: FrameModel, extra: Seq<u32>, m: Mapped) -> bool {
    let page = mapping_of(m.entry);
    &&& page.frame_nr() < extra.len()
    &&& frame_ok(mem.len(), page.frame)
    &&& held(a, page.frame)
    &&& held(a, (m.at / 4096 * 4096) as u64)
}

/// Whether the page that `m` maps, and the table with its entry, are in use,
/// as far as that matters for opening it.
pub open spec fn page_held(mem: Seq<u8>, a: FrameModel, extra: Seq<u32>, m: Mapped) -> bool {
    m.level == 1 && m.entry & WRITABLE == 0 && m.entry & COW != 0 ==> frames_held(mem, a, extra, m)
}

/// Memory, frames and sharers once the page that `m` maps has been copied to
/// a frame of its own, with its flags as they are; `None` if no frame is
/// left.
pub open spec fn moved(mem: Seq<u8>, a: FrameModel, extra: Seq<u32>, m: Mapped) -> Option<
    (Seq<u8>, FrameModel, Seq<u32>),
> {
    let page = mapping_of(m.entry);
    match a.head() {
        None => None,
        Some(fresh) => {
            let e = (Mapping { frame: fresh, ..page }).entry();
            let now = frame_copied(mem, page.frame, fresh);
            Some(
                (
                    overwrite(now, m.at as int, word_bytes(e)),
                    a.allocated(),
                    dropped(extra, page.frame_nr()),
                ),
            )
        },
    }
}

/// Whether the kernel may write to the page that `m` maps as it is: it can
/// be written to, or is not marked and nobody else maps it.
pub open spec fn is_own(extra: Seq<u32>, m: Mapped) -> bool {
    let f = mapping_of(m.entry).frame_nr();
    ||| m.entry & WRITABLE != 0
    ||| m.entry & COW == 0 && (m.level != 1 || f >= extra.len() || extra[f] == 0)
}

/// Memory, frames and sharers once what the kernel writes to the page that
/// `m` maps is seen in that address space only. A marked page is opened, and
/// one that may only be read, but that somebody else maps, is copied and
/// stays as it is otherwise. `None` if that cannot be.
pub open spec fn owned(mem: Seq<u8>, a: FrameModel, extra: Seq<u32>, m: Mapped) -> Option<
    (Seq<u8>, FrameModel, Seq<u32>),
> {
    if is_own(extra, m) {
        Some((mem, a, extra))
    } else if m.level != 1 || a.in_use >= usize::MAX || a.next >= usize::MAX || !frames_held(
        mem,
        a,
        extra,
        m,
    ) {
        None
    } else if m.entry & COW != 0 {
        opened(mem, a, extra, m)
    } else {
        moved(mem, a, extra, m)
    }
}

/// Memory, frames and sharers once that was done for the `n` pages from page
/// number `first` on, up to the first for which it cannot be, and for how
/// many it was. There is nothing to do where no page is mapped.
pub open spec fn owned_pages(
    mem: Seq<u8>,
    a: FrameModel,
    extra: Seq<u32>,
    pml4: u64,
    first: int,
    n: int,
) -> ((Seq<u8>, FrameModel, Seq<u32>), int)
    decreases n,
{
    if n <= 0 {
        ((mem, a, extra), 0)
    } else {
        let (s, k) = owned_pages(mem, a, extra, pml4, first, n - 1);
        if k < n - 1 {
            (s, k)
        } else {
            match mapped(s.0, pml4, ((first + k) * 4096) as u64) {
                Some(m) => match owned(s.0, s.1, s.2, m) {
                    Some(t) => (t, k + 1),
                    None => (s, k),
                },
                None => (s, k + 1),
            }
        }
    }
}

/// Writing into a frame in use leaves the free list alone.
proof fn free_list_stays(
    frames: &BootInfoFrameAllocator,
    mem: Seq<u8>,
    at: int,
    b: Seq<u8>,
    f: u64,
)
    requires
        frames.wf(mem),
        !frames@.free.contains(f),
        f % 4096 == 0,
        f <= at,
        at + b.len() <= f + 4096,
    ensures
        frames.wf(overwrite(mem, at, b)),
{
    frames.free_frames(mem);
    let now = overwrite(mem, at, b);
    assert forall|k: int| 0 <= k < frames@.free.len() implies agree_on(
        mem,
        now,
        #[trigger] frames@.free[k],
    ) by {
        assert(frames@.free[k] != f);
        frames_apart(frames@.free[k], f);
    }
    frames.wf_elsewhere(mem, now);
}

/// A frame in use stays in use when another is handed out.
proof fn held_stays(a: FrameModel, f: u64)
    requires
        held(a, f),
    ensures
        !a.allocated().free.contains(f),
{
    if a.allocated().free.contains(f) {
        let k = choose|k: int| 0 <= k < a.allocated().free.len() && a.allocated().free[k] == f;
        if a.free.len() > 0 {
            assert(a.free[k + 1] == f);
        }
    }
}

/// Copy `page` to a frame of its own, if one is left.
fn copy_to_fresh(
    frames: &mut BootInfoFrameAllocator,
    sharers: &mut Sharers,
    mem: &mut [u8],
    page: &mut Mapping,
) -> (r: bool)
    requires
        old(frames).wf(old(mem)@),
        old(frames)@.in_use < usize::MAX,
        old(frames)@.next < usize::MAX,
        old(page).frame_nr() < old(sharers)@.len(),
        frame_ok(old(mem)@.len(), old(page).frame),
        held(old(frames)@, old(page).frame),
    ensures
        final(frames).wf(final(mem)@),
        final(mem)@.len() == old(mem)@.len(),
        r == (old(frames)@.head() is Some),
        match old(frames)@.head() {
            Some(fresh) => {
                &&& *final(page) == old(page).private(fresh)
                &&& final(mem)@ == frame_copied(old(mem)@, old(page).frame, fresh)
                &&& final(frames)@ == old(frames)@.allocated()
                &&& final(sharers)@ == dropped(old(sharers)@, old(page).frame_nr())
            },
            None => {
                &&& *final(page) == *old(page)
                &&& final(mem)@ == old(mem)@
                &&& final(frames)@ == old(frames)@
                &&& final(sharers)@ == old(sharers)@
            },
        },
{
    let ghost m0 = mem@;
    let ghost a0 = frames@;
    proof {
        frames.free_frames(m0);
    }
    let fresh: u64 = match frames.allocate_frame(mem) {
        Some(fresh) => fresh,
        None => {
            return false;
        },
    };
    proof {
        let m1 = mem@;
        let f = page.frame;
        frames_apart(f, fresh);
        assert(frame_copied(m1, f, fresh) =~= frame_copied(m0, f, fresh));
        if frames@.free.contains(fresh) {
            let k = choose|k: int| 0 <= k < frames@.free.len() && frames@.free[k] == fresh;
            if a0.free.len() > 0 {
                assert(a0.free[k + 1] == fresh && a0.free[0] == fresh);
            }
        }
        free_list_stays(frames, m1, fresh as int, m1.subrange(f as int, f + 4096), fresh);
    }
    sharers.copy_page(mem, page, fresh);
    true
}

/// A word of memory is within a frame.
proof fn word_in_frame(at: u64)
    requires
        at % 8 == 0,
    ensures
        ({
            let f = (at / 4096 * 4096) as u64;
            f % 4096 == 0 && f <= at && at + 8 <= f + 4096
        }),
{
    let q = at / 4096;
    let r = at % 4096;
    assert(at == q * 4096 + r);
    assert((q * 4096) % 4096 == 0);
    assert(r % 8 == 0);
}

/// Write `page` into the entry at `at`, in a table that is in use.
fn set_entry(frames: &BootInfoFrameAllocator, mem: &mut [u8], at: u64, page: &Mapping)
    requires
        frames.wf(old(mem)@),
        at % 8 == 0,
        at + 8 <= old(mem)@.len(),
        !frames@.free.contains((at / 4096 * 4096) as u64),
    ensures
        final(mem)@ == overwrite(old(mem)@, at as int, word_bytes(page.entry())),
        frames.wf(final(mem)@),
{
    let _len: usize = mem.len();
    proof {
        let table = (at / 4096 * 4096) as u64;
        word_in_frame(at);
        assert(word_bytes(page.entry()).len() == 8);
        free_list_stays(frames, mem@, at as int, word_bytes(page.entry()), table);
    }
    write64(mem, at as usize, page.frame | page.flags);
}

/// Make the page that `m` maps one that can be written to.
fn open_page(
    frames: &mut BootInfoFrameAllocator,
    sharers: &mut Sharers,
    mem: &mut [u8],
    m: &Mapped,
) -> (r: bool)
    requires
        old(frames).wf(old(mem)@),
        old(frames)@.in_use < usize::MAX,
        old(frames)@.next < usize::MAX,
        page_held(old(mem)@, old(frames)@, old(sharers)@, *m),
        m.at % 8 == 0,
        m.at + 8 <= old(mem)@.len(),
    ensures
        final(frames).wf(final(mem)@),
        r == (opened(old(mem)@, old(frames)@, old(sharers)@, *m) is Some),
        match opened(old(mem)@, old(frames)@, old(sharers)@, *m) {
            Some((now, a, extra)) => {
                &&& final(mem)@ == now
                &&& final(frames)@ == a
                &&& final(sharers)@ == extra
            },
            None => {
                &&& final(mem)@ == old(mem)@
                &&& final(frames)@ == old(frames)@
                &&& final(sharers)@ == old(sharers)@
            },
        },
{
    if m.entry & WRITABLE != 0 {
        return true;
    }
    if m.level != 1 {
        return false;
    }
    let mut page = mapping_in(m.entry);
    proof {
        let e = m.entry;
        assert((e & !0x000f_ffff_ffff_f000u64) & 0x200u64 == e & 0x200u64) by (bit_vector);
    }
    match sharers.write_step(&page) {
        WriteStep::NotCow => {
            return false;
        },
        WriteStep::Reclaim => {
            reclaim(&mut page);
        },
        WriteStep::Copy => {
            proof {
                held_stays(frames@, (m.at / 4096 * 4096) as u64);
            }
            if !copy_to_fresh(frames, sharers, mem, &mut page) {
                return false;
            }
        },
    }
    set_entry(frames, mem, m.at, &page);
    true
}

/// Make the page at `addr` one that can be written to: a page that a fork
/// shares gets a copy of its own, unless nobody else maps it any more.
/// `false`, and nothing changes, if the page is not mapped, is one that may
/// not be written to, or no frame is left for the copy.
pub fn make_writable(
    frames: &mut BootInfoFrameAllocator,
    sharers: &mut Sharers,
    mem: &mut [u8],
    pml4: u64,
    addr: u64,
) -> (r: bool)
    requires
        old(frames).wf(old(mem)@),
        old(frames)@.in_use < usize::MAX,
        old(frames)@.next < usize::MAX,
        mapped(old(mem)@, pml4, addr) matches Some(m) ==> page_held(
            old(mem)@,
            old(frames)@,
            old(sharers)@,
            m,
        ),
    ensures
        final(frames).wf(final(mem)@),
        r == (writable_state(old(mem)@, old(frames)@, old(sharers)@, pml4, addr) is Some),
        match writable_state(old(mem)@, old(frames)@, old(sharers)@, pml4, addr) {
            Some((now, a, extra)) => {
                &&& final(mem)@ == now
                &&& final(frames)@ == a
                &&& final(sharers)@ == extra
            },
            None => {
                &&& final(mem)@ == old(mem)@
                &&& final(frames)@ == old(frames)@
                &&& final(sharers)@ == old(sharers)@
            },
        },
{
    match find_entry(mem, pml4, addr) {
        Some(m) => open_page(frames, sharers, mem, &m),
        None => false,
    }
}

/// Whether the page that `m` maps, and the table with its entry, are in use,
/// as far as that matters for opening it.
fn is_page_held(frames: &BootInfoFrameAllocator, sharers: &Sharers, mem: &[u8], m: &Mapped) -> (r:
    bool)
    requires
        frames.wf(mem@),
    ensures
        r == page_held(mem@, frames@, sharers@, *m),
{
    if m.level != 1 || m.entry & WRITABLE != 0 || m.entry & COW == 0 {
        return true;
    }
    are_frames_held(frames, sharers, mem, m)
}

/// Whether the page that `m` maps, and the table with its entry, are in use.
fn are_frames_held(frames: &BootInfoFrameAllocator, sharers: &Sharers, mem: &[u8], m: &Mapped) -> (r:
    bool)
    requires
        frames.wf(mem@),
    ensures
        r == frames_held(mem@, frames@, sharers@, *m),
{
    let page = mapping_in(m.entry);
    (page.frame / PAGE_SIZE) < sharers.extra.len() as u64 && is_frame(mem.len(), page.frame)
        && frames.is_held(mem, page.frame) && frames.is_held(mem, m.at / 4096 * 4096)
}

/// See to it that what is written to the page that `m` maps is seen in that
/// address space only.
fn own_page(
    frames: &mut BootInfoFrameAllocator,
    sharers: &mut Sharers,
    mem: &mut [u8],
    m: &Mapped,
) -> (r: bool)
    requires
        old(frames).wf(old(mem)@),
        m.at % 8 == 0,
        m.at + 8 <= old(mem)@.len(),
    ensures
        final(frames).wf(final(mem)@),
        final(mem)@.len() == old(mem)@.len(),
        r == (owned(old(mem)@, old(frames)@, old(sharers)@, *m) is Some),
        match owned(old(mem)@, old(frames)@, old(sharers)@, *m) {
            Some((now, a, extra)) => {
                &&& final(mem)@ == now
                &&& final(frames)@ == a
                &&& final(sharers)@ == extra
            },
            None => {
                &&& final(mem)@ == old(mem)@
                &&& final(frames)@ == old(frames)@
                &&& final(sharers)@ == old(sharers)@
            },
        },
{
    let _len: usize = mem.len();
    let mut page = mapping_in(m.entry);
    let nr: u64 = page.frame / PAGE_SIZE;
    let marked: bool = m.entry & COW != 0;
    if m.entry & WRITABLE != 0 {
        return true;
    }
    if !marked && (m.level != 1 || nr >= sharers.extra.len() as u64 || sharers.extra_sharers(page.frame)
        == 0) {
        return true;
    }
    if m.level != 1 || !frames.can_count() || !are_frames_held(frames, sharers, mem, m) {
        return false;
    }
    if marked {
        return open_page(frames, sharers, mem, m);
    }
    let flags: u64 = page.flags;
    proof {
        held_stays(frames@, (m.at / 4096 * 4096) as u64);
    }
    if !copy_to_fresh(frames, sharers, mem, &mut page) {
        return false;
    }
    page.flags = flags;
    set_entry(frames, mem, m.at, &page);
    true
}

/// See to it that what is written to the `n` pages from page number `first`
/// on is seen in the address space `pml4` only. Stops at the first page for
/// which that cannot be done; returns for how many it was.
pub fn own_pages(
    frames: &mut BootInfoFrameAllocator,
    sharers: &mut Sharers,
    mem: &mut [u8],
    pml4: u64,
    first: u64,
    n: usize,
) -> (done: usize)
    requires
        old(frames).wf(old(mem)@),
        first + n <= 0x10_0000_0000_0000,
    ensures
        final(frames).wf(final(mem)@),
        final(mem)@.len() == old(mem)@.len(),
        ((final(mem)@, final(frames)@, final(sharers)@), done as int) == owned_pages(
            old(mem)@,
            old(frames)@,
            old(sharers)@,
            pml4,
            first as int,
            n as int,
        ),
        done <= n,
{
    let ghost m0 = mem@;
    let ghost a0 = frames@;
    let ghost x0 = sharers@;
    let mut k: usize = 0;
    while k < n
        invariant
            k <= n,
            first + n <= 0x10_0000_0000_0000,
            frames.wf(mem@),
            mem@.len() == m0.len(),
            m0 == old(mem)@,
            a0 == old(frames)@,
            x0 == old(sharers)@,
            ((mem@, frames@, sharers@), k as int) == owned_pages(
                m0,
                a0,
                x0,
                pml4,
                first as int,
                k as int,
            ),
        decreases n - k,
    {
        let at: u64 = (first + k as u64) * 4096;
        match find_entry(mem, pml4, at) {
            Some(m) => {
                if !own_page(frames, sharers, mem, &m) {
                    proof {
                        stopped_for_good(m0, a0, x0, pml4, first as int, k + 1, n as int);
                    }
                    return k;
                }
            },
            None => {},
        }
        k = k + 1;
    }
    k
}

/// Nothing more happens after the page at which it stopped.
proof fn stopped_for_good(
    mem: Seq<u8>,
    a: FrameModel,
    extra: Seq<u32>,
    pml4: u64,
    first: int,
    j: int,
    n: int,
)
    requires
        owned_pages(mem, a, extra, pml4, first, j).1 < j,
        0 <= j <= n,
    ensures
        owned_pages(mem, a, extra, pml4, first, n) == owned_pages(mem, a, extra, pml4, first, j),
    decreases n - j,
{
    if j < n {
        stopped_for_good(mem, a, extra, pml4, first, j, n - 1);
    }
}

/// Make the page at `addr` one that can be written to, if it is in use;
/// otherwise `false`, and nothing changes.
pub fn try_make_writable(
    frames: &mut BootInfoFrameAllocator,
    sharers: &mut Sharers,
    mem: &mut [u8],
    pml4: u64,
    addr: u64,
) -> (r: bool)
    requires
        old(frames).wf(old(mem)@),
    ensures
        final(frames).wf(final(mem)@),
        ({
            let a = old(frames)@;
            let now = writable_state(old(mem)@, a, old(sharers)@, pml4, addr);
            let held = mapped(old(mem)@, pml4, addr) matches Some(m) && page_held(
                old(mem)@,
                a,
                old(sharers)@,
                m,
            );
            if a.in_use < usize::MAX && a.next < usize::MAX && held && now is Some {
                &&& r
                &&& final(mem)@ == (now->0).0
                &&& final(frames)@ == (now->0).1
                &&& final(sharers)@ == (now->0).2
            } else {
                &&& !r
                &&& final(mem)@ == old(mem)@
                &&& final(frames)@ == old(frames)@
                &&& final(sharers)@ == old(sharers)@
            }
        }),
{
    if !frames.can_count() {
        return false;
    }
    match find_entry(mem, pml4, addr) {
        Some(m) => {
            if !is_page_held(frames, sharers, mem, &m) {
                return false;
            }
            open_page(frames, sharers, mem, &m)
        },
        None => false,
    }
}

/// The counts agree with the frames that are mapped, over all address
/// spaces: a frame has one mapping more than it has extra sharers, and a
/// frame that is not mapped has none.
pub open spec fn balanced(extra: Seq<u32>, mapped: Multiset<int>) -> bool {
    &&& forall|f: int| #[trigger] mapped.count(f) > 0 ==> 0 <= f < extra.len()
    &&& forall|f: int|
        0 <= f < extra.len() ==> #[trigger] extra[f] + 1 == mapped.count(f) || extra[f] == 0
            && mapped.count(f) == 0
}

/// The frames of an address space.
pub open spec fn frames(pages: Seq<Mapping>) -> Multiset<int>
    decreases pages.len(),
{
    if pages.len() == 0 {
        Multiset::empty()
    } else {
        frames(pages.drop_last()).insert(pages.last().frame_nr())
    }
}

/// A fork keeps the counts right: all pages of the parent are mapped once
/// more.
pub proof fn fork_keeps_balance(extra: Seq<u32>, mapped: Multiset<int>, pages: Seq<Mapping>)
    requires
        balanced(extra, mapped),
        forall|i: int| 0 <= i < pages.len() ==> mapped.count((#[trigger] pages[i]).frame_nr()) > 0,
        forall|f: int| 0 <= f < extra.len() ==> #[trigger] extra[f] + pages.len() <= u32::MAX,
    ensures
        balanced(added(extra, pages), mapped.add(frames(pages))),
        added(extra, pages).len() == extra.len(),
        forall|f: int|
            0 <= f < extra.len() ==> extra[f] <= #[trigger] added(extra, pages)[f] <= extra[f]
                + pages.len(),
    decreases pages.len(),
{
    if pages.len() == 0 {
        assert(mapped.add(frames(pages)) =~= mapped);
    } else {
        let front = pages.drop_last();
        let f = pages.last().frame_nr();
        assert forall|i: int| 0 <= i < front.len() implies mapped.count(
            (#[trigger] front[i]).frame_nr(),
        ) > 0 by {
            assert(front[i] == pages[i]);
        }
        fork_keeps_balance(extra, mapped, front);
        assert(mapped.count(pages[pages.len() - 1].frame_nr()) > 0);
        let a = added(extra, front);
        let b = added(extra, pages);
        let m = mapped.add(frames(front));
        let n = mapped.add(frames(pages));
        assert(a[f] + 1 == m.count(f));
        assert forall|g: int| 0 <= g < b.len() implies #[trigger] b[g] + 1 == n.count(g) || b[g]
            == 0 && n.count(g) == 0 by {
            assert(a[g] + 1 == m.count(g) || a[g] == 0 && m.count(g) == 0);
        }
        assert forall|g: int| #[trigger] n.count(g) > 0 implies 0 <= g < b.len() by {
            assert(m.count(g) > 0 || g == f);
        }
    }
}

/// A page is reclaimed only while nobody else maps its frame.
pub proof fn reclaimed_page_is_exclusive(extra: Seq<u32>, mapped: Multiset<int>, page: Mapping)
    requires
        balanced(extra, mapped),
        mapped.count(page.frame_nr()) > 0,
    ensures
        extra[page.frame_nr()] == 0 <==> mapped.count(page.frame_nr()) == 1,
{
    assert(extra[page.frame_nr()] + 1 == mapped.count(page.frame_nr()));
}

/// Copying a shared page to a frame that was not mapped keeps the counts
/// right.
pub proof fn copy_keeps_balance(extra: Seq<u32>, mapped: Multiset<int>, page: Mapping, fresh: u64)
    requires
        balanced(extra, mapped),
        mapped.count(page.frame_nr()) > 0,
        extra[page.frame_nr()] > 0,
        fresh as int / 4096 < extra.len(),
        mapped.count(fresh as int / 4096) == 0,
    ensures
        balanced(
            dropped(extra, page.frame_nr()),
            mapped.remove(page.frame_nr()).insert(fresh as int / 4096),
        ),
{
    let f = page.frame_nr();
    let g = fresh as int / 4096;
    let a = dropped(extra, f);
    let n = mapped.remove(f).insert(g);
    assert(extra[f] + 1 == mapped.count(f));
    assert(extra[g] + 1 == mapped.count(g) || extra[g] == 0 && mapped.count(g) == 0);
    assert forall|h: int| 0 <= h < a.len() implies #[trigger] a[h] + 1 == n.count(h) || a[h] == 0
        && n.count(h) == 0 by {
        assert(extra[h] + 1 == mapped.count(h) || extra[h] == 0 && mapped.count(h) == 0);
    }
    assert forall|h: int| #[trigger] n.count(h) > 0 implies 0 <= h < a.len() by {
        assert(mapped.count(h) > 0 || h == g);
    }
}

/// Taking a mapping away keeps the counts right, and says that the frame is
/// free exactly when no mapping of it is left.
pub proof fn release_keeps_balance(extra: Seq<u32>, mapped: Multiset<int>, frame: u64)
    requires
        balanced(extra, mapped),
        mapped.count(frame as int / 4096) > 0,
    ensures
        balanced(dropped(extra, frame as int / 4096), mapped.remove(frame as int / 4096)),
        extra[frame as int / 4096] == 0 <==> mapped.remove(frame as int / 4096).count(
            frame as int / 4096,
        ) == 0,
{
    let f = frame as int / 4096;
    let a = dropped(extra, f);
    let n = mapped.remove(f);
    assert(extra[f] + 1 == mapped.count(f));
    assert forall|h: int| 0 <= h < a.len() implies #[trigger] a[h] + 1 == n.count(h) || a[h] == 0
        && n.count(h) == 0 by {
        assert(extra[h] + 1 == mapped.count(h) || extra[h] == 0 && mapped.count(h) == 0);
    }
    assert forall|h: int| #[trigger] n.count(h) > 0 implies 0 <= h < a.len() by {
        assert(mapped.count(h) > 0);
    }
}

/// After a page has been copied, it holds what it held, so does every page
/// in another frame than the new one, and what is then written to it is
/// seen in that frame only.
pub proof fn write_after_fork_is_private(
    mem: Seq<u8>,
    page: Mapping,
    other: Mapping,
    fresh: u64,
    at: int,
    written: Seq<u8>,
)
    requires
        frame_ok(mem.len(), page.frame),
        frame_ok(mem.len(), other.frame),
        frame_ok(mem.len(), fresh),
        other.frame != fresh,
        0 <= at,
        at + written.len() <= 4096,
    ensures
        ({
            let copied = frame_copied(mem, page.frame, fresh);
            let after = overwrite(copied, fresh + at, written);
            &&& page.private(fresh).bytes(copied) == page.bytes(mem)
            &&& other.bytes(copied) == other.bytes(mem)
            &&& other.bytes(after) == other.bytes(mem)
            &&& page.private(fresh).bytes(after) == overwrite(page.bytes(mem), at, written)
        }),
{
    frames_apart(other.frame, fresh);
    let copied = frame_copied(mem, page.frame, fresh);
    let after = overwrite(copied, fresh + at, written);
    assert(page.private(fresh).bytes(copied) =~= page.bytes(mem));
    assert(other.bytes(copied) =~= other.bytes(mem));
    assert(other.bytes(after) =~= other.bytes(mem));
    assert(page.private(fresh).bytes(after) =~= overwrite(page.bytes(mem), at, written));
}

/// Whether the entries are different words of memory that hold what the list
/// says, and map different frames.
pub open spec fn distinct(mem: Seq<u8>, leaves: Seq<Mapped>) -> bool {
    &&& forall|k: int|
        0 <= k < leaves.len() ==> {
            let leaf = #[trigger] leaves[k];
            leaf.at + 8 <= mem.len() && le64(mem, leaf.at as int) == leaf.entry
        }
    &&& forall|j: int, k: int|
        #![trigger leaves[j], leaves[k]]
        0 <= j < k < leaves.len() ==> {
            &&& leaves[j].at + 8 <= leaves[k].at || leaves[k].at + 8 <= leaves[j].at
            &&& mapping_of(leaves[j].entry).frame_nr() != mapping_of(leaves[k].entry).frame_nr()
        }
}

/// Releasing the pages of an address space takes those out of its tables
/// that somebody else still maps, and leaves the others, which are then
/// freed with it.
pub proof fn shared_pages_outlive_the_space(
    mem: Seq<u8>,
    extra: Seq<u32>,
    leaves: Seq<Mapped>,
    n: int,
    k: int,
)
    requires
        distinct(mem, leaves),
        forall|j: int|
            0 <= j < leaves.len() ==> mapping_of((#[trigger] leaves[j]).entry).frame_nr()
                < extra.len(),
        0 <= n <= leaves.len(),
        0 <= k < leaves.len(),
    ensures
        ({
            let (now, left) = released(mem, extra, leaves, n);
            let f = mapping_of(leaves[k].entry).frame_nr();
            &&& now.len() == mem.len()
            &&& left.len() == extra.len()
            &&& k >= n ==> left[f] == extra[f]
            &&& k < n && extra[f] > 0 ==> left[f] == extra[f] - 1
            &&& le64(now, leaves[k].at as int) == (if k < n && extra[f] > 0 {
                0
            } else {
                leaves[k].entry as int
            })
        }),
    decreases n,
{
    if n > 0 {
        shared_pages_outlive_the_space(mem, extra, leaves, n - 1, k);
        shared_pages_outlive_the_space(mem, extra, leaves, n - 1, n - 1);
        let (m, x) = released(mem, extra, leaves, n - 1);
        let at = leaves[n - 1].at as int;
        let f = mapping_of(leaves[n - 1].entry).frame_nr();
        assert(mapping_of(leaves[n - 1].entry).frame_nr() < extra.len());
        assert(mapping_of(leaves[k].entry).frame_nr() < extra.len());
        let now = overwrite(m, at, word_bytes(0));
        stored_word(m, at, 0);
        if k != n - 1 {
            assert(leaves[k].at + 8 <= at || at + 8 <= leaves[k].at);
            assert(leaves[k].at + 8 <= mem.len());
            same_word(now, m, leaves[k].at as int);
        }
    }
}

/// An entry says what its mapping says, as long as the frame is one whose
/// address an entry can hold.
pub(crate) proof fn entry_round_trip(frame: u64, e: u64)
    requires
        frame % 4096 == 0,
        frame < 0x10_0000_0000_0000,
    ensures
        ({
            let p = mapping_of(e).private(frame);
            &&& mapping_of(p.entry()) == p
            &&& p.entry() & WRITABLE != 0
            &&& p.entry() & COW == 0
        }),
{
    assert(({
        let m = 0x000f_ffff_ffff_f000u64;
        let g = ((e & !m) & !0x200u64) | 2u64;
        &&& (frame | g) & m == frame
        &&& (frame | g) & !m == g
        &&& (frame | g) & 2u64 != 0
        &&& (frame | g) & 0x200u64 == 0
    })) by (bit_vector)
        requires
            frame % 4096 == 0,
            frame < 0x10_0000_0000_0000,
    ;
}

/// Once a page has been opened for writing, the page at its address can be
/// written to and holds what it held before, in a frame that is the next
/// free one or that nobody else maps, and every other page holds what it
/// held.
pub proof fn opened_page_keeps_its_bytes(
    mem: Seq<u8>,
    a: FrameModel,
    extra: Seq<u32>,
    pml4: u64,
    addr: u64,
    other: Mapping,
)
    requires
        mem.len() <= 0x10_0000_0000_0000,
        mapped(mem, pml4, addr) matches Some(m) && m.level == 1 && frame_ok(
            mem.len(),
            mapping_of(m.entry).frame,
        ) && m.entry & WRITABLE == 0,
        writable_state(mem, a, extra, pml4, addr) is Some,
        a.head() matches Some(f) ==> frame_ok(mem.len(), f),
        // The tables on the way are in use, and are no pages.
        tables(mem, pml4, 4, addr).no_duplicates(),
        forall|k: int|
            0 <= k < tables(mem, pml4, 4, addr).len() ==> {
                let t = #[trigger] tables(mem, pml4, 4, addr)[k];
                held(a, t) && t != mapping_of((mapped(mem, pml4, addr)->0).entry).frame && t
                    != other.frame
            },
        held(a, mapping_of((mapped(mem, pml4, addr)->0).entry).frame),
        held(a, other.frame),
        frame_ok(mem.len(), other.frame),
    ensures
        ({
            let before = mapping_of((mapped(mem, pml4, addr)->0).entry);
            let now = (writable_state(mem, a, extra, pml4, addr)->0).0;
            let after = mapping_of((mapped(now, pml4, addr)->0).entry);
            &&& mapped(now, pml4, addr) is Some
            &&& (mapped(now, pml4, addr)->0).entry & WRITABLE != 0
            &&& after.bytes(now) == before.bytes(mem)
            &&& after.frame == before.frame && extra[before.frame_nr()] == 0 || Some(after.frame)
                == a.head()
            &&& other.bytes(now) == other.bytes(mem)
        }),
{
    let m = mapped(mem, pml4, addr)->0;
    let page = mapping_of(m.entry);
    let path = tables(mem, pml4, 4, addr);
    let last = path.last();
    let i = table_index(addr, 1);
    let now = (writable_state(mem, a, extra, pml4, addr)->0).0;
    let reclaimed = extra[page.frame_nr()] == 0;
    let frame = if reclaimed { page.frame } else { a.head()->0 };
    let e = page.private(frame).entry();
    let base = if reclaimed { mem } else { frame_copied(mem, page.frame, frame) };
    entry_is_in_last_table(mem, pml4, addr);
    assert(path[path.len() - 1] == last);
    entry_round_trip(frame, m.entry);
    assert(e != 0) by {
        assert(0u64 & 2u64 == 0) by (bit_vector);
    }
    assert(now == overwrite(base, m.at as int, word_bytes(e)));
    stored_word(base, m.at as int, e);
    assert(entry(now, last, i) == e);
    assert forall|k: int| 0 <= k < path.len() - 1 implies agree_on(mem, now, #[trigger] path[k]) by {
        assert(path[k] != last);
        frames_apart(path[k], last);
        if !reclaimed {
            frames_apart(path[k], frame);
        }
    }
    changed_entry_is_found(mem, now, pml4, addr, e);
    frames_apart(page.frame, last);
    frames_apart(other.frame, last);
    if !reclaimed {
        frames_apart(frame, last);
        frames_apart(other.frame, frame);
    }
    assert(page.private(frame).bytes(now) =~= page.bytes(mem));
    assert(other.bytes(now) =~= other.bytes(mem));
}

} // verus!
