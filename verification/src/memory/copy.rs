//! Copying between address spaces, and what a fork of one needs.
use vstd::prelude::*;

use crate::memory::cow::{mapping_in, mapping_of, own_pages, owned_pages, Mapping, Sharers};
use crate::memory::frames::{agree_on, frames_apart, BootInfoFrameAllocator, FrameModel};
use crate::memory::map::{page_list, page_list_len, segment_pages, MemMap, Segment, PAGE_SIZE};
use crate::memory::paging::{pml4_slots_unused, slots_unused, ENTRIES};
use crate::memory::walk::{find_entry, mapped, pages_are_aligned, seen, window};

verus! {

/// Why a copy stopped.
#[derive(Debug, Clone, Copy, PartialEq, Eq, Structural)]
pub enum CopyError {
    SrcNotMapped,
    DstNotMapped,
}

/// Consecutive pages of an address space, from page number `first_page` on:
/// the physical address of each that is mapped.
pub struct Window {
    pub first_page: u64,
    pub pages: Vec<Option<u64>>,
}

/// Consecutive pages of an address space, as a sequence.
#[verifier::ext_equal]
pub struct WindowModel {
    pub first_page: u64,
    pub pages: Seq<Option<u64>>,
}

impl View for Window {
    type V = WindowModel;

    open spec fn view(&self) -> WindowModel {
        WindowModel { first_page: self.first_page, pages: self.pages@ }
    }
}

impl WindowModel {
    /// The physical address of virtual address `a`.
    pub open spec fn phys(self, a: int) -> Option<int> {
        match self.pages[a / 4096 - self.first_page] {
            Some(p) => Some(p + a % 4096),
            None => None,
        }
    }

    /// Whether the `len` bytes at `a` lie in the window, and every mapped
    /// page of it within a memory of `size` bytes.
    pub open spec fn covers(self, a: int, len: int, size: nat) -> bool {
        &&& len > 0 ==> self.first_page <= a / 4096
        &&& len > 0 ==> (a + len - 1) / 4096 < self.first_page + self.pages.len()
        &&& forall|k: int|
            0 <= k < self.pages.len() && (#[trigger] self.pages[k]) is Some ==> (self.pages[k]->0)
                + PAGE_SIZE <= size
    }
}

/// The first of the bytes from `i` on that is not mapped on one of the two
/// sides, and on which: the source is asked first.
pub open spec fn copy_fault(src: WindowModel, s: int, dst: WindowModel, d: int, i: int, len: int) -> Option<
    (int, CopyError),
>
    decreases len - i,
{
    if i >= len {
        None
    } else if src.phys(s + i) is None {
        Some((i, CopyError::SrcNotMapped))
    } else if dst.phys(d + i) is None {
        Some((i, CopyError::DstNotMapped))
    } else {
        copy_fault(src, s, dst, d, i + 1, len)
    }
}

/// Memory after the first `n` bytes were copied, one after the other.
pub open spec fn copied(mem: Seq<u8>, src: WindowModel, s: int, dst: WindowModel, d: int, n: int) -> Seq<u8>
    decreases n,
{
    if n <= 0 {
        mem
    } else {
        let m = copied(mem, src, s, dst, d, n - 1);
        m.update(dst.phys(d + n - 1)->0, m[src.phys(s + n - 1)->0])
    }
}

/// Whether `r` and `now` are the result of copying `len` bytes of memory
/// `mem`, and memory afterwards: all of them are copied, or those before the
/// first that is not mapped.
pub open spec fn copies(
    src: WindowModel,
    s: int,
    dst: WindowModel,
    d: int,
    len: int,
    mem: Seq<u8>,
    now: Seq<u8>,
    r: Result<(), CopyError>,
) -> bool {
    match copy_fault(src, s, dst, d, 0, len) {
        Some((i, e)) => r == Err::<(), CopyError>(e) && now == copied(mem, src, s, dst, d, i),
        None => r is Ok && now == copied(mem, src, s, dst, d, len),
    }
}

/// Copy `len` bytes from `src_addr` in one window to `dst_addr` in another.
fn copy_windows(
    mem: &mut [u8],
    src: &Window,
    src_addr: u64,
    dst: &Window,
    dst_addr: u64,
    len: usize,
) -> (r: Result<(), CopyError>)
    requires
        src_addr + len <= u64::MAX,
        dst_addr + len <= u64::MAX,
        src@.covers(src_addr as int, len as int, old(mem)@.len()),
        dst@.covers(dst_addr as int, len as int, old(mem)@.len()),
    ensures
        copies(
            src@,
            src_addr as int,
            dst@,
            dst_addr as int,
            len as int,
            old(mem)@,
            final(mem)@,
            r,
        ),
{
    let size: usize = mem.len();
    let src_pages: usize = src.pages.len();
    let dst_pages: usize = dst.pages.len();
    let ghost m0 = mem@;
    let ghost s = src_addr as int;
    let ghost d = dst_addr as int;
    let mut done: usize = 0;
    while done < len
        invariant
            done <= len,
            s == src_addr,
            d == dst_addr,
            size == m0.len(),
            src_pages == src.pages@.len(),
            dst_pages == dst.pages@.len(),
            mem@.len() == m0.len(),
            src_addr + len <= u64::MAX,
            dst_addr + len <= u64::MAX,
            src@.covers(s, len as int, m0.len()),
            dst@.covers(d, len as int, m0.len()),
            m0 == old(mem)@,
            copy_fault(src@, s, dst@, d, 0, len as int) == copy_fault(
                src@,
                s,
                dst@,
                d,
                done as int,
                len as int,
            ),
            mem@ == copied(m0, src@, s, dst@, d, done as int),
        decreases len - done,
    {
        let from: u64 = src_addr + done as u64;
        let to: u64 = dst_addr + done as u64;
        let si: usize = (from / 4096 - src.first_page) as usize;
        let src_page: u64 = match src.pages[si] {
            Some(p) => p,
            None => {
                return Err(CopyError::SrcNotMapped);
            },
        };
        let di: usize = (to / 4096 - dst.first_page) as usize;
        let dst_page: u64 = match dst.pages[di] {
            Some(p) => p,
            None => {
                return Err(CopyError::DstNotMapped);
            },
        };
        let src_room: usize = 4096 - (from % 4096) as usize;
        let dst_room: usize = 4096 - (to % 4096) as usize;
        let mut chunk: usize = len - done;
        if src_room < chunk {
            chunk = src_room;
        }
        if dst_room < chunk {
            chunk = dst_room;
        }
        let src_at: usize = src_page as usize + (from % 4096) as usize;
        let dst_at: usize = dst_page as usize + (to % 4096) as usize;
        let ghost start = done as int;
        let mut k: usize = 0;
        while k < chunk
            invariant
                k <= chunk,
                0 <= start,
                start + chunk <= len,
                s == src_addr,
                d == dst_addr,
                from == s + start,
                to == d + start,
                0 < chunk,
                from % 4096 + chunk <= 4096,
                to % 4096 + chunk <= 4096,
                size == m0.len(),
                mem@.len() == m0.len(),
                src.pages@[from as int / 4096 - src.first_page] == Some(src_page),
                dst.pages@[to as int / 4096 - dst.first_page] == Some(dst_page),
                src_page + PAGE_SIZE <= m0.len(),
                dst_page + PAGE_SIZE <= m0.len(),
                src_at == src_page + from % 4096,
                dst_at == dst_page + to % 4096,
                copy_fault(src@, s, dst@, d, 0, len as int) == copy_fault(
                    src@,
                    s,
                    dst@,
                    d,
                    start + k,
                    len as int,
                ),
                mem@ == copied(m0, src@, s, dst@, d, start + k),
            decreases chunk - k,
        {
            proof {
                let a = s + start + k;
                let b = d + start + k;
                assert(a / 4096 == from as int / 4096 && a % 4096 == from as int % 4096 + k);
                assert(b / 4096 == to as int / 4096 && b % 4096 == to as int % 4096 + k);
                assert(src@.phys(a) == Some(src_at + k));
                assert(dst@.phys(b) == Some(dst_at + k));
            }
            let ghost was = mem@;
            let byte: u8 = mem[src_at + k];
            mem[dst_at + k] = byte;
            proof {
                let n = start + k + 1;
                assert(s + n - 1 == s + start + k);
                assert(d + n - 1 == d + start + k);
                assert(copied(m0, src@, s, dst@, d, n) == was.update(dst_at + k, was[src_at + k]));
            }
            k = k + 1;
        }
        done = done + chunk;
    }
    Ok(())
}

/// How many pages the `len` bytes at `addr` lie in.
pub open spec fn span(addr: u64, len: int) -> int {
    if len > 0 {
        (addr + len - 1) / 4096 - addr as int / 4096 + 1
    } else {
        0
    }
}

/// How many pages the `len` bytes at `addr` lie in.
fn span_of(addr: u64, len: usize) -> (n: usize)
    requires
        addr + len <= u64::MAX,
    ensures
        n == span(addr, len as int),
        addr as int / 4096 + n <= 0x10_0000_0000_0000,
{
    if len > 0 {
        ((addr + (len as u64 - 1)) / 4096 - addr / 4096) as usize + 1
    } else {
        0
    }
}

/// What of a window the kernel may write to: its first `k` pages, as far as
/// they are in frames that are not free.
pub open spec fn writable_part(w: WindowModel, k: int, free: Seq<u64>) -> WindowModel {
    WindowModel {
        pages: Seq::new(
            w.pages.len(),
            |i: int|
                match w.pages[i] {
                    Some(p) if i < k && !free.contains(p) => Some(p),
                    _ => None,
                },
        ),
        ..w
    }
}

/// Keep what of a window the kernel may write to.
fn restrict(frames: &BootInfoFrameAllocator, mem: &[u8], w: Window, k: usize) -> (r: Window)
    requires
        frames.wf(mem@),
    ensures
        r@ == writable_part(w@, k as int, frames@.free),
{
    let mut pages: Vec<Option<u64>> = Vec::new();
    let mut i: usize = 0;
    while i < w.pages.len()
        invariant
            i <= w.pages@.len(),
            frames.wf(mem@),
            pages@.len() == i,
            forall|j: int|
                0 <= j < i ==> #[trigger] pages@[j] == writable_part(
                    w@,
                    k as int,
                    frames@.free,
                ).pages[j],
        decreases w.pages@.len() - i,
    {
        let page: Option<u64> = match w.pages[i] {
            Some(p) => {
                if i < k && !frames.is_free(mem, p) {
                    Some(p)
                } else {
                    None
                }
            },
            None => None,
        };
        pages.push(page);
        i = i + 1;
    }
    let r = Window { first_page: w.first_page, pages };
    assert(r@ =~= writable_part(w@, k as int, frames@.free));
    r
}

/// Whether `r`, `now`, `b` and `left` are the result of copying `len` bytes
/// between address spaces, and memory, frames and sharers afterwards. First
/// the pages of the destination are made its own, one after the other, up to
/// one for which that cannot be. Then the bytes are copied, as far as the
/// destination may be written to.
pub open spec fn copies_between(
    mem: Seq<u8>,
    a: FrameModel,
    extra: Seq<u32>,
    src_pml4: u64,
    src_addr: u64,
    dst_pml4: u64,
    dst_addr: u64,
    len: int,
    now: Seq<u8>,
    b: FrameModel,
    left: Seq<u32>,
    r: Result<(), CopyError>,
) -> bool {
    let ((m, c, x), k) = owned_pages(
        mem,
        a,
        extra,
        dst_pml4,
        dst_addr as int / 4096,
        span(dst_addr, len),
    );
    &&& b == c
    &&& left == x
    &&& copies(
        seen(m, src_pml4, src_addr, len),
        src_addr as int,
        writable_part(seen(m, dst_pml4, dst_addr, len), k, c.free),
        dst_addr as int,
        len,
        m,
        now,
        r,
    )
}

/// Copy `len` bytes from `src_addr` in the address space `src_pml4` to
/// `dst_addr` in the address space `dst_pml4`, through physical memory, page
/// by page: a copy may cross page boundaries on either side. It stops at the
/// first page that is not mapped; what came before is copied. A page of the
/// destination that somebody else maps gets a frame of its own first, so
/// that nobody else sees what is written; if there is none, the copy stops
/// there, as it does at a page in a frame that is free. The page tables are
/// read before anything is copied.
pub fn copy_between_address_spaces(
    frames: &mut BootInfoFrameAllocator,
    sharers: &mut Sharers,
    mem: &mut [u8],
    src_pml4: u64,
    src_addr: u64,
    dst_pml4: u64,
    dst_addr: u64,
    len: usize,
) -> (r: Result<(), CopyError>)
    requires
        old(frames).wf(old(mem)@),
        src_addr + len <= u64::MAX,
        dst_addr + len <= u64::MAX,
    ensures
        final(frames).wf(final(mem)@),
        copies_between(
            old(mem)@,
            old(frames)@,
            old(sharers)@,
            src_pml4,
            src_addr,
            dst_pml4,
            dst_addr,
            len as int,
            final(mem)@,
            final(frames)@,
            final(sharers)@,
            r,
        ),
{
    let _size: usize = mem.len();
    let n: usize = span_of(dst_addr, len);
    let k: usize = own_pages(frames, sharers, mem, dst_pml4, dst_addr / 4096, n);
    let src = window(mem, src_pml4, src_addr, len);
    let all = window(mem, dst_pml4, dst_addr, len);
    proof {
        pages_are_aligned(mem@, dst_pml4, dst_addr, len as int);
    }
    let ghost seen_dst = all@;
    let dst = restrict(frames, mem, all, k);
    let ghost m = mem@;
    assert(dst@.covers(dst_addr as int, len as int, m.len())) by {
        assert forall|i: int| 0 <= i < dst@.pages.len() && (#[trigger] dst@.pages[i]) is Some implies (
        dst@.pages[i]->0) + PAGE_SIZE <= m.len() by {
            assert(seen_dst.pages[i] == dst@.pages[i]);
        }
    }
    let r = copy_windows(mem, &src, src_addr, &dst, dst_addr, len);
    proof {
        let (s, d) = (src_addr as int, dst_addr as int);
        let done = match copy_fault(src@, s, dst@, d, 0, len as int) {
            Some((i, e)) => i,
            None => len as int,
        };
        fault_comes_first(src@, s, dst@, d, 0, len as int);
        copied_len(m, src@, s, dst@, d, done, len as int);
        frames.free_frames(m);
        assert forall|j: int| 0 <= j < frames@.free.len() implies agree_on(
            m,
            mem@,
            #[trigger] frames@.free[j],
        ) by {
            let f = frames@.free[j];
            assert forall|i: int| 0 <= i < dst@.pages.len() implies #[trigger] dst@.pages[i] != Some(
                f,
            ) by {
                if dst@.pages[i] == Some(f) {
                    assert(frames@.free.contains(f));
                }
            }
            aligned_part(seen_dst, k as int, frames@.free);
            copied_elsewhere(m, src@, s, dst@, d, done, len as int, f);
        }
        frames.wf_elsewhere(m, mem@);
    }
    r
}

/// Every page of a window is at the start of a frame.
pub open spec fn aligned(w: WindowModel) -> bool {
    forall|i: int|
        0 <= i < w.pages.len() && (#[trigger] w.pages[i]) is Some ==> (w.pages[i]->0) % 4096 == 0
}

proof fn aligned_part(w: WindowModel, k: int, free: Seq<u64>)
    requires
        aligned(w),
    ensures
        aligned(writable_part(w, k, free)),
{
    let part = writable_part(w, k, free);
    assert forall|i: int| 0 <= i < part.pages.len() && (#[trigger] part.pages[i]) is Some implies (
    part.pages[i]->0) % 4096 == 0 by {
        assert(w.pages[i] == part.pages[i]);
    }
}

/// Before the first byte at fault all are mapped.
pub(crate) proof fn fault_comes_first(src: WindowModel, s: int, dst: WindowModel, d: int, from: int, len: int)
    requires
        from <= len,
    ensures
        ({
            let end = match copy_fault(src, s, dst, d, from, len) {
                Some((i, e)) => i,
                None => len,
            };
            &&& from <= end <= len
            &&& forall|i: int| from <= i < end ==> (#[trigger] dst.phys(d + i)) is Some
        }),
    decreases len - from,
{
    if from < len {
        fault_comes_first(src, s, dst, d, from + 1, len);
        let end = match copy_fault(src, s, dst, d, from, len) {
            Some((i, e)) => i,
            None => len,
        };
        assert forall|i: int| from <= i < end implies (#[trigger] dst.phys(d + i)) is Some by {
            if i == from {
                assert(dst.phys(d + from) is Some);
            }
        }
    }
}

pub(crate) proof fn copied_len(
    mem: Seq<u8>,
    src: WindowModel,
    s: int,
    dst: WindowModel,
    d: int,
    n: int,
    len: int,
)
    requires
        0 <= d,
        n <= len,
        dst.covers(d, len, mem.len()),
        forall|i: int| 0 <= i < n ==> (#[trigger] dst.phys(d + i)) is Some,
    ensures
        copied(mem, src, s, dst, d, n).len() == mem.len(),
    decreases n,
{
    if n > 0 {
        copied_len(mem, src, s, dst, d, n - 1, len);
        assert(dst.phys(d + (n - 1)) is Some);
        in_memory(dst, d, n - 1, len, mem.len());
        assert(d + (n - 1) == d + n - 1);
    }
}

/// A byte of a page is not in a frame that is not in the window.
pub(crate) proof fn phys_elsewhere(w: WindowModel, a: int, i: int, len: int, size: nat, f: u64)
    requires
        w.covers(a, len, size),
        aligned(w),
        0 <= a,
        0 <= i < len,
        w.phys(a + i) is Some,
        f % 4096 == 0,
        forall|j: int| 0 <= j < w.pages.len() ==> #[trigger] w.pages[j] != Some(f),
    ensures
        0 <= w.phys(a + i)->0 < size,
        !(f <= w.phys(a + i)->0 < f + 4096),
{
    in_memory(w, a, i, len, size);
    let j = (a + i) / 4096 - w.first_page;
    assert((a + i) / 4096 <= (a + len - 1) / 4096);
    assert(a / 4096 <= (a + i) / 4096);
    let p = w.pages[j]->0;
    assert(w.pages[j] is Some);
    assert(w.pages[j] != Some(f));
    frames_apart(p, f);
}

/// A copy leaves every frame alone that is not in the window it goes to.
pub proof fn copied_elsewhere(
    mem: Seq<u8>,
    src: WindowModel,
    s: int,
    dst: WindowModel,
    d: int,
    n: int,
    len: int,
    f: u64,
)
    requires
        0 <= d,
        n <= len,
        dst.covers(d, len, mem.len()),
        aligned(dst),
        f % 4096 == 0,
        f + 4096 <= mem.len(),
        forall|j: int| 0 <= j < dst.pages.len() ==> #[trigger] dst.pages[j] != Some(f),
        forall|i: int| 0 <= i < n ==> (#[trigger] dst.phys(d + i)) is Some,
    ensures
        agree_on(mem, copied(mem, src, s, dst, d, n), f),
    decreases n,
{
    if n > 0 {
        copied_elsewhere(mem, src, s, dst, d, n - 1, len, f);
        assert(dst.phys(d + (n - 1)) is Some);
        assert(d + (n - 1) == d + n - 1);
        phys_elsewhere(dst, d, n - 1, len, mem.len(), f);
        copied_len(mem, src, s, dst, d, n - 1, len);
        let was = copied(mem, src, s, dst, d, n - 1);
        let now = copied(mem, src, s, dst, d, n);
        assert forall|i: int| f <= i < f + 4096 implies #[trigger] mem[i] == now[i] by {
            assert(mem[i] == was[i]);
        }
    }
}

/// Whether no byte of the destination is a byte of the source, nor two bytes
/// of the destination the same.
pub open spec fn apart(src: WindowModel, s: int, dst: WindowModel, d: int, len: int) -> bool {
    &&& forall|i: int, j: int|
        #![trigger src.phys(s + i), dst.phys(d + j)]
        0 <= i < len && 0 <= j < len ==> src.phys(s + i) != dst.phys(d + j)
    &&& forall|i: int, j: int|
        #![trigger dst.phys(d + i), dst.phys(d + j)]
        0 <= i < j < len ==> dst.phys(d + i) != dst.phys(d + j)
}

/// A copy between places that do not overlap puts the bytes of the source
/// into the destination, and changes nothing else.
pub proof fn copy_delivers(mem: Seq<u8>, src: WindowModel, s: int, dst: WindowModel, d: int, n: int)
    requires
        0 <= n,
        src.covers(s, n, mem.len()),
        dst.covers(d, n, mem.len()),
        0 <= s,
        0 <= d,
        copy_fault(src, s, dst, d, 0, n) is None,
        apart(src, s, dst, d, n),
    ensures
        copied(mem, src, s, dst, d, n).len() == mem.len(),
        forall|i: int|
            #![trigger dst.phys(d + i)]
            0 <= i < n ==> copied(mem, src, s, dst, d, n)[dst.phys(d + i)->0] == mem[src.phys(
                s + i,
            )->0],
        forall|x: int|
            0 <= x < mem.len() && (forall|i: int|
                0 <= i < n ==> #[trigger] dst.phys(d + i) != Some(x)) ==> #[trigger] copied(
                mem,
                src,
                s,
                dst,
                d,
                n,
            )[x] == mem[x],
    decreases n,
{
    if n > 0 {
        no_fault_before(src, s, dst, d, 0, n);
        copy_delivers(mem, src, s, dst, d, n - 1);
        let m = copied(mem, src, s, dst, d, n - 1);
        let now = copied(mem, src, s, dst, d, n);
        let a = src.phys(s + n - 1)->0;
        let b = dst.phys(d + n - 1)->0;
        in_memory(src, s, n - 1, n, mem.len());
        in_memory(dst, d, n - 1, n, mem.len());
        // The source byte has not been written to.
        assert forall|i: int| 0 <= i < n - 1 implies #[trigger] dst.phys(d + i) != Some(a) by {
            assert(src.phys(s + (n - 1)) != dst.phys(d + i));
            assert(s + (n - 1) == s + n - 1);
        }
        assert(m[a] == mem[a]);
        assert forall|i: int| #![trigger dst.phys(d + i)] 0 <= i < n implies now[dst.phys(d + i)->0]
            == mem[src.phys(s + i)->0] by {
            if i < n - 1 {
                assert(dst.phys(d + i) != dst.phys(d + (n - 1)));
                assert(d + (n - 1) == d + n - 1);
                no_fault_at(src, s, dst, d, 0, n, i);
                in_memory(dst, d, i, n, mem.len());
            }
        }
        assert forall|x: int|
            0 <= x < mem.len() && (forall|i: int|
                0 <= i < n ==> #[trigger] dst.phys(d + i) != Some(x)) implies #[trigger] now[x]
            == mem[x] by {
            assert(dst.phys(d + (n - 1)) != Some(x));
            assert(d + (n - 1) == d + n - 1);
            assert(m[x] == mem[x]);
        }
    }
}

/// A mapped byte of a window is a byte of memory.
proof fn in_memory(w: WindowModel, a: int, i: int, len: int, size: nat)
    requires
        w.covers(a, len, size),
        0 <= i < len,
        0 <= a,
        w.phys(a + i) is Some,
    ensures
        0 <= w.phys(a + i)->0 < size,
{
    let k = (a + i) / 4096 - w.first_page;
    assert((a + i) / 4096 <= (a + len - 1) / 4096);
    assert(a / 4096 <= (a + i) / 4096);
    assert(w.pages[k] is Some);
}

/// Without a fault nothing before is faulty either.
pub(crate) proof fn no_fault_at(src: WindowModel, s: int, dst: WindowModel, d: int, from: int, len: int, i: int)
    requires
        copy_fault(src, s, dst, d, from, len) is None,
        from <= i < len,
    ensures
        src.phys(s + i) is Some,
        dst.phys(d + i) is Some,
    decreases i - from,
{
    if from < i {
        no_fault_at(src, s, dst, d, from + 1, len, i);
    }
}

proof fn no_fault_before(src: WindowModel, s: int, dst: WindowModel, d: int, from: int, len: int)
    requires
        copy_fault(src, s, dst, d, from, len) is None,
        from < len,
    ensures
        copy_fault(src, s, dst, d, from, len - 1) is None,
        src.phys(s + len - 1) is Some,
        dst.phys(d + len - 1) is Some,
    decreases len - from,
{
    if from < len - 1 {
        no_fault_before(src, s, dst, d, from + 1, len);
    }
}

/// How many of `len` bytes at `d` come before the first from `i` on that is
/// not mapped.
pub open spec fn room(dst: WindowModel, d: int, i: int, len: int) -> int
    decreases len - i,
{
    if i >= len || dst.phys(d + i) is None {
        i
    } else {
        room(dst, d, i + 1, len)
    }
}

/// Memory after the first `n` of `bytes` were put at `d`, one after the
/// other.
pub open spec fn put(mem: Seq<u8>, dst: WindowModel, d: int, bytes: Seq<u8>, n: int) -> Seq<u8>
    decreases n,
{
    if n <= 0 {
        mem
    } else {
        put(mem, dst, d, bytes, n - 1).update(dst.phys(d + n - 1)->0, bytes[n - 1])
    }
}

/// Whether `r`, `now`, `b` and `left` are the result of putting `bytes` at
/// `addr` in the address space `pml4`, and memory, frames and sharers
/// afterwards.
pub open spec fn puts(
    mem: Seq<u8>,
    a: FrameModel,
    extra: Seq<u32>,
    pml4: u64,
    addr: u64,
    bytes: Seq<u8>,
    now: Seq<u8>,
    b: FrameModel,
    left: Seq<u32>,
    r: Result<(), CopyError>,
) -> bool {
    let len = bytes.len() as int;
    let ((m, c, x), k) = owned_pages(mem, a, extra, pml4, addr as int / 4096, span(addr, len));
    let dst = writable_part(seen(m, pml4, addr, len), k, c.free);
    let n = room(dst, addr as int, 0, len);
    &&& b == c
    &&& left == x
    &&& now == put(m, dst, addr as int, bytes, n)
    &&& r == (if n >= len {
        Ok(())
    } else {
        Err(CopyError::DstNotMapped)
    })
}

/// Put `bytes` at `addr` in the address space `pml4`. It stops at the first
/// page that is not mapped; what came before is put there. A page that
/// somebody else maps gets a frame of its own first, as in a copy between
/// address spaces. The page tables are read before anything is written.
pub fn put_bytes(
    frames: &mut BootInfoFrameAllocator,
    sharers: &mut Sharers,
    mem: &mut [u8],
    pml4: u64,
    addr: u64,
    bytes: &[u8],
) -> (r: Result<(), CopyError>)
    requires
        old(frames).wf(old(mem)@),
        addr + bytes@.len() <= u64::MAX,
    ensures
        final(frames).wf(final(mem)@),
        puts(
            old(mem)@,
            old(frames)@,
            old(sharers)@,
            pml4,
            addr,
            bytes@,
            final(mem)@,
            final(frames)@,
            final(sharers)@,
            r,
        ),
{
    let len: usize = bytes.len();
    let pages: usize = span_of(addr, len);
    let owned: usize = own_pages(frames, sharers, mem, pml4, addr / 4096, pages);
    let size: usize = mem.len();
    let all = window(mem, pml4, addr, len);
    proof {
        pages_are_aligned(mem@, pml4, addr, len as int);
        aligned_part(all@, owned as int, frames@.free);
    }
    let ghost seen_dst = all@;
    let dst = restrict(frames, mem, all, owned);
    let dst_pages: usize = dst.pages.len();
    let ghost m0 = mem@;
    let ghost d = addr as int;
    assert(dst@.covers(d, len as int, m0.len())) by {
        assert forall|i: int| 0 <= i < dst@.pages.len() && (#[trigger] dst@.pages[i]) is Some implies (
        dst@.pages[i]->0) + PAGE_SIZE <= m0.len() by {
            assert(seen_dst.pages[i] == dst@.pages[i]);
        }
    }
    let mut r: Result<(), CopyError> = Ok(());
    let mut i: usize = 0;
    while i < len
        invariant_except_break
            r == Ok::<(), CopyError>(()),
        invariant
            i <= len,
            len == bytes@.len(),
            d == addr,
            size == m0.len(),
            mem@.len() == m0.len(),
            dst_pages == dst.pages@.len(),
            addr + len <= u64::MAX,
            dst@.covers(d, len as int, m0.len()),
            room(dst@, d, 0, len as int) == room(dst@, d, i as int, len as int),
            mem@ == put(m0, dst@, d, bytes@, i as int),
        ensures
            room(dst@, d, 0, len as int) == i,
            r == (if i >= len {
                Ok(())
            } else {
                Err(CopyError::DstNotMapped)
            }),
        decreases len - i,
    {
        let to: u64 = addr + i as u64;
        let k: usize = (to / 4096 - dst.first_page) as usize;
        match dst.pages[k] {
            Some(page) => {
                let at: usize = page as usize + (to % 4096) as usize;
                assert(dst@.phys(d + i) == Some(at as int));
                mem[at] = bytes[i];
                i = i + 1;
            },
            None => {
                assert(dst@.phys(d + i) is None);
                r = Err(CopyError::DstNotMapped);
                break ;
            },
        }
    }
    proof {
        frames.free_frames(m0);
        room_is_mapped(dst@, d, 0, len as int);
        assert forall|j: int| 0 <= j < frames@.free.len() implies agree_on(
            m0,
            mem@,
            #[trigger] frames@.free[j],
        ) by {
            let f = frames@.free[j];
            assert forall|k: int| 0 <= k < dst@.pages.len() implies #[trigger] dst@.pages[k] != Some(
                f,
            ) by {
                if dst@.pages[k] == Some(f) {
                    assert(frames@.free.contains(f));
                }
            }
            put_elsewhere(m0, dst@, d, bytes@, i as int, len as int, f);
        }
        frames.wf_elsewhere(m0, mem@);
    }
    r
}

/// As far as there is room, the bytes are mapped.
pub(crate) proof fn room_is_mapped(dst: WindowModel, d: int, from: int, len: int)
    requires
        from <= len,
    ensures
        from <= room(dst, d, from, len) <= len,
        forall|i: int|
            from <= i < room(dst, d, from, len) ==> (#[trigger] dst.phys(d + i)) is Some,
    decreases len - from,
{
    if from < len && dst.phys(d + from) is Some {
        room_is_mapped(dst, d, from + 1, len);
    }
}

pub(crate) proof fn put_len(mem: Seq<u8>, dst: WindowModel, d: int, bytes: Seq<u8>, n: int, len: int)
    requires
        0 <= d,
        n <= len,
        dst.covers(d, len, mem.len()),
        forall|i: int| 0 <= i < n ==> (#[trigger] dst.phys(d + i)) is Some,
    ensures
        put(mem, dst, d, bytes, n).len() == mem.len(),
    decreases n,
{
    if n > 0 {
        put_len(mem, dst, d, bytes, n - 1, len);
        assert(dst.phys(d + (n - 1)) is Some);
        in_memory(dst, d, n - 1, len, mem.len());
        assert(d + (n - 1) == d + n - 1);
    }
}

/// What is put somewhere leaves every frame alone that is not in the window
/// it goes to.
pub proof fn put_elsewhere(
    mem: Seq<u8>,
    dst: WindowModel,
    d: int,
    bytes: Seq<u8>,
    n: int,
    len: int,
    f: u64,
)
    requires
        0 <= d,
        n <= len,
        dst.covers(d, len, mem.len()),
        aligned(dst),
        f % 4096 == 0,
        f + 4096 <= mem.len(),
        forall|j: int| 0 <= j < dst.pages.len() ==> #[trigger] dst.pages[j] != Some(f),
        forall|i: int| 0 <= i < n ==> (#[trigger] dst.phys(d + i)) is Some,
    ensures
        agree_on(mem, put(mem, dst, d, bytes, n), f),
    decreases n,
{
    if n > 0 {
        put_elsewhere(mem, dst, d, bytes, n - 1, len, f);
        assert(dst.phys(d + (n - 1)) is Some);
        assert(d + (n - 1) == d + n - 1);
        phys_elsewhere(dst, d, n - 1, len, mem.len(), f);
        put_len(mem, dst, d, bytes, n - 1, len);
        let was = put(mem, dst, d, bytes, n - 1);
        let now = put(mem, dst, d, bytes, n);
        assert forall|i: int| f <= i < f + 4096 implies #[trigger] mem[i] == now[i] by {
            assert(mem[i] == was[i]);
        }
    }
}

/// Without a place that is not mapped, all are.
proof fn room_for_all(dst: WindowModel, d: int, from: int, len: int, i: int)
    requires
        room(dst, d, from, len) == len,
        from <= i < len,
    ensures
        dst.phys(d + i) is Some,
    decreases i - from,
{
    if from < i && dst.phys(d + from) is Some {
        room_for_all(dst, d, from + 1, len, i);
    }
}

/// Bytes that were put somewhere are found there, as long as no two places
/// are the same, and nothing else has changed.
pub proof fn put_delivers(mem: Seq<u8>, dst: WindowModel, d: int, bytes: Seq<u8>, n: int)
    requires
        0 <= d,
        0 <= n <= bytes.len(),
        dst.covers(d, bytes.len() as int, mem.len()),
        room(dst, d, 0, bytes.len() as int) == bytes.len(),
        forall|i: int, j: int|
            #![trigger dst.phys(d + i), dst.phys(d + j)]
            0 <= i < j < bytes.len() ==> dst.phys(d + i) != dst.phys(d + j),
    ensures
        put(mem, dst, d, bytes, n).len() == mem.len(),
        forall|i: int|
            #![trigger dst.phys(d + i)]
            0 <= i < n ==> put(mem, dst, d, bytes, n)[dst.phys(d + i)->0] == bytes[i],
        forall|x: int|
            0 <= x < mem.len() && (forall|i: int|
                0 <= i < n ==> #[trigger] dst.phys(d + i) != Some(x)) ==> #[trigger] put(
                mem,
                dst,
                d,
                bytes,
                n,
            )[x] == mem[x],
    decreases n,
{
    if n > 0 {
        let len = bytes.len() as int;
        put_delivers(mem, dst, d, bytes, n - 1);
        let was = put(mem, dst, d, bytes, n - 1);
        let now = put(mem, dst, d, bytes, n);
        room_for_all(dst, d, 0, len, n - 1);
        in_memory(dst, d, n - 1, len, mem.len());
        assert(d + (n - 1) == d + n - 1);
        assert forall|i: int| #![trigger dst.phys(d + i)] 0 <= i < n implies now[dst.phys(d + i)->0]
            == bytes[i] by {
            if i < n - 1 {
                assert(dst.phys(d + i) != dst.phys(d + (n - 1)));
                room_for_all(dst, d, 0, len, i);
                in_memory(dst, d, i, len, mem.len());
            }
        }
        assert forall|x: int|
            0 <= x < mem.len() && (forall|i: int|
                0 <= i < n ==> #[trigger] dst.phys(d + i) != Some(x)) implies #[trigger] now[x]
            == mem[x] by {
            assert(dst.phys(d + (n - 1)) != Some(x));
            assert(was[x] == mem[x]);
        }
    }
}

/// One page to fork: where it is in the address space, where the entry is
/// that maps it, and how.
#[derive(Clone, Copy, Debug, PartialEq, Eq, Structural)]
pub struct PageCopy {
    pub page: u64,
    pub at: u64,
    pub source: Mapping,
}

/// How a page is mapped that can be forked: by an entry of the first level,
/// in a slot that `base` does not use.
pub open spec fn fork_source(mem: Seq<u8>, pml4: u64, base: Seq<u64>, page: u64) -> Option<PageCopy> {
    match mapped(mem, pml4, page) {
        Some(m) => if m.level == 1 && slots_unused(base, page, (page + PAGE_SIZE - 1) as u64) {
            Some(PageCopy { page, at: m.at, source: mapping_of(m.entry) })
        } else {
            None
        },
        None => None,
    }
}

/// Whether every one of `pages` can be forked into an address space made
/// from `base`: its slot of the top-level table is private to the new one,
/// and it is mapped in the old one.
pub open spec fn can_fork(mem: Seq<u8>, pml4: u64, base: Seq<u64>, pages: Seq<u64>) -> bool {
    forall|i: int|
        0 <= i < pages.len() ==> fork_source(mem, pml4, base, #[trigger] pages[i]) is Some
}

/// Find what a fork of the address space `src_pml4` has to duplicate: every
/// page of `map`, in order. `base` holds the entries of the top-level table
/// the new address space starts from. `None` if one page cannot be forked.
pub fn fork_address_space(mem: &[u8], src_pml4: u64, base: &[u64], map: &MemMap) -> (r: Option<
    Vec<PageCopy>,
>)
    requires
        map.wf(),
        base@.len() == ENTRIES,
        forall|k: int|
            0 <= k < map@.len() ==> (#[trigger] map@[k]).base + map@[k].pages * PAGE_SIZE
                <= 0x8000_0000_0000,
    ensures
        r is Some <==> can_fork(mem@, src_pml4, base@, page_list(map@)),
        r matches Some(copies) ==> {
            &&& copies@.len() == page_list(map@).len()
            &&& forall|i: int|
                0 <= i < copies@.len() ==> Some(#[trigger] copies@[i]) == fork_source(
                    mem@,
                    src_pml4,
                    base@,
                    page_list(map@)[i],
                ) && copies@[i].at + 8 <= mem@.len()
        },
{
    let pages = map.pages();
    proof {
        page_list_len(map@);
        pages_low(map@);
    }
    let mut copies: Vec<PageCopy> = Vec::new();
    let mut i: usize = 0;
    while i < pages.len()
        invariant
            i <= pages@.len(),
            pages@ == page_list(map@),
            base@.len() == ENTRIES,
            forall|k: int|
                0 <= k < pages@.len() ==> #[trigger] pages@[k] + PAGE_SIZE <= 0x8000_0000_0000,
            copies@.len() == i,
            forall|k: int|
                0 <= k < i ==> Some(#[trigger] copies@[k]) == fork_source(
                    mem@,
                    src_pml4,
                    base@,
                    pages@[k],
                ) && copies@[k].at + 8 <= mem@.len(),
        decreases pages@.len() - i,
    {
        let page: u64 = pages[i];
        let source: Option<PageCopy> = if !pml4_slots_unused(base, page, page + (PAGE_SIZE - 1)) {
            None
        } else {
            match find_entry(mem, src_pml4, page) {
                Some(m) => {
                    if m.level == 1 {
                        Some(PageCopy { page, at: m.at, source: mapping_in(m.entry) })
                    } else {
                        None
                    }
                },
                None => None,
            }
        };
        assert(source == fork_source(mem@, src_pml4, base@, pages@[i as int]));
        match source {
            Some(copy) => {
                copies.push(copy);
            },
            None => {
                return None;
            },
        }
        i = i + 1;
    }
    assert forall|k: int| 0 <= k < pages@.len() implies fork_source(
        mem@,
        src_pml4,
        base@,
        #[trigger] pages@[k],
    ) is Some by {
        assert(Some(copies@[k]) == fork_source(mem@, src_pml4, base@, pages@[k]));
    }
    Some(copies)
}

/// Pages of segments in the lower half are in the lower half.
proof fn pages_low(s: Seq<Segment>)
    requires
        forall|k: int|
            0 <= k < s.len() ==> (#[trigger] s[k]).base + s[k].pages * PAGE_SIZE <= 0x8000_0000_0000,
    ensures
        forall|k: int|
            0 <= k < page_list(s).len() ==> #[trigger] page_list(s)[k] + PAGE_SIZE
                <= 0x8000_0000_0000,
    decreases s.len(),
{
    if s.len() > 0 {
        let t = s.drop_last();
        assert forall|k: int| 0 <= k < t.len() implies (#[trigger] t[k]).base + t[k].pages
            * PAGE_SIZE <= 0x8000_0000_0000 by {
            assert(t[k] == s[k]);
        }
        pages_low(t);
        let l = s.last();
        assert(s[s.len() - 1] == l);
        assert forall|k: int| 0 <= k < page_list(s).len() implies #[trigger] page_list(s)[k]
            + PAGE_SIZE <= 0x8000_0000_0000 by {
            let n = page_list(t).len();
            if k < n {
                assert(page_list(s)[k] == page_list(t)[k]);
            } else {
                let j = k - n;
                assert(page_list(s)[k] == segment_pages(l, l.pages as nat)[j]);
                assert(l.base + j * PAGE_SIZE + PAGE_SIZE <= l.base + l.pages * PAGE_SIZE) by (nonlinear_arith)
                    requires
                        0 <= j < l.pages,
                        PAGE_SIZE == 4096,
                ;
            }
        }
    }
}

} // verus!
