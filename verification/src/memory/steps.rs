//! Building an address space page by page, and what is undone if a page
//! cannot be mapped.
use vstd::prelude::*;

use crate::bytes::{overwrite, zeros};
use crate::elf::load::PagePlan;
use crate::memory::cow::{added, dropped, frames, mapping_of, released, Mapping, Sharers};
use crate::memory::frames::{
    agree_on, frame_ok, frames_apart, linked_to, nth_frame, BootInfoFrameAllocator, FrameModel,
};
use crate::memory::walk::Mapped;

verus! {

/// What to do after an attempt at mapping a page.
#[derive(Clone, Copy, Debug, PartialEq, Eq, Structural)]
pub enum BuildStep {
    /// Map the page of this number next.
    Next(usize),
    /// The address space is complete.
    Done,
    /// Take the address space down: it will not be used.
    TearDown,
}

/// What follows page `k` of `n` once it is mapped.
pub open spec fn following(n: int, k: int) -> BuildStep {
    if k + 1 < n {
        BuildStep::Next((k + 1) as usize)
    } else {
        BuildStep::Done
    }
}

/// Where the building of an address space of `n` pages starts.
pub fn first_step(n: usize) -> (step: BuildStep)
    ensures
        step == following(n as int, -1),
{
    if n > 0 {
        BuildStep::Next(0)
    } else {
        BuildStep::Done
    }
}

/// What follows page `k` of `n` once it is mapped.
fn follow(n: usize, k: usize) -> (step: BuildStep)
    requires
        k < n,
    ensures
        step == following(n as int, k as int),
{
    if k + 1 < n {
        BuildStep::Next(k + 1)
    } else {
        BuildStep::Done
    }
}

/// The counts after one mapping of each of `pages` was dropped.
pub open spec fn dropped_all(extra: Seq<u32>, pages: Seq<Mapping>) -> Seq<u32>
    decreases pages.len(),
{
    if pages.len() == 0 {
        extra
    } else {
        dropped(dropped_all(extra, pages.drop_last()), pages.last().frame_nr())
    }
}

/// What to do after an attempt at mapping page `k` of `shared` in the child
/// of a fork. If it could not be mapped, the child does not have it, nor
/// any page after it: those are released here, and the ones before it when
/// the child is taken down.
pub fn fork_step(sharers: &mut Sharers, shared: &Vec<Mapping>, k: usize, mapped: bool) -> (step:
    BuildStep)
    requires
        k < shared@.len(),
        forall|i: int|
            0 <= i < shared@.len() ==> (#[trigger] shared@[i]).frame_nr() < old(sharers)@.len(),
    ensures
        if mapped {
            &&& step == following(shared@.len() as int, k as int)
            &&& final(sharers)@ == old(sharers)@
        } else {
            &&& step == BuildStep::TearDown
            &&& final(sharers)@ == dropped_all(old(sharers)@, shared@.skip(k as int))
        },
{
    if mapped {
        return follow(shared.len(), k);
    }
    let ghost x0 = sharers@;
    let ghost rest = shared@.skip(k as int);
    let mut i: usize = k;
    assert(rest.take(0) =~= Seq::<Mapping>::empty());
    while i < shared.len()
        invariant
            k <= i <= shared@.len(),
            rest == shared@.skip(k as int),
            forall|j: int|
                0 <= j < shared@.len() ==> (#[trigger] shared@[j]).frame_nr() < x0.len(),
            sharers@.len() == x0.len(),
            sharers@ == dropped_all(x0, rest.take(i - k)),
        decreases shared@.len() - i,
    {
        assert(shared@[i as int].frame_nr() < x0.len());
        let _last: bool = sharers.release(shared[i].frame);
        proof {
            let now = rest.take(i - k + 1);
            assert(now.drop_last() =~= rest.take(i - k));
            assert(now.last() == shared@[i as int]);
        }
        i = i + 1;
    }
    assert(rest.take(i - k) =~= rest);
    BuildStep::TearDown
}

/// How often dropping takes one away.
proof fn dropping_counts(extra: Seq<u32>, pages: Seq<Mapping>, f: int)
    requires
        0 <= f < extra.len(),
        forall|i: int| 0 <= i < pages.len() ==> (#[trigger] pages[i]).frame_nr() < extra.len(),
        forall|g: int| 0 <= g < extra.len() ==> frames(pages).count(g) <= #[trigger] extra[g],
    ensures
        dropped_all(extra, pages).len() == extra.len(),
        dropped_all(extra, pages)[f] == extra[f] - frames(pages).count(f),
    decreases pages.len(),
{
    if pages.len() > 0 {
        let front = pages.drop_last();
        assert forall|i: int| 0 <= i < front.len() implies (#[trigger] front[i]).frame_nr()
            < extra.len() by {
            assert(front[i] == pages[i]);
        }
        assert forall|g: int| 0 <= g < extra.len() implies frames(front).count(g) <= #[trigger] extra[g] by {
            assert(frames(pages).count(g) <= extra[g]);
        }
        let last = pages.last().frame_nr();
        assert(pages[pages.len() - 1].frame_nr() < extra.len());
        dropping_counts(extra, front, f);
        dropping_counts(extra, front, last);
        assert(frames(pages).count(last) <= extra[last]);
    }
}

/// How often adding adds one.
proof fn adding_counts(extra: Seq<u32>, pages: Seq<Mapping>, f: int)
    requires
        0 <= f < extra.len(),
        forall|i: int| 0 <= i < pages.len() ==> (#[trigger] pages[i]).frame_nr() < extra.len(),
        forall|g: int| 0 <= g < extra.len() ==> #[trigger] extra[g] + pages.len() <= u32::MAX,
    ensures
        added(extra, pages).len() == extra.len(),
        added(extra, pages)[f] == extra[f] + frames(pages).count(f),
        frames(pages).count(f) <= pages.len(),
    decreases pages.len(),
{
    if pages.len() > 0 {
        let front = pages.drop_last();
        assert forall|i: int| 0 <= i < front.len() implies (#[trigger] front[i]).frame_nr()
            < extra.len() by {
            assert(front[i] == pages[i]);
        }
        let last = pages.last().frame_nr();
        assert(pages[pages.len() - 1].frame_nr() < extra.len());
        adding_counts(extra, front, f);
        adding_counts(extra, front, last);
        assert(extra[last] + pages.len() <= u32::MAX);
    }
}

/// The frames of a list are those of its two parts.
proof fn frames_of_parts(pages: Seq<Mapping>, k: int)
    requires
        0 <= k <= pages.len(),
    ensures
        frames(pages) =~= frames(pages.take(k)).add(frames(pages.skip(k))),
    decreases pages.len(),
{
    if k == pages.len() {
        assert(pages.take(k) =~= pages);
        assert(pages.skip(k) =~= Seq::<Mapping>::empty());
    } else {
        frames_of_parts(pages.drop_last(), k);
        assert(pages.drop_last().take(k) =~= pages.take(k));
        assert(pages.drop_last().skip(k) =~= pages.skip(k).drop_last());
        assert(pages.skip(k).last() == pages.last());
    }
}

/// What a teardown does to the counts is to drop one mapping of each page it
/// finds.
pub proof fn teardown_drops_each_page(
    mem: Seq<u8>,
    extra: Seq<u32>,
    leaves: Seq<Mapped>,
    n: int,
)
    requires
        0 <= n <= leaves.len(),
    ensures
        released(mem, extra, leaves, n).1 == dropped_all(
            extra,
            leaves.take(n).map_values(|m: Mapped| mapping_of(m.entry)),
        ),
    decreases n,
{
    let pages = leaves.take(n).map_values(|m: Mapped| mapping_of(m.entry));
    if n > 0 {
        teardown_drops_each_page(mem, extra, leaves, n - 1);
        assert(pages.drop_last() =~= leaves.take(n - 1).map_values(
            |m: Mapped| mapping_of(m.entry),
        ));
        assert(pages.last() == mapping_of(leaves[n - 1].entry));
    }
}

/// A fork that fails at page `k` leaves nothing behind: once the pages from
/// there on have been released, and the child, which has the others, has
/// been taken down, in whatever order it is found to have them, every frame
/// has as many sharers as before the fork.
pub proof fn failed_fork_leaves_nothing(
    extra: Seq<u32>,
    pages: Seq<Mapping>,
    k: int,
    torn: Seq<Mapping>,
)
    requires
        0 <= k <= pages.len(),
        forall|i: int| 0 <= i < pages.len() ==> (#[trigger] pages[i]).frame_nr() < extra.len(),
        forall|i: int| 0 <= i < torn.len() ==> (#[trigger] torn[i]).frame_nr() < extra.len(),
        forall|g: int| 0 <= g < extra.len() ==> #[trigger] extra[g] + pages.len() <= u32::MAX,
        frames(torn) == frames(pages.take(k)),
    ensures
        dropped_all(dropped_all(added(extra, pages), pages.skip(k)), torn) == extra,
{
    let shared = added(extra, pages);
    let rest = pages.skip(k);
    let left = dropped_all(shared, rest);
    frames_of_parts(pages, k);
    assert forall|i: int| 0 <= i < rest.len() implies (#[trigger] rest[i]).frame_nr() < extra.len() by {
        assert(rest[i] == pages[k + i]);
    }
    assert forall|g: int| 0 <= g < extra.len() implies shared.len() == extra.len()
        && #[trigger] shared[g] == extra[g] + frames(pages).count(g) by {
        adding_counts(extra, pages, g);
    }
    if extra.len() == 0 {
        lengths_stay(extra, pages, rest, torn);
        assert(dropped_all(left, torn) =~= extra);
    } else {
        adding_counts(extra, pages, 0);
        assert forall|g: int| 0 <= g < extra.len() implies left.len() == extra.len()
            && #[trigger] left[g] == extra[g] + frames(torn).count(g) by {
            assert forall|h: int| 0 <= h < shared.len() implies frames(rest).count(h)
                <= #[trigger] shared[h] by {
                assert(shared[h] == extra[h] + frames(pages).count(h));
            }
            dropping_counts(shared, rest, g);
            assert(shared[g] == extra[g] + frames(pages).count(g));
        }
        assert(left[0] == extra[0] + frames(torn).count(0));
        assert forall|g: int| 0 <= g < extra.len() implies #[trigger] dropped_all(left, torn)[g]
            == extra[g] by {
            assert forall|h: int| 0 <= h < left.len() implies frames(torn).count(h)
                <= #[trigger] left[h] by {
                assert(left[h] == extra[h] + frames(torn).count(h));
            }
            dropping_counts(left, torn, g);
            assert(left[g] == extra[g] + frames(torn).count(g));
        }
        assert forall|h: int| 0 <= h < left.len() implies frames(torn).count(h)
            <= #[trigger] left[h] by {
            assert(left[h] == extra[h] + frames(torn).count(h));
        }
        dropping_counts(left, torn, 0);
        assert(dropped_all(left, torn) =~= extra);
    }
}

/// Without frames there are no pages.
proof fn lengths_stay(extra: Seq<u32>, pages: Seq<Mapping>, rest: Seq<Mapping>, torn: Seq<Mapping>)
    requires
        extra.len() == 0,
        forall|i: int| 0 <= i < pages.len() ==> (#[trigger] pages[i]).frame_nr() < extra.len(),
        forall|i: int| 0 <= i < rest.len() ==> (#[trigger] rest[i]).frame_nr() < extra.len(),
        forall|i: int| 0 <= i < torn.len() ==> (#[trigger] torn[i]).frame_nr() < extra.len(),
    ensures
        pages.len() == 0,
        rest.len() == 0,
        torn.len() == 0,
{
    if pages.len() > 0 {
        assert(pages[0].frame_nr() < 0);
    }
    if rest.len() > 0 {
        assert(rest[0].frame_nr() < 0);
    }
    if torn.len() > 0 {
        assert(torn[0].frame_nr() < 0);
    }
}

/// Memory in which frame `f` holds the page `bytes`.
pub open spec fn filled(mem: Seq<u8>, f: u64, bytes: Seq<u8>) -> Seq<u8> {
    overwrite(overwrite(mem, f as int, zeros(4096)), f as int, bytes)
}

/// Take a frame for a page of a new image and put the page's bytes there.
/// `None` if no frame is left.
pub fn fill_frame(frames: &mut BootInfoFrameAllocator, mem: &mut [u8], page: &PagePlan) -> (r: Option<
    u64,
>)
    requires
        old(frames).wf(old(mem)@),
        old(frames)@.in_use < usize::MAX,
        old(frames)@.next < usize::MAX,
        page@.bytes.len() <= 4096,
    ensures
        final(frames).wf(final(mem)@),
        r == old(frames)@.head(),
        match r {
            Some(f) => {
                &&& frame_ok(old(mem)@.len(), f)
                &&& final(frames)@ == old(frames)@.allocated()
                &&& !final(frames)@.free.contains(f)
                &&& final(mem)@ == filled(old(mem)@, f, page@.bytes)
            },
            None => final(frames)@ == old(frames)@ && final(mem)@ == old(mem)@,
        },
{
    let ghost a0 = frames@;
    proof {
        frames.free_frames(mem@);
    }
    let f: u64 = match frames.allocate_frame(mem) {
        Some(f) => f,
        None => {
            return None;
        },
    };
    let _len: usize = mem.len();
    let ghost m1 = mem@;
    let start: usize = f as usize;
    let mut k: usize = 0;
    while k < page.bytes.len()
        invariant
            k <= page.bytes@.len() <= 4096,
            start == f,
            mem@.len() == m1.len(),
            start + 4096 <= m1.len(),
            m1.len() <= usize::MAX,
            forall|i: int|
                0 <= i < mem@.len() ==> #[trigger] mem@[i] == (if start <= i < start + k {
                    page.bytes@[i - start]
                } else {
                    m1[i]
                }),
        decreases page.bytes@.len() - k,
    {
        mem[start + k] = page.bytes[k];
        k = k + 1;
    }
    assert(mem@ =~= overwrite(m1, f as int, page.bytes@));
    proof {
        if frames@.free.contains(f) {
            let k = choose|k: int| 0 <= k < frames@.free.len() && frames@.free[k] == f;
            if a0.free.len() > 0 {
                assert(a0.free[k + 1] == f && a0.free[0] == f);
            }
        }
        frames.free_frames(m1);
        assert forall|k: int| 0 <= k < frames@.free.len() implies agree_on(
            m1,
            mem@,
            #[trigger] frames@.free[k],
        ) by {
            assert(frames@.free[k] != f);
            frames_apart(frames@.free[k], f);
        }
        frames.wf_elsewhere(m1, mem@);
    }
    Some(f)
}

/// What to do after an attempt at mapping page `k` of an image of `n` pages,
/// which is in frame `frame`, if one was left for it. If it could not be
/// mapped, the frame is given back here, and those of the pages before it
/// when the address space is taken down.
pub fn build_step(
    frames: &mut BootInfoFrameAllocator,
    mem: &mut [u8],
    n: usize,
    k: usize,
    frame: Option<u64>,
    mapped: bool,
) -> (step: BuildStep)
    requires
        k < n,
        !mapped && frame is Some ==> {
            &&& old(frames).wf(old(mem)@)
            &&& frame_ok(old(mem)@.len(), frame->0)
            &&& !old(frames)@.free.contains(frame->0)
        },
    ensures
        match frame {
            Some(f) if !mapped => {
                &&& step == BuildStep::TearDown
                &&& final(frames).wf(final(mem)@)
                &&& final(frames)@ == old(frames)@.freed(f)
                &&& final(mem)@ == linked_to(old(mem)@, f, old(frames)@.free)
            },
            _ => {
                &&& step == (if frame is Some {
                    following(n as int, k as int)
                } else {
                    BuildStep::TearDown
                })
                &&& *final(frames) == *old(frames)
                &&& final(mem)@ == old(mem)@
            },
        },
{
    match frame {
        None => BuildStep::TearDown,
        Some(f) => {
            if mapped {
                follow(n, k)
            } else {
                frames.deallocate_frame(mem, f);
                BuildStep::TearDown
            }
        },
    }
}

/// A frame that was taken for a page and given back because the page could
/// not be mapped is the next one taken, and as many are in use as before.
pub proof fn frame_of_failed_page_is_given_back(a: FrameModel, f: u64)
    requires
        a.head() == Some(f),
        a.in_use >= 0,
    ensures
        a.allocated().freed(f).head() == Some(f),
        a.allocated().freed(f).in_use == a.in_use,
        a.free.len() > 0 ==> a.allocated().freed(f) == a,
        a.free.len() == 0 ==> a.allocated().freed(f).free == seq![f] && nth_frame(
            a.regions,
            a.next,
        ) == Some(f),
{
    if a.free.len() > 0 {
        assert(a.allocated().freed(f).free =~= a.free);
    } else {
        assert(a.allocated().freed(f).free =~= seq![f]);
    }
}

/// What a filled frame holds: the page's bytes, and zeros after them.
pub proof fn filled_frame_holds_the_page(mem: Seq<u8>, f: u64, bytes: Seq<u8>, i: int)
    requires
        frame_ok(mem.len(), f),
        bytes.len() <= 4096,
        0 <= i < 4096,
    ensures
        filled(mem, f, bytes)[f + i] == (if i < bytes.len() {
            bytes[i]
        } else {
            0
        }),
{
}

} // verus!
