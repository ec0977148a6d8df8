//! Address spaces: made from another, taken down again, copied between.
use vstd::prelude::*;

use crate::bytes::{le64, overwrite, read64, same_word, word_range, zeros};
use crate::memory::cow::{
    mapping_in, mapping_of, release_keeps_free_list, release_pages, released, Sharers,
};
use crate::memory::frames::{
    agree_on, frame_ok, frames_apart, is_frame, linked_to, BootInfoFrameAllocator, FrameModel,
};
use crate::memory::paging::{ENTRIES, HUGE_PAGE, PRESENT};
use crate::memory::walk::{leaves, private_leaves};

verus! {

/// The bits of a page-table entry that hold a physical address.
pub const ADDRESS_MASK: u64 = 0x000f_ffff_ffff_f000;

/// The frame that a page-table entry points at: none if the entry is not
/// present or maps a huge page.
pub open spec fn entry_frame(e: u64) -> Option<u64> {
    if e & PRESENT != 0 && e & HUGE_PAGE == 0 {
        Some(e & ADDRESS_MASK)
    } else {
        None
    }
}

/// The frame that a page-table entry points at.
pub(crate) fn frame_of(e: u64) -> (r: Option<u64>)
    ensures
        r == entry_frame(e),
{
    if e & PRESENT != 0 && e & HUGE_PAGE == 0 {
        Some(e & ADDRESS_MASK)
    } else {
        None
    }
}

/// Entry `i` of the page table in frame `t`.
pub open spec fn entry(mem: Seq<u8>, t: u64, i: int) -> u64 {
    le64(mem, t + 8 * i) as u64
}

/// Entry `i` of the page table in frame `t`.
pub(crate) fn read_entry(mem: &[u8], t: u64, i: usize) -> (e: u64)
    requires
        frame_ok(mem@.len(), t),
        i < ENTRIES,
    ensures
        e == entry(mem@, t, i as int),
{
    let _len: usize = mem.len();
    proof {
        word_range(mem@, t + 8 * i);
    }
    read64(mem, t as usize + 8 * i)
}

/// The frames under the first `n` entries of the table in frame `t`, in the
/// order they are given back. The entries of a table of level one lead to
/// pages, those of a higher one to tables of the next level.
pub open spec fn frames_below(mem: Seq<u8>, t: u64, level: nat, n: int) -> Seq<u64>
    decreases level, n,
{
    if n <= 0 || level == 0 {
        Seq::empty()
    } else {
        let before = frames_below(mem, t, level, n - 1);
        match entry_frame(entry(mem, t, n - 1)) {
            Some(f) => before + (if level > 1 {
                subtree(mem, f, (level - 1) as nat)
            } else {
                seq![f]
            }),
            None => before,
        }
    }
}

/// All frames of the table in frame `t`: what is below it, then itself.
pub open spec fn subtree(mem: Seq<u8>, t: u64, level: nat) -> Seq<u64>
    decreases level, 513int,
{
    if level == 0 {
        Seq::empty()
    } else {
        frames_below(mem, t, level, 512).push(t)
    }
}

/// The frames under the first `n` entries of the top-level table `pml4` that
/// `base` does not use.
pub open spec fn private_below(mem: Seq<u8>, pml4: u64, base: u64, n: int) -> Seq<u64>
    decreases n,
{
    if n <= 0 {
        Seq::empty()
    } else {
        let before = private_below(mem, pml4, base, n - 1);
        let e = entry(mem, pml4, n - 1);
        if e != 0 && entry(mem, base, n - 1) == 0 && entry_frame(e) is Some {
            before + subtree(mem, entry_frame(e)->0, 3)
        } else {
            before
        }
    }
}

/// The frames that belong to the address space `pml4` and not to `base`, in
/// the order they are given back.
pub open spec fn private_frames(mem: Seq<u8>, pml4: u64, base: u64) -> Seq<u64> {
    private_below(mem, pml4, base, 512).push(pml4)
}

/// Memory and allocator after the frames of `s` came back one by one.
pub open spec fn give_back(mem: Seq<u8>, a: FrameModel, s: Seq<u64>) -> (Seq<u8>, FrameModel)
    decreases s.len(),
{
    if s.len() == 0 {
        (mem, a)
    } else {
        let (m, b) = give_back(mem, a, s.drop_last());
        (linked_to(m, s.last(), b.free), b.freed(s.last()))
    }
}

/// Whether the frames of `s` can be given back: each is a frame, none twice,
/// none free already.
pub open spec fn can_give_back(mem: Seq<u8>, a: FrameModel, s: Seq<u64>) -> bool {
    &&& forall|k: int| 0 <= k < s.len() ==> frame_ok(mem.len(), #[trigger] s[k])
    &&& s.no_duplicates()
    &&& forall|k: int| 0 <= k < s.len() ==> !a.free.contains(#[trigger] s[k])
}

/// Giving back touches the given frames alone, and puts them before what was
/// free, last first.
pub proof fn give_back_effect(mem: Seq<u8>, a: FrameModel, s: Seq<u64>)
    requires
        forall|k: int| 0 <= k < s.len() ==> frame_ok(mem.len(), #[trigger] s[k]),
    ensures
        ({
            let (m, b) = give_back(mem, a, s);
            &&& m.len() == mem.len()
            &&& forall|i: int|
                0 <= i < mem.len() && (forall|k: int|
                    0 <= k < s.len() ==> !(#[trigger] s[k] <= i < s[k] + 4096)) ==> #[trigger] m[i]
                    == mem[i]
            &&& b.free == s.reverse() + a.free
            &&& b.in_use == (if a.in_use > s.len() {
                a.in_use - s.len()
            } else if s.len() > 0 {
                0
            } else {
                a.in_use
            })
            &&& b.regions == a.regions
            &&& b.next == a.next
        }),
    decreases s.len(),
{
    let (m, b) = give_back(mem, a, s);
    if s.len() == 0 {
        assert(s.reverse() + a.free =~= a.free);
    } else {
        let t = s.drop_last();
        assert forall|k: int| 0 <= k < t.len() implies frame_ok(mem.len(), #[trigger] t[k]) by {
            assert(t[k] == s[k]);
        }
        give_back_effect(mem, a, t);
        let (m1, b1) = give_back(mem, a, t);
        assert(s.reverse() + a.free =~= seq![s.last()] + (t.reverse() + a.free));
        let f = s.last();
        assert(s[s.len() - 1] == f);
        assert forall|i: int|
            0 <= i < mem.len() && (forall|k: int|
                0 <= k < s.len() ==> !(#[trigger] s[k] <= i < s[k] + 4096)) implies #[trigger] m[i]
            == mem[i] by {
            assert forall|k: int| 0 <= k < t.len() implies !(#[trigger] t[k] <= i < t[k] + 4096) by {
                assert(t[k] == s[k]);
            }
            assert(m1[i] == mem[i]);
            assert(!(s[s.len() - 1] <= i < s[s.len() - 1] + 4096));
        }
    }
}

/// Giving back two lists of frames one after the other.
proof fn give_back_twice(mem: Seq<u8>, a: FrameModel, s: Seq<u64>, t: Seq<u64>)
    ensures
        ({
            let (m, b) = give_back(mem, a, s);
            give_back(mem, a, s + t) == give_back(m, b, t)
        }),
    decreases t.len(),
{
    if t.len() == 0 {
        assert(s + t =~= s);
    } else {
        give_back_twice(mem, a, s, t.drop_last());
        assert((s + t).drop_last() =~= s + t.drop_last());
        assert((s + t).last() == t.last());
    }
}

/// A frame outside `s` is untouched when `s` is given back.
pub(crate) proof fn untouched(mem: Seq<u8>, a: FrameModel, s: Seq<u64>, f: u64)
    requires
        forall|k: int| 0 <= k < s.len() ==> frame_ok(mem.len(), #[trigger] s[k]),
        frame_ok(mem.len(), f),
        !s.contains(f),
    ensures
        agree_on(mem, give_back(mem, a, s).0, f),
{
    let m = give_back(mem, a, s).0;
    give_back_effect(mem, a, s);
    assert forall|i: int| f <= i < f + 4096 implies #[trigger] mem[i] == m[i] by {
        assert forall|k: int| 0 <= k < s.len() implies !(#[trigger] s[k] <= i < s[k] + 4096) by {
            assert(s[k] != f);
            frames_apart(s[k], f);
        }
    }
}

/// An entry of a table that two memories agree on is the same in both.
proof fn same_entry(mem: Seq<u8>, now: Seq<u8>, t: u64, i: int)
    requires
        agree_on(mem, now, t),
        0 <= i < 512,
    ensures
        entry(mem, t, i) == entry(now, t, i),
{
    assert forall|j: int| t + 8 * i <= j < t + 8 * i + 8 implies #[trigger] mem[j] == now[j] by {
    }
    same_word(mem, now, t + 8 * i);
}

/// What is below a table is the same in two memories that agree on the table
/// and on every frame below it.
proof fn below_stays(mem: Seq<u8>, now: Seq<u8>, t: u64, level: nat, n: int)
    requires
        0 <= n <= 512,
        agree_on(mem, now, t),
        forall|k: int|
            0 <= k < frames_below(mem, t, level, n).len() ==> agree_on(
                mem,
                now,
                #[trigger] frames_below(mem, t, level, n)[k],
            ),
    ensures
        frames_below(now, t, level, n) == frames_below(mem, t, level, n),
    decreases level, n,
{
    if n > 0 && level > 0 {
        let s = frames_below(mem, t, level, n);
        let before = frames_below(mem, t, level, n - 1);
        same_entry(mem, now, t, n - 1);
        assert forall|k: int| 0 <= k < before.len() implies agree_on(mem, now, #[trigger] before[k]) by {
            assert(before[k] == s[k]);
        }
        below_stays(mem, now, t, level, n - 1);
        match entry_frame(entry(mem, t, n - 1)) {
            Some(f) => {
                if level > 1 {
                    let sub = subtree(mem, f, (level - 1) as nat);
                    assert forall|k: int| 0 <= k < sub.len() implies agree_on(
                        mem,
                        now,
                        #[trigger] sub[k],
                    ) by {
                        assert(sub[k] == s[before.len() + k]);
                    }
                    subtree_stays(mem, now, f, (level - 1) as nat);
                }
            },
            None => {},
        }
    }
}

/// A subtree is the same in two memories that agree on every frame of it.
proof fn subtree_stays(mem: Seq<u8>, now: Seq<u8>, t: u64, level: nat)
    requires
        level > 0,
        forall|k: int|
            0 <= k < subtree(mem, t, level).len() ==> agree_on(
                mem,
                now,
                #[trigger] subtree(mem, t, level)[k],
            ),
    ensures
        subtree(now, t, level) == subtree(mem, t, level),
    decreases level, 513int,
{
    let s = subtree(mem, t, level);
    let below = frames_below(mem, t, level, 512);
    assert(s[below.len() as int] == t);
    assert forall|k: int| 0 <= k < below.len() implies agree_on(mem, now, #[trigger] below[k]) by {
        assert(below[k] == s[k]);
    }
    below_stays(mem, now, t, level, 512);
}

/// The frames below the first `n` entries come first among those below more.
proof fn below_prefix(mem: Seq<u8>, t: u64, level: nat, n: int, m: int)
    requires
        0 <= n <= m,
    ensures
        frames_below(mem, t, level, n).len() <= frames_below(mem, t, level, m).len(),
        frames_below(mem, t, level, m).take(frames_below(mem, t, level, n).len() as int)
            == frames_below(mem, t, level, n),
    decreases m,
{
    let a = frames_below(mem, t, level, n);
    let b = frames_below(mem, t, level, m);
    if n == m || level == 0 {
        assert(b.take(a.len() as int) =~= a);
    } else {
        below_prefix(mem, t, level, n, m - 1);
        let c = frames_below(mem, t, level, m - 1);
        assert(b.take(a.len() as int) =~= c.take(a.len() as int));
    }
}

/// Part of what can be given back can be given back, after an earlier part.
proof fn can_give_back_part(mem: Seq<u8>, a: FrameModel, s: Seq<u64>, from: int, to: int)
    requires
        can_give_back(mem, a, s),
        0 <= from <= to <= s.len(),
    ensures
        ({
            let (m, b) = give_back(mem, a, s.take(from));
            let part = s.subrange(from, to);
            &&& can_give_back(m, b, part)
            &&& forall|k: int| 0 <= k < part.len() ==> agree_on(mem, m, #[trigger] part[k])
        }),
{
    let head = s.take(from);
    let part = s.subrange(from, to);
    assert forall|k: int| 0 <= k < head.len() implies frame_ok(mem.len(), #[trigger] head[k]) by {
        assert(head[k] == s[k]);
    }
    give_back_effect(mem, a, head);
    let (m, b) = give_back(mem, a, head);
    assert forall|k: int| 0 <= k < part.len() implies frame_ok(m.len(), #[trigger] part[k])
        && !b.free.contains(part[k]) && agree_on(mem, m, part[k]) by {
        assert(part[k] == s[from + k]);
        assert(!a.free.contains(s[from + k]));
        if head.contains(part[k]) {
            let j = choose|j: int| 0 <= j < head.len() && head[j] == part[k];
            assert(s[j] == s[from + k]);
        }
        untouched(mem, a, head, part[k]);
        if b.free.contains(part[k]) {
            let j = choose|j: int| 0 <= j < b.free.len() && b.free[j] == part[k];
            if j < head.len() {
                assert(b.free[j] == head[head.len() - 1 - j]);
            } else {
                assert(b.free[j] == a.free[j - head.len()]);
            }
        }
    }
    assert(part.no_duplicates()) by {
        assert forall|x: int, y: int| 0 <= x < y < part.len() implies part[x] != part[y] by {
            assert(part[x] == s[from + x]);
            assert(part[y] == s[from + y]);
        }
    }
}

/// Give back the table in frame `t` and everything below it; returns how
/// many frames that was.
fn free_table(alloc: &mut BootInfoFrameAllocator, mem: &mut [u8], t: u64, level: u8) -> (freed: usize)
    requires
        1 <= level <= 3,
        old(alloc).wf(old(mem)@),
        can_give_back(old(mem)@, old(alloc)@, subtree(old(mem)@, t, level as nat)),
    ensures
        final(alloc).wf(final(mem)@),
        (final(mem)@, final(alloc)@) == give_back(
            old(mem)@,
            old(alloc)@,
            subtree(old(mem)@, t, level as nat),
        ),
        freed == subtree(old(mem)@, t, level as nat).len(),
    decreases level,
{
    let ghost m0 = mem@;
    let ghost a0 = alloc@;
    let ghost lv = level as nat;
    let ghost all = subtree(m0, t, lv);
    let len: usize = mem.len();
    proof {
        assert(all[all.len() - 1] == t);
        assert(all.take(0) =~= Seq::empty());
        subtree_fits(m0, a0, all);
    }
    let mut freed: usize = 0;
    let mut i: usize = 0;
    while i < ENTRIES
        invariant
            i <= ENTRIES,
            1 <= level <= 3,
            lv == level as nat,
            len == m0.len(),
            all == subtree(m0, t, lv),
            all[all.len() - 1] == t,
            all.len() < usize::MAX,
            can_give_back(m0, a0, all),
            alloc.wf(mem@),
            frames_below(m0, t, lv, i as int).len() < all.len(),
            all.take(frames_below(m0, t, lv, i as int).len() as int) == frames_below(
                m0,
                t,
                lv,
                i as int,
            ),
            (mem@, alloc@) == give_back(m0, a0, frames_below(m0, t, lv, i as int)),
            freed == frames_below(m0, t, lv, i as int).len(),
        decreases ENTRIES - i,
    {
        let ghost done = frames_below(m0, t, lv, i as int);
        let ghost next = frames_below(m0, t, lv, i + 1);
        proof {
            // The table itself is still as it was.
            can_give_back_part(m0, a0, all, done.len() as int, all.len() as int);
            let part = all.subrange(done.len() as int, all.len() as int);
            assert(part[part.len() - 1] == t);
            assert(agree_on(m0, mem@, t));
            same_entry(m0, mem@, t, i as int);
            below_prefix(m0, t, lv, i + 1, 512);
            assert(all.take(next.len() as int) =~= frames_below(m0, t, lv, 512).take(
                next.len() as int,
            ));
        }
        let e: u64 = read_entry(mem, t, i);
        match frame_of(e) {
            Some(f) => {
                let ghost kids = if lv > 1 {
                    subtree(m0, f, (lv - 1) as nat)
                } else {
                    seq![f]
                };
                proof {
                    assert(next == done + kids);
                    can_give_back_part(m0, a0, all, done.len() as int, next.len() as int);
                    assert(all.subrange(done.len() as int, next.len() as int) =~= kids) by {
                        assert(all.take(next.len() as int) == next);
                        assert forall|k: int| 0 <= k < kids.len() implies all.subrange(
                            done.len() as int,
                            next.len() as int,
                        )[k] == kids[k] by {
                            assert(all.take(next.len() as int)[done.len() + k] == next[done.len() + k]);
                        }
                    }
                    give_back_twice(m0, a0, done, kids);
                }
                if level > 1 {
                    proof {
                        subtree_stays(m0, mem@, f, (lv - 1) as nat);
                    }
                    let n: usize = free_table(alloc, mem, f, level - 1);
                    freed = freed + n;
                } else {
                    proof {
                        assert(kids[0] == f);
                        assert(kids.drop_last() =~= Seq::empty());
                        reveal_with_fuel(give_back, 2);
                    }
                    alloc.deallocate_frame(mem, f);
                    freed = freed + 1;
                }
            },
            None => {
                assert(next == done);
            },
        }
        i = i + 1;
    }
    proof {
        let below = frames_below(m0, t, lv, 512);
        assert(all.drop_last() =~= below);
        can_give_back_part(m0, a0, all, below.len() as int, all.len() as int);
        let part = all.subrange(below.len() as int, all.len() as int);
        assert(part[0] == t);
    }
    alloc.deallocate_frame(mem, t);
    freed + 1
}

/// Frames that can be given back are fewer than can be counted.
proof fn subtree_fits(mem: Seq<u8>, a: FrameModel, s: Seq<u64>)
    requires
        can_give_back(mem, a, s),
        mem.len() <= usize::MAX,
    ensures
        s.len() < usize::MAX,
{
    crate::memory::frames::frames_fit(mem, s);
}

/// The frames under the first `n` entries come first among those under more.
proof fn private_prefix(mem: Seq<u8>, pml4: u64, base: u64, n: int, m: int)
    requires
        0 <= n <= m,
    ensures
        private_below(mem, pml4, base, n).len() <= private_below(mem, pml4, base, m).len(),
        private_below(mem, pml4, base, m).take(private_below(mem, pml4, base, n).len() as int)
            == private_below(mem, pml4, base, n),
    decreases m,
{
    let a = private_below(mem, pml4, base, n);
    let b = private_below(mem, pml4, base, m);
    if n == m {
        assert(b.take(a.len() as int) =~= a);
    } else {
        private_prefix(mem, pml4, base, n, m - 1);
        let c = private_below(mem, pml4, base, m - 1);
        assert(b.take(a.len() as int) =~= c.take(a.len() as int));
    }
}

/// Give back every frame under the entries of the top-level table `pml4`
/// that `base` does not use, and that table itself. Returns how many frames
/// that was.
#[verifier::rlimit(40)]
fn free_frames_of(alloc: &mut BootInfoFrameAllocator, mem: &mut [u8], pml4: u64, base: u64) -> (freed:
    usize)
    requires
        old(alloc).wf(old(mem)@),
        can_give_back(old(mem)@, old(alloc)@, private_frames(old(mem)@, pml4, base)),
        frame_ok(old(mem)@.len(), base),
        !private_frames(old(mem)@, pml4, base).contains(base),
    ensures
        final(alloc).wf(final(mem)@),
        (final(mem)@, final(alloc)@) == give_back(
            old(mem)@,
            old(alloc)@,
            private_frames(old(mem)@, pml4, base),
        ),
        freed == private_frames(old(mem)@, pml4, base).len(),
{
    let ghost m0 = mem@;
    let ghost a0 = alloc@;
    let ghost all = private_frames(m0, pml4, base);
    let len: usize = mem.len();
    proof {
        assert(all[all.len() - 1] == pml4);
        assert(all.take(0) =~= Seq::empty());
        subtree_fits(m0, a0, all);
    }
    let mut freed: usize = 0;
    let mut i: usize = 0;
    while i < ENTRIES
        invariant
            i <= ENTRIES,
            len == m0.len(),
            all == private_frames(m0, pml4, base),
            all[all.len() - 1] == pml4,
            all.len() < usize::MAX,
            can_give_back(m0, a0, all),
            frame_ok(m0.len(), base),
            !all.contains(base),
            alloc.wf(mem@),
            private_below(m0, pml4, base, i as int).len() < all.len(),
            all.take(private_below(m0, pml4, base, i as int).len() as int) == private_below(
                m0,
                pml4,
                base,
                i as int,
            ),
            (mem@, alloc@) == give_back(m0, a0, private_below(m0, pml4, base, i as int)),
            freed == private_below(m0, pml4, base, i as int).len(),
        decreases ENTRIES - i,
    {
        let ghost done = private_below(m0, pml4, base, i as int);
        let ghost next = private_below(m0, pml4, base, i + 1);
        proof {
            can_give_back_part(m0, a0, all, done.len() as int, all.len() as int);
            let part = all.subrange(done.len() as int, all.len() as int);
            assert(part[part.len() - 1] == pml4);
            assert(agree_on(m0, mem@, pml4));
            same_entry(m0, mem@, pml4, i as int);
            assert forall|k: int| 0 <= k < done.len() implies frame_ok(m0.len(), #[trigger] done[k]) by {
                assert(all.take(done.len() as int)[k] == all[k]);
            }
            if done.contains(base) {
                let k = choose|k: int| 0 <= k < done.len() && done[k] == base;
                assert(all.take(done.len() as int)[k] == all[k]);
                assert(all.contains(base));
            }
            untouched(m0, a0, done, base);
            same_entry(m0, mem@, base, i as int);
            give_back_effect(m0, a0, done);
            private_prefix(m0, pml4, base, i + 1, 512);
            assert(all.take(next.len() as int) =~= private_below(m0, pml4, base, 512).take(
                next.len() as int,
            ));
        }
        let e: u64 = read_entry(mem, pml4, i);
        let shared: bool = read_entry(mem, base, i) != 0;
        if e != 0 && !shared {
            match frame_of(e) {
                Some(f) => {
                    let ghost kids = subtree(m0, f, 3);
                    proof {
                        assert(next == done + kids);
                        can_give_back_part(m0, a0, all, done.len() as int, next.len() as int);
                        assert(all.subrange(done.len() as int, next.len() as int) =~= kids) by {
                            assert(all.take(next.len() as int) == next);
                            assert forall|k: int| 0 <= k < kids.len() implies all.subrange(
                                done.len() as int,
                                next.len() as int,
                            )[k] == kids[k] by {
                                assert(all.take(next.len() as int)[done.len() + k]
                                    == next[done.len() + k]);
                            }
                        }
                        give_back_twice(m0, a0, done, kids);
                        subtree_stays(m0, mem@, f, 3);
                    }
                    let n: usize = free_table(alloc, mem, f, 3);
                    freed = freed + n;
                },
                None => {},
            }
        }
        i = i + 1;
    }
    proof {
        let below = private_below(m0, pml4, base, 512);
        assert(all.drop_last() =~= below);
        can_give_back_part(m0, a0, all, below.len() as int, all.len() as int);
        let part = all.subrange(below.len() as int, all.len() as int);
        assert(part[0] == pml4);
    }
    alloc.deallocate_frame(mem, pml4);
    freed + 1
}

/// Memory and counts once the pages of the address space `pml4` have been
/// released: those that somebody else still maps are no longer in its
/// tables.
pub open spec fn without_shared(mem: Seq<u8>, extra: Seq<u32>, pml4: u64, base: u64) -> (
    Seq<u8>,
    Seq<u32>,
) {
    let leaves = private_leaves(mem, pml4, base, 512);
    released(mem, extra, leaves, leaves.len() as int)
}

/// Whether the pages of the address space `pml4` can be released: every one
/// of them is counted, and the tables that map them are in use.
pub open spec fn can_release(
    mem: Seq<u8>,
    a: FrameModel,
    extra: Seq<u32>,
    pml4: u64,
    base: u64,
) -> bool {
    let leaves = private_leaves(mem, pml4, base, 512);
    &&& frame_ok(mem.len(), pml4)
    &&& frame_ok(mem.len(), base)
    &&& forall|k: int|
        0 <= k < leaves.len() ==> mapping_of((#[trigger] leaves[k]).entry).frame_nr() < extra.len()
            && !a.free.contains((leaves[k].at / 4096 * 4096) as u64)
}

/// Whether the frames of the address space `pml4` can be given back: they
/// are different frames, none is free already, and the table that the
/// address space was made from is not one of them.
pub open spec fn can_free(mem: Seq<u8>, a: FrameModel, pml4: u64, base: u64) -> bool {
    &&& can_give_back(mem, a, private_frames(mem, pml4, base))
    &&& frame_ok(mem.len(), base)
    &&& !private_frames(mem, pml4, base).contains(base)
}

/// Give back every frame that belongs to the address space `pml4`: what is
/// under the entries of its top-level table that `base` does not use, and
/// that table itself. Returns how many frames that was. What is under an
/// entry that `base` uses too is shared with it, and stays. So does a page
/// that somebody else still maps, which loses one sharer.
pub fn free_address_space(
    alloc: &mut BootInfoFrameAllocator,
    sharers: &mut Sharers,
    mem: &mut [u8],
    pml4: u64,
    base: u64,
) -> (freed: usize)
    requires
        old(alloc).wf(old(mem)@),
        can_release(old(mem)@, old(alloc)@, old(sharers)@, pml4, base),
        can_free(
            without_shared(old(mem)@, old(sharers)@, pml4, base).0,
            old(alloc)@,
            pml4,
            base,
        ),
    ensures
        final(alloc).wf(final(mem)@),
        ({
            let (m, x) = without_shared(old(mem)@, old(sharers)@, pml4, base);
            let frames = private_frames(m, pml4, base);
            &&& (final(mem)@, final(alloc)@) == give_back(m, old(alloc)@, frames)
            &&& final(sharers)@ == x
            &&& freed == frames.len()
        }),
{
    release_space(alloc, sharers, mem, pml4, base);
    free_frames_of(alloc, mem, pml4, base)
}

/// Release the pages of an address space.
fn release_space(
    alloc: &BootInfoFrameAllocator,
    sharers: &mut Sharers,
    mem: &mut [u8],
    pml4: u64,
    base: u64,
)
    requires
        alloc.wf(old(mem)@),
        can_release(old(mem)@, alloc@, old(sharers)@, pml4, base),
    ensures
        alloc.wf(final(mem)@),
        final(mem)@.len() == old(mem)@.len(),
        (final(mem)@, final(sharers)@) == without_shared(old(mem)@, old(sharers)@, pml4, base),
{
    let found = leaves(mem, pml4, base);
    proof {
        release_keeps_free_list(alloc, mem@, sharers@, found@, found@.len() as int);
    }
    release_pages(sharers, mem, pml4, base);
}

/// Whether the pages of the address space `pml4` can be released.
fn is_releasable(
    alloc: &BootInfoFrameAllocator,
    sharers: &Sharers,
    mem: &[u8],
    pml4: u64,
    base: u64,
) -> (r: bool)
    requires
        alloc.wf(mem@),
    ensures
        r == can_release(mem@, alloc@, sharers@, pml4, base),
{
    let len: usize = mem.len();
    if !is_frame(len, pml4) || !is_frame(len, base) {
        return false;
    }
    let found = leaves(mem, pml4, base);
    let mut k: usize = 0;
    while k < found.len()
        invariant
            k <= found@.len(),
            alloc.wf(mem@),
            found@ == private_leaves(mem@, pml4, base, 512),
            forall|j: int|
                0 <= j < k ==> mapping_of((#[trigger] found@[j]).entry).frame_nr() < sharers@.len()
                    && !alloc@.free.contains((found@[j].at / 4096 * 4096) as u64),
        decreases found@.len() - k,
    {
        let leaf = found[k];
        if !sharers.counts(mapping_in(leaf.entry).frame) || alloc.is_free(
            mem,
            leaf.at / 4096 * 4096,
        ) {
            assert(found@[k as int] == leaf);
            return false;
        }
        k = k + 1;
    }
    true
}

/// Append the frames of the table in frame `t`: what is below it, then
/// itself. `false` if one of the tables is not in memory.
fn collect_frames(mem: &[u8], t: u64, level: u64, found: &mut Vec<u64>) -> (ok: bool)
    requires
        1 <= level <= 3,
    ensures
        ok ==> final(found)@ == old(found)@ + subtree(mem@, t, level as nat),
        !ok ==> exists|k: int|
            0 <= k < subtree(mem@, t, level as nat).len() && !frame_ok(
                mem@.len(),
                #[trigger] subtree(mem@, t, level as nat)[k],
            ),
    decreases level,
{
    let len: usize = mem.len();
    let ghost before = found@;
    let ghost lv = level as nat;
    let ghost all = subtree(mem@, t, lv);
    assert(all[all.len() - 1] == t);
    if !is_frame(len, t) {
        return false;
    }
    let mut i: usize = 0;
    assert(found@ =~= before + frames_below(mem@, t, lv, 0));
    while i < ENTRIES
        invariant
            i <= ENTRIES,
            1 <= level <= 3,
            lv == level as nat,
            len == mem@.len(),
            frame_ok(mem@.len(), t),
            all == subtree(mem@, t, lv),
            found@ == before + frames_below(mem@, t, lv, i as int),
        decreases ENTRIES - i,
    {
        let e: u64 = read_entry(mem, t, i);
        let ghost done = frames_below(mem@, t, lv, i as int);
        let ghost next = frames_below(mem@, t, lv, i + 1);
        match frame_of(e) {
            Some(f) => {
                if level > 1 {
                    let ghost kids = subtree(mem@, f, (lv - 1) as nat);
                    if !collect_frames(mem, f, level - 1, found) {
                        proof {
                            let k = choose|k: int|
                                0 <= k < kids.len() && !frame_ok(mem@.len(), #[trigger] kids[k]);
                            below_prefix(mem@, t, lv, i + 1, 512);
                            let whole = frames_below(mem@, t, lv, 512);
                            assert(next[done.len() + k] == kids[k]);
                            assert(whole.take(next.len() as int)[done.len() + k] == kids[k]);
                            assert(all[done.len() + k] == kids[k]);
                        }
                        return false;
                    }
                    assert(found@ =~= before + next);
                } else {
                    found.push(f);
                    assert(found@ =~= before + next);
                }
            },
            None => {
                assert(next == done);
            },
        }
        i = i + 1;
    }
    found.push(t);
    assert(found@ =~= before + all);
    true
}

/// The frames that belong to the address space `pml4` and not to `base`;
/// `None` if one of the tables is not in memory.
fn frames_of_space(mem: &[u8], pml4: u64, base: u64) -> (r: Option<Vec<u64>>)
    requires
        frame_ok(mem@.len(), base),
    ensures
        match r {
            Some(v) => v@ == private_frames(mem@, pml4, base),
            None => exists|k: int|
                0 <= k < private_frames(mem@, pml4, base).len() && !frame_ok(
                    mem@.len(),
                    #[trigger] private_frames(mem@, pml4, base)[k],
                ),
        },
{
    let len: usize = mem.len();
    let mut found: Vec<u64> = Vec::new();
    let ghost all = private_frames(mem@, pml4, base);
    assert(all[all.len() - 1] == pml4);
    if !is_frame(len, pml4) {
        return None;
    }
    let mut i: usize = 0;
    while i < ENTRIES
        invariant
            i <= ENTRIES,
            len == mem@.len(),
            frame_ok(mem@.len(), base),
            frame_ok(mem@.len(), pml4),
            all == private_frames(mem@, pml4, base),
            found@ == private_below(mem@, pml4, base, i as int),
        decreases ENTRIES - i,
    {
        let e: u64 = read_entry(mem, pml4, i);
        if e != 0 && read_entry(mem, base, i) == 0 {
            match frame_of(e) {
                Some(f) => {
                    let ghost done = found@;
                    let ghost next = private_below(mem@, pml4, base, i + 1);
                    let ghost kids = subtree(mem@, f, 3);
                    if !collect_frames(mem, f, 3, &mut found) {
                        proof {
                            let k = choose|k: int|
                                0 <= k < kids.len() && !frame_ok(mem@.len(), #[trigger] kids[k]);
                            private_prefix(mem@, pml4, base, i + 1, 512);
                            let whole = private_below(mem@, pml4, base, 512);
                            assert(next[done.len() + k] == kids[k]);
                            assert(whole.take(next.len() as int)[done.len() + k] == kids[k]);
                            assert(all[done.len() + k] == kids[k]);
                        }
                        return None;
                    }
                },
                None => {},
            }
        }
        i = i + 1;
    }
    found.push(pml4);
    Some(found)
}

/// Whether the frames of `s` can be given back.
fn are_givable(alloc: &BootInfoFrameAllocator, mem: &[u8], s: &Vec<u64>) -> (r: bool)
    requires
        alloc.wf(mem@),
    ensures
        r == can_give_back(mem@, alloc@, s@),
{
    let len: usize = mem.len();
    let mut taken = alloc.free_map(mem);
    let ghost free = alloc@.free;
    let mut k: usize = 0;
    while k < s.len()
        invariant
            k <= s@.len(),
            len == mem@.len(),
            free == alloc@.free,
            taken@.len() == mem@.len() / 4096,
            can_give_back(mem@, alloc@, s@.take(k as int)),
            forall|f: u64| #[trigger]
                frame_ok(mem@.len(), f) ==> taken@[f as int / 4096] == (free.contains(f)
                    || s@.take(k as int).contains(f)),
        decreases s@.len() - k,
    {
        let f: u64 = s[k];
        let ghost before = s@.take(k as int);
        let ghost now = s@.take(k + 1);
        assert(now =~= before.push(f));
        if !is_frame(len, f) {
            assert(s@[k as int] == f);
            return false;
        }
        if taken[(f / 4096) as usize] {
            proof {
                assert(taken@[f as int / 4096]);
                if before.contains(f) {
                    let j = choose|j: int| 0 <= j < before.len() && before[j] == f;
                    assert(s@[j] == s@[k as int]);
                } else {
                    assert(free.contains(s@[k as int]));
                }
            }
            return false;
        }
        let ghost was = taken@;
        taken.set((f / 4096) as usize, true);
        proof {
            assert(!free.contains(f) && !before.contains(f));
            assert forall|j: int| 0 <= j < now.len() implies frame_ok(mem@.len(), #[trigger] now[j])
                && !free.contains(now[j]) by {
                if j < k {
                    assert(now[j] == before[j]);
                }
            }
            assert forall|i: int, j: int| 0 <= i < j < now.len() implies now[i] != now[j] by {
                assert(now[i] == before[i]);
                if j < k {
                    assert(now[j] == before[j]);
                }
            }
            assert forall|g: u64| #[trigger] frame_ok(mem@.len(), g) implies taken@[g as int / 4096]
                == (free.contains(g) || now.contains(g)) by {
                assert(was[g as int / 4096] == (free.contains(g) || before.contains(g)));
                if g == f {
                    assert(now[k as int] == g);
                } else {
                    assert(g as int / 4096 != f as int / 4096);
                    if before.contains(g) {
                        let j = choose|j: int| 0 <= j < before.len() && before[j] == g;
                        assert(now[j] == g);
                    }
                    if now.contains(g) {
                        let j = choose|j: int| 0 <= j < now.len() && now[j] == g;
                        assert(before[j] == g);
                    }
                }
            }
        }
        k = k + 1;
    }
    assert(s@.take(k as int) =~= s@);
    true
}

/// Whether the frames of the address space `pml4` can be given back.
fn is_freeable(alloc: &BootInfoFrameAllocator, mem: &[u8], pml4: u64, base: u64) -> (r: bool)
    requires
        alloc.wf(mem@),
    ensures
        r == can_free(mem@, alloc@, pml4, base),
{
    if !is_frame(mem.len(), base) {
        return false;
    }
    match frames_of_space(mem, pml4, base) {
        None => false,
        Some(frames) => {
            let mut k: usize = 0;
            while k < frames.len()
                invariant
                    k <= frames@.len(),
                    frames@ == private_frames(mem@, pml4, base),
                    forall|j: int| 0 <= j < k ==> #[trigger] frames@[j] != base,
                decreases frames@.len() - k,
            {
                if frames[k] == base {
                    assert(frames@.contains(base));
                    return false;
                }
                k = k + 1;
            }
            are_givable(alloc, mem, &frames)
        },
    }
}

/// Take the address space `pml4` down as `free_address_space` does, if it is
/// in order. `None` if it is not: then its pages are not released, or they
/// are but no frame is given back.
pub fn try_free_address_space(
    alloc: &mut BootInfoFrameAllocator,
    sharers: &mut Sharers,
    mem: &mut [u8],
    pml4: u64,
    base: u64,
) -> (freed: Option<usize>)
    requires
        old(alloc).wf(old(mem)@),
    ensures
        final(alloc).wf(final(mem)@),
        ({
            let (m, x) = without_shared(old(mem)@, old(sharers)@, pml4, base);
            let frames = private_frames(m, pml4, base);
            if !can_release(old(mem)@, old(alloc)@, old(sharers)@, pml4, base) {
                &&& freed is None
                &&& final(mem)@ == old(mem)@
                &&& final(alloc)@ == old(alloc)@
                &&& final(sharers)@ == old(sharers)@
            } else if !can_free(m, old(alloc)@, pml4, base) {
                &&& freed is None
                &&& final(mem)@ == m
                &&& final(alloc)@ == old(alloc)@
                &&& final(sharers)@ == x
            } else {
                &&& freed == Some(frames.len() as usize)
                &&& (final(mem)@, final(alloc)@) == give_back(m, old(alloc)@, frames)
                &&& final(sharers)@ == x
            }
        }),
{
    if !is_releasable(alloc, sharers, mem, pml4, base) {
        return None;
    }
    release_space(alloc, sharers, mem, pml4, base);
    if !is_freeable(alloc, mem, pml4, base) {
        return None;
    }
    Some(free_frames_of(alloc, mem, pml4, base))
}

/// Memory in which frame `to` holds what frame `from` held.
pub open spec fn frame_copied(mem: Seq<u8>, from: u64, to: u64) -> Seq<u8> {
    overwrite(mem, to as int, mem.subrange(from as int, from + 4096))
}

/// Copy frame `from` to frame `to`.
pub(crate) fn copy_frame(mem: &mut [u8], from: u64, to: u64)
    requires
        frame_ok(old(mem)@.len(), from),
        frame_ok(old(mem)@.len(), to),
    ensures
        final(mem)@ == frame_copied(old(mem)@, from, to),
{
    let _len: usize = mem.len();
    let ghost before = mem@;
    if from == to {
        assert(mem@ =~= frame_copied(before, from, to));
        return ;
    }
    proof {
        frames_apart(from, to);
    }
    let src: usize = from as usize;
    let dst: usize = to as usize;
    let mut k: usize = 0;
    while k < 4096
        invariant
            k <= 4096,
            src == from,
            dst == to,
            src + 4096 <= dst || dst + 4096 <= src,
            mem@.len() == before.len(),
            src + 4096 <= before.len(),
            dst + 4096 <= before.len(),
            before.len() <= usize::MAX,
            forall|i: int|
                0 <= i < mem@.len() ==> #[trigger] mem@[i] == (if dst <= i < dst + k {
                    before[src + i - dst]
                } else {
                    before[i]
                }),
        decreases 4096 - k,
    {
        let b: u8 = mem[src + k];
        mem[dst + k] = b;
        k = k + 1;
    }
    assert(mem@ =~= frame_copied(before, from, to));
}

/// Make a new address space that shares every mapping of the one whose
/// top-level table is in frame `src_pml4`: a copy of that table, in a frame
/// of its own. `None` if no frame is left.
pub fn new_address_space_from(alloc: &mut BootInfoFrameAllocator, mem: &mut [u8], src_pml4: u64) -> (r:
    Option<u64>)
    requires
        old(alloc).wf(old(mem)@),
        old(alloc)@.in_use < usize::MAX,
        old(alloc)@.next < usize::MAX,
        frame_ok(old(mem)@.len(), src_pml4),
    ensures
        final(alloc).wf(final(mem)@),
        r == old(alloc)@.head(),
        match r {
            Some(f) => {
                &&& final(alloc)@ == old(alloc)@.allocated()
                &&& final(mem)@ == frame_copied(
                    overwrite(old(mem)@, f as int, zeros(4096)),
                    src_pml4,
                    f,
                )
                &&& frame_ok(old(mem)@.len(), f)
            },
            None => final(alloc)@ == old(alloc)@ && final(mem)@ == old(mem)@,
        },
{
    proof {
        alloc.free_frames(mem@);
    }
    let ghost a0 = alloc@;
    match alloc.allocate_frame(mem) {
        Some(f) => {
            let ghost before = mem@;
            copy_frame(mem, src_pml4, f);
            proof {
                // The new frame is no longer on the free list.
                alloc.free_frames(before);
                assert forall|k: int| 0 <= k < alloc@.free.len() implies agree_on(
                    before,
                    mem@,
                    #[trigger] alloc@.free[k],
                ) by {
                    assert(a0.free.len() > 0);
                    assert(alloc@.free[k] == a0.free[k + 1]);
                    assert(a0.free[0] != a0.free[k + 1]);
                    frames_apart(alloc@.free[k], f);
                }
                alloc.wf_elsewhere(before, mem@);
            }
            Some(f)
        },
        None => None,
    }
}

/// A new address space has every entry of the one it was made from.
pub proof fn new_space_shares_everything(mem: Seq<u8>, src: u64, f: u64, i: int)
    requires
        frame_ok(mem.len(), src),
        frame_ok(mem.len(), f),
        src != f,
        0 <= i < 512,
    ensures
        entry(frame_copied(overwrite(mem, f as int, zeros(4096)), src, f), f, i) == entry(
            mem,
            src,
            i,
        ),
        entry(frame_copied(overwrite(mem, f as int, zeros(4096)), src, f), src, i) == entry(
            mem,
            src,
            i,
        ),
{
    frames_apart(src, f);
    let now = frame_copied(overwrite(mem, f as int, zeros(4096)), src, f);
    let a = f + 8 * i;
    let b = src + 8 * i;
    assert forall|k: int| 0 <= k < 8 implies #[trigger] now[a + k] == mem[b + k] by {
    }
    assert(now[a] == mem[b] && now[a + 1] == mem[b + 1] && now[a + 2] == mem[b + 2] && now[a + 3]
        == mem[b + 3] && now[a + 4] == mem[b + 4] && now[a + 5] == mem[b + 5] && now[a + 6] == mem[b
        + 6] && now[a + 7] == mem[b + 7]) by {
        assert(now[a + 0] == mem[b + 0]);
    }
    same_word(now, mem, b);
}

/// An address space taken down gives back every frame that was its own: they
/// are all free afterwards, and what was free stays free.
pub proof fn teardown_frees_everything(mem: Seq<u8>, a: FrameModel, pml4: u64, base: u64, f: u64)
    requires
        can_give_back(mem, a, private_frames(mem, pml4, base)),
    ensures
        ({
            let b = give_back(mem, a, private_frames(mem, pml4, base)).1;
            b.free.contains(f) <==> private_frames(mem, pml4, base).contains(f) || a.free.contains(f)
        }),
        give_back(mem, a, private_frames(mem, pml4, base)).1.free.len() == a.free.len()
            + private_frames(mem, pml4, base).len(),
{
    let s = private_frames(mem, pml4, base);
    give_back_effect(mem, a, s);
    let b = give_back(mem, a, s).1;
    if s.contains(f) {
        let k = choose|k: int| 0 <= k < s.len() && s[k] == f;
        assert(b.free[s.len() - 1 - k] == f);
    }
    if a.free.contains(f) {
        let k = choose|k: int| 0 <= k < a.free.len() && a.free[k] == f;
        assert(b.free[s.len() + k] == f);
    }
    if b.free.contains(f) {
        let k = choose|k: int| 0 <= k < b.free.len() && b.free[k] == f;
        if k < s.len() {
            assert(b.free[k] == s[s.len() - 1 - k]);
        } else {
            assert(b.free[k] == a.free[k - s.len()]);
        }
    }
}

} // verus!
