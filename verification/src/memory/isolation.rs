//! That address spaces do not see what the kernel does to another one, even
//! where they share pages, and that what it writes arrives.
use vstd::multiset::Multiset;
use vstd::prelude::*;

use crate::bytes::{le64, overwrite, same_word, stored_word, word_bytes, word_range};
use crate::memory::copy::{
    aligned, apart, copied_elsewhere, copied_len, copies_between, copy_delivers, copy_fault,
    fault_comes_first, no_fault_at, phys_elsewhere, put_delivers, put_elsewhere, put_len, puts,
    room, room_is_mapped, span, writable_part, CopyError, WindowModel,
};
use crate::memory::cow::{
    balanced, distinct, dropped, entry_round_trip, frames, is_own, mapping_of, owned, owned_pages,
    released, shared_pages_outlive_the_space, Mapping, COW,
};
use crate::memory::frames::{
    agree_on, frame_ok, frames_apart, frames_in, nth_frame, regions_ok, FrameModel, Region,
};
use crate::memory::map::PAGE_SIZE;
use crate::memory::paging::{canonical, p4_slot, HUGE_PAGE, PRESENT, WRITABLE};
use crate::memory::space::{
    entry, entry_frame, frame_copied, frames_below, give_back, give_back_effect, private_below,
    private_frames, subtree, untouched, without_shared, ADDRESS_MASK,
};
use crate::memory::walk::{
    changed_entry_is_found, entry_is_in_last_table, leaves_below, mapped, mapped_page_is_a_leaf,
    page_at, pages_are_aligned, pages_are_whole, private_leaves, seen, table_index, tables, walk,
    Mapped,
};

verus! {

/// The byte that an address space has at address `a`.
pub open spec fn sees(mem: Seq<u8>, pml4: u64, a: u64) -> Option<u8> {
    match page_at(mem, pml4, a) {
        Some(p) => Some(mem[p + a as int % 4096]),
        None => None,
    }
}

/// Whether address `a` is in a slot that address spaces made from `base`
/// have for themselves.
pub open spec fn own_slot(mem: Seq<u8>, base: u64, a: u64) -> bool {
    entry(mem, base, p4_slot(a)) == 0
}

/// The page tables of level `want` under the first `n` entries of the table
/// in frame `t`, which is of level `level`.
pub open spec fn tables_below(mem: Seq<u8>, t: u64, level: nat, want: nat, n: int) -> Seq<u64>
    decreases level, n,
{
    if n <= 0 || level <= want || want == 0 {
        Seq::empty()
    } else {
        let before = tables_below(mem, t, level, want, n - 1);
        match entry_frame(entry(mem, t, n - 1)) {
            Some(f) => before + (if level - 1 == want {
                seq![f]
            } else {
                tables_below(mem, f, (level - 1) as nat, want, 512)
            }),
            None => before,
        }
    }
}

/// The page tables of level `want` under the first `n` entries of the
/// top-level table `pml4` that `base` does not use.
pub open spec fn space_tables(mem: Seq<u8>, pml4: u64, base: u64, want: nat, n: int) -> Seq<u64>
    decreases n,
{
    if n <= 0 {
        Seq::empty()
    } else {
        let before = space_tables(mem, pml4, base, want, n - 1);
        let e = entry(mem, pml4, n - 1);
        if e != 0 && entry(mem, base, n - 1) == 0 && entry_frame(e) is Some {
            before + (if want == 3 {
                seq![entry_frame(e)->0]
            } else {
                tables_below(mem, entry_frame(e)->0, 3, want, 512)
            })
        } else {
            before
        }
    }
}

/// Whether frame `f` holds a page table of that level of the address space
/// `pml4`, and of no other made from `base`.
pub open spec fn is_table(mem: Seq<u8>, pml4: u64, base: u64, level: nat, f: u64) -> bool {
    ||| level == 4 && f == pml4
    ||| 1 <= level <= 3 && space_tables(mem, pml4, base, level, 512).contains(f)
}

/// The pages that the address space `pml4` maps in slots of its own.
pub open spec fn space_pages(mem: Seq<u8>, pml4: u64, base: u64) -> Seq<Mapping> {
    private_leaves(mem, pml4, base, 512).map_values(|m: Mapped| mapping_of(m.entry))
}

/// Whether frame `f` holds a page of the address space `pml4`.
pub open spec fn is_page(mem: Seq<u8>, pml4: u64, base: u64, f: u64) -> bool {
    exists|k: int|
        0 <= k < private_leaves(mem, pml4, base, 512).len() && mapping_of(
            (#[trigger] private_leaves(mem, pml4, base, 512)[k]).entry,
        ).frame == f
}

/// Whether frame `f` holds a page table or a page of the address space
/// `pml4`.
pub open spec fn uses(mem: Seq<u8>, pml4: u64, base: u64, f: u64) -> bool {
    ||| exists|level: nat| #[trigger] is_table(mem, pml4, base, level, f)
    ||| is_page(mem, pml4, base, f)
}

/// Whether frame `f` is in use: not free, nor one that will be handed out
/// fresh.
pub open spec fn taken(a: FrameModel, f: u64) -> bool {
    &&& !a.free.contains(f)
    &&& forall|k: int| k >= a.next ==> #[trigger] nth_frame(a.regions, k) != Some(f)
}

/// Whether what an allocator hands out are frames of a memory of `len`
/// bytes.
pub open spec fn allocator_ok(a: FrameModel, len: nat) -> bool {
    &&& forall|k: int| 0 <= k < a.free.len() ==> frame_ok(len, #[trigger] a.free[k])
    &&& regions_ok(a.regions, len)
    &&& 0 <= a.next
}

/// Whether the address space `pml4`, made from `base`, is in order. Its
/// tables and pages are in frames in use, no table is a page or is a table
/// of two levels, every page is mapped by one entry of 4 KiB, and different
/// pages are in different frames.
pub open spec fn in_order(mem: Seq<u8>, a: FrameModel, pml4: u64, base: u64) -> bool {
    &&& frame_ok(mem.len(), base)
    &&& !uses(mem, pml4, base, base)
    &&& forall|level: nat, f: u64| #[trigger]
        is_table(mem, pml4, base, level, f) ==> frame_ok(mem.len(), f) && taken(a, f) && !is_page(
            mem,
            pml4,
            base,
            f,
        )
    &&& forall|level: nat, other: nat, f: u64| #[trigger]
        is_table(mem, pml4, base, level, f) && #[trigger] is_table(mem, pml4, base, other, f)
            ==> level == other
    &&& forall|f: u64| #[trigger]
        is_page(mem, pml4, base, f) ==> frame_ok(mem.len(), f) && taken(a, f)
    &&& forall|x: u64|
        own_slot(mem, base, x) && #[trigger] mapped(mem, pml4, x) is Some ==> (mapped(
            mem,
            pml4,
            x,
        )->0).level == 1 && entry_frame((mapped(mem, pml4, x)->0).entry) is Some
    &&& forall|x: u64, y: u64|
        own_slot(mem, base, x) && own_slot(mem, base, y) && x / 4096 != y / 4096
            && #[trigger] mapped(mem, pml4, x) is Some && #[trigger] mapped(mem, pml4, y) is Some
            ==> mapping_of((mapped(mem, pml4, x)->0).entry).frame != mapping_of(
            (mapped(mem, pml4, y)->0).entry,
        ).frame
    &&& distinct(mem, private_leaves(mem, pml4, base, 512))
}

/// Whether no table of one address space is a table or a page of the other.
pub open spec fn unrelated(mem: Seq<u8>, p: u64, q: u64, base: u64) -> bool {
    &&& forall|level: nat, f: u64| #[trigger]
        is_table(mem, p, base, level, f) ==> !uses(mem, q, base, f)
    &&& forall|level: nat, f: u64| #[trigger]
        is_table(mem, q, base, level, f) ==> !uses(mem, p, base, f)
}

/// Whether the counts are right: `rest` are the frames that are mapped
/// elsewhere than in the two address spaces.
pub open spec fn counted(
    mem: Seq<u8>,
    extra: Seq<u32>,
    p: u64,
    q: u64,
    base: u64,
    rest: Multiset<int>,
) -> bool {
    balanced(
        extra,
        frames(space_pages(mem, p, base)).add(frames(space_pages(mem, q, base))).add(rest),
    )
}

/// Whether what can be written to in the address space `pml4` is nobody
/// else's.
pub open spec fn writable_is_own(mem: Seq<u8>, extra: Seq<u32>, pml4: u64, base: u64) -> bool {
    forall|k: int|
        0 <= k < private_leaves(mem, pml4, base, 512).len() ==> {
            let e = (#[trigger] private_leaves(mem, pml4, base, 512)[k]).entry;
            e & WRITABLE != 0 ==> extra[mapping_of(e).frame_nr()] == 0
        }
}

// The way through the tables.

proof fn same_table_entry(mem: Seq<u8>, now: Seq<u8>, t: u64, i: int)
    requires
        agree_on(mem, now, t),
        0 <= i < 512,
    ensures
        entry(mem, t, i) == entry(now, t, i),
{
    assert forall|j: int| t + 8 * i <= j < t + 8 * i + 8 implies #[trigger] mem[j] == now[j] by {
    }
    same_word(mem, now, t + 8 * i);
}

proof fn path_lengths(mem: Seq<u8>, table: u64, level: int, addr: u64)
    requires
        level >= 1,
    ensures
        1 <= tables(mem, table, level, addr).len() <= level,
        tables(mem, table, level, addr)[0] == table,
    decreases level,
{
    let e = entry(mem, table, table_index(addr, level));
    if level > 1 && e & PRESENT != 0 && e & HUGE_PAGE == 0 {
        path_lengths(mem, e & ADDRESS_MASK, level - 1, addr);
    }
}

/// The way to an address stays the same while the tables on it do, and the
/// entry at its end.
proof fn walk_stays(mem: Seq<u8>, now: Seq<u8>, table: u64, level: int, addr: u64)
    requires
        level >= 1,
        now.len() == mem.len(),
        ({
            let path = tables(mem, table, level, addr);
            let i = table_index(addr, level - (path.len() - 1));
            &&& forall|l: int| 0 <= l < path.len() - 1 ==> agree_on(mem, now, #[trigger] path[l])
            &&& entry(now, path.last(), i) == entry(mem, path.last(), i)
        }),
    ensures
        walk(now, table, level, addr) == walk(mem, table, level, addr),
        tables(now, table, level, addr) == tables(mem, table, level, addr),
    decreases level,
{
    let path = tables(mem, table, level, addr);
    let i = table_index(addr, level);
    let e = entry(mem, table, i);
    path_lengths(mem, table, level, addr);
    if level > 1 && e & PRESENT != 0 && e & HUGE_PAGE == 0 {
        let rest = tables(mem, e & ADDRESS_MASK, level - 1, addr);
        path_lengths(mem, e & ADDRESS_MASK, level - 1, addr);
        assert(path == seq![table] + rest);
        assert(path.last() == rest.last());
        assert(path[0] == table);
        assert(agree_on(mem, now, path[0]));
        same_table_entry(mem, now, table, i);
        assert forall|l: int| 0 <= l < rest.len() - 1 implies agree_on(mem, now, #[trigger] rest[l]) by {
            assert(path[l + 1] == rest[l]);
        }
        walk_stays(mem, now, e & ADDRESS_MASK, level - 1, addr);
    } else {
        assert(path =~= seq![table]);
        assert(path.last() == table);
    }
}

/// The frame in an entry is at a page boundary.
proof fn masked_is_aligned(e: u64)
    ensures
        (e & ADDRESS_MASK) % 4096 == 0,
{
    assert((e & 0x000f_ffff_ffff_f000u64) % 4096 == 0) by (bit_vector);
}

/// The page of 4 KiB that an entry maps is the frame in the entry.
proof fn page_is_the_frame(m: Mapped, addr: u64)
    requires
        m.level == 1,
    ensures
        m.page(addr) == mapping_of(m.entry).frame,
{
    masked_is_aligned(m.entry);
    let f = m.entry & ADDRESS_MASK;
    assert(addr as int % 4096 / 4096 == 0);
    assert(f as int / 4096 * 4096 == f);
}

/// An address space has the same byte at an address in two memories that
/// agree on the tables on the way there and on the page.
proof fn sees_the_same(mem: Seq<u8>, now: Seq<u8>, pml4: u64, addr: u64)
    requires
        now.len() == mem.len(),
        forall|l: int|
            0 <= l < tables(mem, pml4, 4, addr).len() ==> agree_on(
                mem,
                now,
                #[trigger] tables(mem, pml4, 4, addr)[l],
            ),
        mapped(mem, pml4, addr) matches Some(m) ==> m.level == 1 && agree_on(
            mem,
            now,
            mapping_of(m.entry).frame,
        ),
    ensures
        sees(now, pml4, addr) == sees(mem, pml4, addr),
{
    reveal(mapped);
    let path = tables(mem, pml4, 4, addr);
    path_lengths(mem, pml4, 4, addr);
    let i = table_index(addr, 4 - (path.len() - 1));
    assert(path[path.len() - 1] == path.last());
    assert(0 <= i < 512);
    same_table_entry(mem, now, path.last(), i);
    walk_stays(mem, now, pml4, 4, addr);
    match mapped(mem, pml4, addr) {
        Some(m) => {
            page_is_the_frame(m, addr);
            let f = mapping_of(m.entry).frame;
            assert(mem[f + addr as int % 4096] == now[f + addr as int % 4096]);
        },
        None => {},
    }
}

// Which tables there are.

proof fn found_below(mem: Seq<u8>, t: u64, level: nat, want: nat, i: int, n: int, x: u64)
    requires
        0 <= i < n,
        1 <= want < level,
        entry_frame(entry(mem, t, i)) matches Some(f) && (if level - 1 == want {
            x == f
        } else {
            tables_below(mem, f, (level - 1) as nat, want, 512).contains(x)
        }),
    ensures
        tables_below(mem, t, level, want, n).contains(x),
    decreases n,
{
    let all = tables_below(mem, t, level, want, n);
    let before = tables_below(mem, t, level, want, n - 1);
    if i < n - 1 {
        found_below(mem, t, level, want, i, n - 1, x);
        let k = choose|k: int| 0 <= k < before.len() && before[k] == x;
        assert(all[k] == x);
    } else {
        let f = entry_frame(entry(mem, t, i))->0;
        if level - 1 == want {
            assert(all[before.len() as int] == x);
        } else {
            let rest = tables_below(mem, f, (level - 1) as nat, want, 512);
            let k = choose|k: int| 0 <= k < rest.len() && rest[k] == x;
            assert(all[before.len() + k] == x);
        }
    }
}

proof fn found_in_space(mem: Seq<u8>, pml4: u64, base: u64, want: nat, i: int, n: int, x: u64)
    requires
        0 <= i < n,
        1 <= want <= 3,
        entry(mem, pml4, i) != 0,
        entry(mem, base, i) == 0,
        entry_frame(entry(mem, pml4, i)) matches Some(f) && (if want == 3 {
            x == f
        } else {
            tables_below(mem, f, 3, want, 512).contains(x)
        }),
    ensures
        space_tables(mem, pml4, base, want, n).contains(x),
    decreases n,
{
    let all = space_tables(mem, pml4, base, want, n);
    let before = space_tables(mem, pml4, base, want, n - 1);
    if i < n - 1 {
        found_in_space(mem, pml4, base, want, i, n - 1, x);
        let k = choose|k: int| 0 <= k < before.len() && before[k] == x;
        assert(all[k] == x);
    } else {
        let f = entry_frame(entry(mem, pml4, i))->0;
        if want == 3 {
            assert(all[before.len() as int] == x);
        } else {
            let rest = tables_below(mem, f, 3, want, 512);
            let k = choose|k: int| 0 <= k < rest.len() && rest[k] == x;
            assert(all[before.len() + k] == x);
        }
    }
}

/// The tables on the way to an address are tables of their level.
proof fn path_is_below(mem: Seq<u8>, t: u64, level: int, addr: u64, l: int)
    requires
        level >= 1,
        1 <= l < tables(mem, t, level, addr).len(),
    ensures
        tables_below(mem, t, level as nat, (level - l) as nat, 512).contains(
            tables(mem, t, level, addr)[l],
        ),
        l < level,
    decreases level,
{
    let path = tables(mem, t, level, addr);
    let i = table_index(addr, level);
    let e = entry(mem, t, i);
    let rest = tables(mem, e & ADDRESS_MASK, level - 1, addr);
    path_lengths(mem, t, level, addr);
    path_lengths(mem, e & ADDRESS_MASK, level - 1, addr);
    assert(path[l] == rest[l - 1]);
    if l > 1 {
        path_is_below(mem, e & ADDRESS_MASK, level - 1, addr, l - 1);
    }
    found_below(mem, t, level as nat, (level - l) as nat, i, 512, path[l]);
}

/// The tables on the way to an address in a slot of its own are tables of
/// the address space.
proof fn path_is_of_the_space(mem: Seq<u8>, pml4: u64, base: u64, addr: u64, l: int)
    requires
        own_slot(mem, base, addr),
        0 <= l < tables(mem, pml4, 4, addr).len(),
    ensures
        l <= 3,
        is_table(mem, pml4, base, (4 - l) as nat, tables(mem, pml4, 4, addr)[l]),
{
    let path = tables(mem, pml4, 4, addr);
    let i = table_index(addr, 4);
    let e = entry(mem, pml4, i);
    assert(i == p4_slot(addr));
    path_lengths(mem, pml4, 4, addr);
    if l > 0 {
        let rest = tables(mem, e & ADDRESS_MASK, 3, addr);
        path_lengths(mem, e & ADDRESS_MASK, 3, addr);
        assert(path[l] == rest[l - 1]);
        if l > 1 {
            path_is_below(mem, e & ADDRESS_MASK, 3, addr, l - 1);
        }
        assert(e != 0) by {
            assert(0u64 & 1u64 == 0) by (bit_vector);
        }
        found_in_space(mem, pml4, base, (4 - l) as nat, i, 512, path[l]);
    }
}

/// Nothing that an address space has at an address changes while the frames
/// it uses stay the same.
proof fn view_stays(mem: Seq<u8>, now: Seq<u8>, a: FrameModel, pml4: u64, base: u64, addr: u64)
    requires
        now.len() == mem.len(),
        in_order(mem, a, pml4, base),
        own_slot(mem, base, addr),
        forall|f: u64| #[trigger] uses(mem, pml4, base, f) ==> agree_on(mem, now, f),
    ensures
        sees(now, pml4, addr) == sees(mem, pml4, addr),
{
    let path = tables(mem, pml4, 4, addr);
    assert forall|l: int| 0 <= l < path.len() implies agree_on(mem, now, #[trigger] path[l]) by {
        path_is_of_the_space(mem, pml4, base, addr, l);
        assert(uses(mem, pml4, base, path[l]));
    }
    match mapped(mem, pml4, addr) {
        Some(m) => {
            page_of_the_space(mem, pml4, base, addr);
            assert(uses(mem, pml4, base, mapping_of(m.entry).frame));
        },
        None => {},
    }
    sees_the_same(mem, now, pml4, addr);
}

/// A page that is mapped in a slot of its own is a page of the address
/// space.
proof fn page_of_the_space(mem: Seq<u8>, pml4: u64, base: u64, addr: u64) -> (k: int)
    requires
        own_slot(mem, base, addr),
        mapped(mem, pml4, addr) matches Some(m) && m.level == 1 && entry_frame(m.entry) is Some,
    ensures
        0 <= k < private_leaves(mem, pml4, base, 512).len(),
        private_leaves(mem, pml4, base, 512)[k] == mapped(mem, pml4, addr)->0,
        is_page(mem, pml4, base, mapping_of((mapped(mem, pml4, addr)->0).entry).frame),
{
    let m = mapped(mem, pml4, addr)->0;
    let leaves = private_leaves(mem, pml4, base, 512);
    assert(p4_slot(addr) < 512);
    mapped_page_is_a_leaf(mem, pml4, base, addr, 512);
    let k = choose|k: int| 0 <= k < leaves.len() && leaves[k] == m;
    assert(mapping_of(leaves[k].entry).frame == mapping_of(m.entry).frame);
    k
}

// Counts.

proof fn listed_is_counted(pages: Seq<Mapping>, k: int)
    requires
        0 <= k < pages.len(),
    ensures
        frames(pages).count(pages[k].frame_nr()) >= 1,
    decreases pages.len(),
{
    if k < pages.len() - 1 {
        assert(pages.drop_last()[k] == pages[k]);
        listed_is_counted(pages.drop_last(), k);
    }
}

/// A page that both address spaces map has a sharer; one of the first is
/// counted at any rate.
proof fn shared_page_has_a_sharer(
    mem: Seq<u8>,
    extra: Seq<u32>,
    p: u64,
    q: u64,
    base: u64,
    rest: Multiset<int>,
    k: int,
)
    requires
        counted(mem, extra, p, q, base, rest),
        0 <= k < private_leaves(mem, p, base, 512).len(),
    ensures
        ({
            let page = mapping_of(private_leaves(mem, p, base, 512)[k].entry);
            &&& 0 <= page.frame_nr() < extra.len()
            &&& is_page(mem, q, base, page.frame) ==> extra[page.frame_nr()] > 0
        }),
{
    let page = mapping_of(private_leaves(mem, p, base, 512)[k].entry);
    let mine = frames(space_pages(mem, p, base));
    let yours = frames(space_pages(mem, q, base));
    let all = mine.add(yours).add(rest);
    let f = page.frame_nr();
    assert(space_pages(mem, p, base)[k] == page);
    listed_is_counted(space_pages(mem, p, base), k);
    assert(all.count(f) > 0);
    assert(extra[f] + 1 == all.count(f) || extra[f] == 0 && all.count(f) == 0);
    if is_page(mem, q, base, page.frame) {
        let leaves = private_leaves(mem, q, base, 512);
        let j = choose|j: int|
            0 <= j < leaves.len() && mapping_of((#[trigger] leaves[j]).entry).frame == page.frame;
        assert(space_pages(mem, q, base)[j] == mapping_of(leaves[j].entry));
        listed_is_counted(space_pages(mem, q, base), j);
    }
}

// Taking an address space down.

/// Where an entry that maps a page is: in a table of the first level.
proof fn leaf_comes_from(mem: Seq<u8>, t: u64, level: nat, n: int, k: int) -> (r: (u64, int))
    requires
        1 <= level,
        n <= 512,
        0 <= k < leaves_below(mem, t, level, n).len(),
        mem.len() <= u64::MAX,
    ensures
        ({
            let leaf = leaves_below(mem, t, level, n)[k];
            &&& 0 <= r.1 < 512
            &&& frame_ok(mem.len(), r.0)
            &&& leaf.at == r.0 + 8 * r.1
            &&& leaf.entry == entry(mem, r.0, r.1)
            &&& entry_frame(leaf.entry) is Some
            &&& if level == 1 {
                r.0 == t
            } else {
                tables_below(mem, t, level, 1, n).contains(r.0)
            }
        }),
    decreases level, n,
{
    let before = leaves_below(mem, t, level, n - 1);
    let e = entry(mem, t, n - 1);
    if k < before.len() {
        let r = leaf_comes_from(mem, t, level, n - 1, k);
        if level > 1 {
            let few = tables_below(mem, t, level, 1, n - 1);
            let j = choose|j: int| 0 <= j < few.len() && few[j] == r.0;
            assert(tables_below(mem, t, level, 1, n)[j] == r.0);
        }
        r
    } else if level > 1 {
        let f = entry_frame(e)->0;
        let r = leaf_comes_from(mem, f, (level - 1) as nat, 512, k - before.len());
        found_below(mem, t, level, 1, n - 1, n, r.0);
        r
    } else {
        (t, n - 1)
    }
}

/// Where an entry that maps a page of an address space is: in one of its
/// tables of the first level.
proof fn leaf_of_the_space(mem: Seq<u8>, pml4: u64, base: u64, n: int, k: int) -> (r: (u64, int))
    requires
        n <= 512,
        0 <= k < private_leaves(mem, pml4, base, n).len(),
        mem.len() <= u64::MAX,
    ensures
        ({
            let leaf = private_leaves(mem, pml4, base, n)[k];
            &&& 0 <= r.1 < 512
            &&& frame_ok(mem.len(), r.0)
            &&& leaf.at == r.0 + 8 * r.1
            &&& leaf.entry == entry(mem, r.0, r.1)
            &&& entry_frame(leaf.entry) is Some
            &&& space_tables(mem, pml4, base, 1, n).contains(r.0)
        }),
    decreases n,
{
    let before = private_leaves(mem, pml4, base, n - 1);
    if k < before.len() {
        let r = leaf_of_the_space(mem, pml4, base, n - 1, k);
        let few = space_tables(mem, pml4, base, 1, n - 1);
        let j = choose|j: int| 0 <= j < few.len() && few[j] == r.0;
        assert(space_tables(mem, pml4, base, 1, n)[j] == r.0);
        r
    } else {
        let f = entry_frame(entry(mem, pml4, n - 1))->0;
        let r = leaf_comes_from(mem, f, 3, 512, k - before.len());
        found_in_space(mem, pml4, base, 1, n - 1, n, r.0);
        r
    }
}

/// Releasing pages changes the entries that map them, and nothing else.
proof fn released_elsewhere(mem: Seq<u8>, extra: Seq<u32>, leaves: Seq<Mapped>, n: int, x: int)
    requires
        0 <= n <= leaves.len(),
        0 <= x < mem.len(),
        forall|k: int|
            0 <= k < leaves.len() ==> !((#[trigger] leaves[k]).at <= x < leaves[k].at + 8),
    ensures
        released(mem, extra, leaves, n).0.len() == mem.len(),
        released(mem, extra, leaves, n).0[x] == mem[x],
    decreases n,
{
    if n > 0 {
        released_elsewhere(mem, extra, leaves, n - 1, x);
        assert(!(leaves[n - 1].at <= x < leaves[n - 1].at + 8));
        assert(word_bytes(0).len() == 8);
    }
}

/// Whether a table is as it was, but for entries that are gone, which a
/// table of the first level may have.
spec fn trimmed(mem: Seq<u8>, now: Seq<u8>, t: u64, level: nat) -> bool {
    forall|i: int|
        0 <= i < 512 ==> (#[trigger] entry(now, t, i) == entry(mem, t, i) || level == 1 && entry(
            now,
            t,
            i,
        ) == 0)
}

/// Whether frame `x` is a table under the first `n` entries of the one in
/// frame `t`, or a page there that is still mapped.
spec fn still_there(mem: Seq<u8>, now: Seq<u8>, t: u64, level: nat, n: int, x: u64) -> bool {
    ||| exists|want: nat|
        1 <= want < level && #[trigger] tables_below(mem, t, level, want, n).contains(x)
    ||| exists|k: int|
        0 <= k < leaves_below(mem, t, level, n).len() && kept(
            now,
            #[trigger] leaves_below(mem, t, level, n)[k],
            x,
        )
}

/// Whether frame `x` is the page of an entry that is still there.
spec fn kept(now: Seq<u8>, leaf: Mapped, x: u64) -> bool {
    mapping_of(leaf.entry).frame == x && le64(now, leaf.at as int) == leaf.entry
}

/// What is given back are tables, and pages that are still mapped.
proof fn freed_below(mem: Seq<u8>, now: Seq<u8>, t: u64, level: nat, n: int, x: u64)
    requires
        1 <= level,
        0 <= n <= 512,
        mem.len() <= u64::MAX,
        now.len() == mem.len(),
        frame_ok(mem.len(), t),
        trimmed(mem, now, t, level),
        forall|want: nat, f: u64| #[trigger]
            tables_below(mem, t, level, want, n).contains(f) ==> frame_ok(mem.len(), f) && trimmed(
                mem,
                now,
                f,
                want,
            ),
        frames_below(now, t, level, n).contains(x),
    ensures
        still_there(mem, now, t, level, n, x),
    decreases level, n,
{
    let s = frames_below(now, t, level, n);
    let before = frames_below(now, t, level, n - 1);
    let j = choose|j: int| 0 <= j < s.len() && s[j] == x;
    let e = entry(now, t, n - 1);
    let leaves = leaves_below(mem, t, level, n);
    let fewer = leaves_below(mem, t, level, n - 1);
    if j < before.len() {
        assert(before[j] == x);
        assert forall|want: nat, f: u64| #[trigger] tables_below(
            mem,
            t,
            level,
            want,
            n - 1,
        ).contains(f) implies frame_ok(mem.len(), f) && trimmed(mem, now, f, want) by {
            more_tables(mem, t, level, want, n, f);
        }
        freed_below(mem, now, t, level, n - 1, x);
        if exists|want: nat|
            1 <= want < level && #[trigger] tables_below(mem, t, level, want, n - 1).contains(x) {
            let want = choose|want: nat|
                1 <= want < level && #[trigger] tables_below(mem, t, level, want, n - 1).contains(x);
            more_tables(mem, t, level, want, n, x);
        } else {
            let k = choose|k: int| 0 <= k < fewer.len() && kept(now, #[trigger] fewer[k], x);
            assert(leaves[k] == fewer[k]);
        }
    } else {
        assert(entry_frame(e) is Some);
        let f = entry_frame(e)->0;
        assert(entry_frame(0) is None) by {
            assert(0u64 & 1u64 == 0) by (bit_vector);
        }
        assert(e == entry(mem, t, n - 1));
        if level > 1 {
            let below = frames_below(now, f, (level - 1) as nat, 512);
            assert(subtree(now, f, (level - 1) as nat)[j - before.len()] == x);
            found_below(mem, t, level, (level - 1) as nat, n - 1, n, f);
            if j - before.len() < below.len() {
                assert(below[j - before.len()] == x);
                assert forall|want: nat, g: u64| #[trigger] tables_below(
                    mem,
                    f,
                    (level - 1) as nat,
                    want,
                    512,
                ).contains(g) implies frame_ok(mem.len(), g) && trimmed(mem, now, g, want) by {
                    found_below(mem, t, level, want, n - 1, n, g);
                }
                freed_below(mem, now, f, (level - 1) as nat, 512, x);
                if exists|want: nat|
                    1 <= want < level - 1 && #[trigger] tables_below(
                        mem,
                        f,
                        (level - 1) as nat,
                        want,
                        512,
                    ).contains(x) {
                    let want = choose|want: nat|
                        1 <= want < level - 1 && #[trigger] tables_below(
                            mem,
                            f,
                            (level - 1) as nat,
                            want,
                            512,
                        ).contains(x);
                    found_below(mem, t, level, want, n - 1, n, x);
                } else {
                    let rest = leaves_below(mem, f, (level - 1) as nat, 512);
                    let k = choose|k: int| 0 <= k < rest.len() && kept(now, #[trigger] rest[k], x);
                    assert(leaves[fewer.len() + k] == rest[k]);
                }
            } else {
                assert(x == f);
            }
        } else {
            assert(x == f);
            let k = fewer.len() as int;
            assert(leaves[k].at == t + 8 * (n - 1) && leaves[k].entry == e);
            word_range(now, t + 8 * (n - 1));
            assert(kept(now, leaves[k], x));
        }
    }
}

proof fn more_tables(mem: Seq<u8>, t: u64, level: nat, want: nat, n: int, x: u64)
    requires
        tables_below(mem, t, level, want, n - 1).contains(x),
    ensures
        tables_below(mem, t, level, want, n).contains(x),
{
    let few = tables_below(mem, t, level, want, n - 1);
    let j = choose|j: int| 0 <= j < few.len() && few[j] == x;
    assert(tables_below(mem, t, level, want, n)[j] == x);
}

/// What is given back of an address space are its tables, and pages that are
/// still mapped.
proof fn freed_of_the_space(mem: Seq<u8>, now: Seq<u8>, pml4: u64, base: u64, n: int, x: u64)
    requires
        0 <= n <= 512,
        mem.len() <= u64::MAX,
        now.len() == mem.len(),
        trimmed(mem, now, pml4, 4),
        trimmed(mem, now, base, 4),
        forall|level: nat, f: u64| #[trigger]
            is_table(mem, pml4, base, level, f) ==> frame_ok(mem.len(), f) && trimmed(
                mem,
                now,
                f,
                level,
            ),
        private_below(now, pml4, base, n).contains(x),
    ensures
        (exists|level: nat| #[trigger] is_table(mem, pml4, base, level, x)) || exists|k: int|
            0 <= k < private_leaves(mem, pml4, base, 512).len() && kept(
                now,
                #[trigger] private_leaves(mem, pml4, base, 512)[k],
                x,
            ),
    decreases n,
{
    let s = private_below(now, pml4, base, n);
    let before = private_below(now, pml4, base, n - 1);
    let j = choose|j: int| 0 <= j < s.len() && s[j] == x;
    if j < before.len() {
        assert(before[j] == x);
        freed_of_the_space(mem, now, pml4, base, n - 1, x);
    } else {
        let e = entry(now, pml4, n - 1);
        assert(e == entry(mem, pml4, n - 1));
        assert(entry(now, base, n - 1) == entry(mem, base, n - 1));
        let f = entry_frame(e)->0;
        let below = frames_below(now, f, 3, 512);
        assert(subtree(now, f, 3)[j - before.len()] == x);
        found_in_space(mem, pml4, base, 3, n - 1, 512, f);
        assert(is_table(mem, pml4, base, 3, f));
        if j - before.len() < below.len() {
            assert(below[j - before.len()] == x);
            assert forall|want: nat, g: u64| #[trigger] tables_below(mem, f, 3, want, 512).contains(
                g,
            ) implies frame_ok(mem.len(), g) && trimmed(mem, now, g, want) by {
                found_in_space(mem, pml4, base, want, n - 1, 512, g);
                assert(is_table(mem, pml4, base, want, g));
            }
            freed_below(mem, now, f, 3, 512, x);
            if exists|want: nat|
                1 <= want < 3 && #[trigger] tables_below(mem, f, 3, want, 512).contains(x) {
                let want = choose|want: nat|
                    1 <= want < 3 && #[trigger] tables_below(mem, f, 3, want, 512).contains(x);
                found_in_space(mem, pml4, base, want, n - 1, 512, x);
                assert(is_table(mem, pml4, base, want, x));
            } else {
                let rest = leaves_below(mem, f, 3, 512);
                let k = choose|k: int| 0 <= k < rest.len() && kept(now, #[trigger] rest[k], x);
                let at = leaf_is_listed(mem, pml4, base, n - 1, 512, k);
                assert(kept(now, private_leaves(mem, pml4, base, 512)[at], x));
            }
        } else {
            assert(x == f);
        }
    }
}

/// What is under one entry is among what is under all.
proof fn leaf_is_listed(mem: Seq<u8>, pml4: u64, base: u64, i: int, n: int, k: int) -> (at: int)
    requires
        0 <= i < n,
        entry(mem, pml4, i) != 0,
        entry(mem, base, i) == 0,
        entry_frame(entry(mem, pml4, i)) matches Some(f) && 0 <= k < leaves_below(
            mem,
            f,
            3,
            512,
        ).len(),
    ensures
        0 <= at < private_leaves(mem, pml4, base, n).len(),
        private_leaves(mem, pml4, base, n)[at] == leaves_below(
            mem,
            entry_frame(entry(mem, pml4, i))->0,
            3,
            512,
        )[k],
    decreases n,
{
    let before = private_leaves(mem, pml4, base, n - 1);
    if i < n - 1 {
        let at = leaf_is_listed(mem, pml4, base, i, n - 1, k);
        assert(private_leaves(mem, pml4, base, n)[at] == before[at]);
        at
    } else {
        before.len() + k
    }
}

/// What releasing pages does to a word of memory: it is as it was, or one of
/// the entries, and zero.
proof fn released_word(mem: Seq<u8>, extra: Seq<u32>, leaves: Seq<Mapped>, w: int)
    requires
        distinct(mem, leaves),
        forall|k: int|
            0 <= k < leaves.len() ==> (#[trigger] leaves[k]).at % 8 == 0 && mapping_of(
                leaves[k].entry,
            ).frame_nr() < extra.len(),
        w % 8 == 0,
        0 <= w,
        w + 8 <= mem.len(),
    ensures
        ({
            let now = released(mem, extra, leaves, leaves.len() as int).0;
            le64(now, w) == le64(mem, w) || le64(now, w) == 0 && exists|k: int|
                0 <= k < leaves.len() && (#[trigger] leaves[k]).at == w
        }),
{
    let n = leaves.len() as int;
    let now = released(mem, extra, leaves, n).0;
    if exists|k: int| 0 <= k < n && (#[trigger] leaves[k]).at == w {
        let k = choose|k: int| 0 <= k < n && (#[trigger] leaves[k]).at == w;
        shared_pages_outlive_the_space(mem, extra, leaves, n, k);
    } else {
        assert forall|x: int| w <= x < w + 8 implies #[trigger] now[x] == mem[x] by {
            assert forall|k: int| 0 <= k < n implies !((#[trigger] leaves[k]).at <= x < leaves[k].at
                + 8) by {
                assert(leaves[k].at != w);
            }
            released_elsewhere(mem, extra, leaves, n, x);
        }
        same_word(now, mem, w);
    }
}

/// The entries that map the pages of an address space are whole words.
proof fn leaves_are_words(mem: Seq<u8>, pml4: u64, base: u64)
    requires
        mem.len() <= u64::MAX,
    ensures
        forall|k: int|
            0 <= k < private_leaves(mem, pml4, base, 512).len() ==> (#[trigger] private_leaves(
                mem,
                pml4,
                base,
                512,
            )[k]).at % 8 == 0,
{
    let leaves = private_leaves(mem, pml4, base, 512);
    assert forall|k: int| 0 <= k < leaves.len() implies (#[trigger] leaves[k]).at % 8 == 0 by {
        let (tab, i) = leaf_of_the_space(mem, pml4, base, 512, k);
    }
}

/// Releasing the pages of an address space takes entries out of its tables
/// of the first level, and leaves all others as they are.
proof fn release_trims(
    mem: Seq<u8>,
    a: FrameModel,
    extra: Seq<u32>,
    pml4: u64,
    base: u64,
    t: u64,
    level: nat,
)
    requires
        mem.len() <= u64::MAX,
        in_order(mem, a, pml4, base),
        frame_ok(mem.len(), t),
        is_table(mem, pml4, base, level, t) || t == base && level == 4,
        forall|k: int|
            0 <= k < private_leaves(mem, pml4, base, 512).len() ==> mapping_of(
                (#[trigger] private_leaves(mem, pml4, base, 512)[k]).entry,
            ).frame_nr() < extra.len(),
    ensures
        trimmed(mem, without_shared(mem, extra, pml4, base).0, t, level),
{
    let leaves = private_leaves(mem, pml4, base, 512);
    let now = without_shared(mem, extra, pml4, base).0;
    assert forall|i: int| 0 <= i < 512 implies (#[trigger] entry(now, t, i) == entry(mem, t, i)
        || level == 1 && entry(now, t, i) == 0) by {
        let w = t + 8 * i;
        leaves_are_words(mem, pml4, base);
        released_word(mem, extra, leaves, w);
        if le64(now, w) != le64(mem, w) {
            let k = choose|k: int| 0 <= k < leaves.len() && (#[trigger] leaves[k]).at == w;
            leaf_in_table(mem, a, pml4, base, t, level, k);
        }
    }
}

/// The table that an entry for a page is in is one of the first level.
proof fn leaf_in_table(
    mem: Seq<u8>,
    a: FrameModel,
    pml4: u64,
    base: u64,
    t: u64,
    level: nat,
    k: int,
)
    requires
        mem.len() <= u64::MAX,
        in_order(mem, a, pml4, base),
        frame_ok(mem.len(), t),
        is_table(mem, pml4, base, level, t) || t == base && level == 4,
        0 <= k < private_leaves(mem, pml4, base, 512).len(),
        t <= private_leaves(mem, pml4, base, 512)[k].at < t + 4096,
    ensures
        level == 1,
{
    let (tab, j) = leaf_of_the_space(mem, pml4, base, 512, k);
    assert(is_table(mem, pml4, base, 1, tab));
    if tab != t {
        frames_apart(tab, t);
    }
    assert(uses(mem, pml4, base, tab));
}

/// What an address space sees stays the same when another one is taken down,
/// even if they share pages.
pub proof fn teardown_leaves_others_alone(
    mem: Seq<u8>,
    a: FrameModel,
    extra: Seq<u32>,
    gone: u64,
    other: u64,
    base: u64,
    rest: Multiset<int>,
    addr: u64,
)
    requires
        mem.len() <= u64::MAX,
        in_order(mem, a, gone, base),
        in_order(mem, a, other, base),
        unrelated(mem, gone, other, base),
        counted(mem, extra, gone, other, base, rest),
        own_slot(mem, base, addr),
    ensures
        ({
            let m = without_shared(mem, extra, gone, base).0;
            let now = give_back(m, a, private_frames(m, gone, base)).0;
            sees(now, other, addr) == sees(mem, other, addr)
        }),
{
    let leaves = private_leaves(mem, gone, base, 512);
    let n = leaves.len() as int;
    let m = without_shared(mem, extra, gone, base).0;
    let s = private_frames(m, gone, base);
    let now = give_back(m, a, s).0;
    assert forall|k: int| 0 <= k < n implies mapping_of((#[trigger] leaves[k]).entry).frame_nr()
        < extra.len() by {
        shared_page_has_a_sharer(mem, extra, gone, other, base, rest, k);
    }
    released_len(mem, extra, leaves, n);
    assert(is_table(mem, gone, base, 4, gone));
    release_trims(mem, a, extra, gone, base, gone, 4);
    release_trims(mem, a, extra, gone, base, base, 4);
    assert forall|level: nat, f: u64| #[trigger] is_table(mem, gone, base, level, f) implies frame_ok(
        mem.len(),
        f,
    ) && trimmed(mem, m, f, level) by {
        release_trims(mem, a, extra, gone, base, f, level);
    }
    // What is given back is nothing that the other one uses.
    assert forall|j: int| 0 <= j < s.len() implies frame_ok(mem.len(), #[trigger] s[j]) && !uses(
        mem,
        other,
        base,
        s[j],
    ) by {
        let x = s[j];
        let below = private_below(m, gone, base, 512);
        if j < below.len() {
            assert(below[j] == x);
            freed_of_the_space(mem, m, gone, base, 512, x);
            if exists|level: nat| #[trigger] is_table(mem, gone, base, level, x) {
                let level = choose|level: nat| #[trigger] is_table(mem, gone, base, level, x);
                assert(is_table(mem, gone, base, level, x));
            } else {
                let k = choose|k: int| 0 <= k < leaves.len() && kept(m, #[trigger] leaves[k], x);
                let page = mapping_of(leaves[k].entry);
                assert(page.frame == x);
                assert(is_page(mem, gone, base, x));
                let (tab, i) = leaf_of_the_space(mem, gone, base, 512, k);
                assert(leaves[k].entry != 0) by {
                    assert(0u64 & 1u64 == 0) by (bit_vector);
                }
                shared_pages_outlive_the_space(mem, extra, leaves, n, k);
                shared_page_has_a_sharer(mem, extra, gone, other, base, rest, k);
                if uses(mem, other, base, x) {
                    if exists|level: nat| #[trigger] is_table(mem, other, base, level, x) {
                        let level = choose|level: nat| #[trigger] is_table(
                            mem,
                            other,
                            base,
                            level,
                            x,
                        );
                        assert(!uses(mem, gone, base, x));
                    }
                }
            }
        } else {
            assert(x == gone);
        }
    }
    assert forall|f: u64| #[trigger] uses(mem, other, base, f) implies agree_on(mem, now, f) by {
        used_frame(mem, a, other, base, f);
        assert(!s.contains(f)) by {
            if s.contains(f) {
                let j = choose|j: int| 0 <= j < s.len() && s[j] == f;
                assert(!uses(mem, other, base, s[j]));
            }
        }
        untouched(m, a, s, f);
        assert forall|x: int| f <= x < f + 4096 implies #[trigger] mem[x] == now[x] by {
            assert forall|k: int| 0 <= k < n implies !((#[trigger] leaves[k]).at <= x < leaves[k].at
                + 8) by {
                let (tab, i) = leaf_of_the_space(mem, gone, base, 512, k);
                assert(is_table(mem, gone, base, 1, tab));
                assert(!uses(mem, other, base, tab));
                frames_apart(tab, f);
            }
            released_elsewhere(mem, extra, leaves, n, x);
            assert(m[x] == now[x]);
        }
    }
    give_back_effect(m, a, s);
    view_stays(mem, now, a, other, base, addr);
}

proof fn released_len(mem: Seq<u8>, extra: Seq<u32>, leaves: Seq<Mapped>, n: int)
    ensures
        released(mem, extra, leaves, n).0.len() == mem.len(),
    decreases n,
{
    if n > 0 {
        released_len(mem, extra, leaves, n - 1);
    }
}

/// What an address space in order uses are frames in use.
proof fn used_frame(mem: Seq<u8>, a: FrameModel, pml4: u64, base: u64, f: u64)
    requires
        in_order(mem, a, pml4, base),
        uses(mem, pml4, base, f),
    ensures
        frame_ok(mem.len(), f),
        taken(a, f),
{
    if exists|level: nat| #[trigger] is_table(mem, pml4, base, level, f) {
        let level = choose|level: nat| #[trigger] is_table(mem, pml4, base, level, f);
        assert(is_table(mem, pml4, base, level, f));
    }
}

// Writing to an address space.

/// Address of page number `k`.
spec fn page_address(k: int) -> u64 {
    (k * 4096) as u64
}

/// The tables on the way to the `i`-th page from page number `first` on.
spec fn path_to(mem: Seq<u8>, pml4: u64, first: int, i: int) -> Seq<u64> {
    tables(mem, pml4, 4, page_address(first + i))
}

/// The entry that maps the `i`-th page from page number `first` on.
spec fn page_entry(mem: Seq<u8>, pml4: u64, first: int, i: int) -> Option<Mapped> {
    mapped(mem, pml4, page_address(first + i))
}

/// Whether a page is one of 4 KiB, and shared and not to be written to if it
/// is in a frame of `g`.
spec fn shielded_page(
    len: nat,
    extra: Seq<u32>,
    e: Option<Mapped>,
    g: spec_fn(u64) -> bool,
) -> bool {
    e matches Some(m) ==> {
        let p = mapping_of(m.entry);
        &&& m.level == 1
        &&& frame_ok(len, p.frame)
        &&& g(p.frame) ==> m.entry & WRITABLE == 0 && p.frame_nr() < extra.len()
            && extra[p.frame_nr()] > 0
    }
}

/// Whether a page is one of 4 KiB in a frame that is not in `g`.
spec fn outside(e: Option<Mapped>, g: spec_fn(u64) -> bool) -> bool {
    e matches Some(m) ==> m.level == 1 && !g(mapping_of(m.entry).frame)
}

/// Whether the counts agree on a page.
spec fn same_count(extra: Seq<u32>, left: Seq<u32>, e: Option<Mapped>) -> bool {
    e matches Some(m) ==> {
        let f = mapping_of(m.entry).frame_nr();
        f < extra.len() ==> left[f] == extra[f]
    }
}

/// Whether the frames of `g` are shielded from what is written to the `n`
/// pages of the address space `pml4` from page number `first` on: they are
/// in use, none of them is a table there, and a page in one of them is
/// shared and cannot be written to. The tables on the way are in use, have
/// one level each, and the pages are different frames.
spec fn shielded(
    mem: Seq<u8>,
    a: FrameModel,
    extra: Seq<u32>,
    pml4: u64,
    first: int,
    n: int,
    g: spec_fn(u64) -> bool,
) -> bool {
    &&& forall|f: u64| #[trigger] g(f) ==> frame_ok(mem.len(), f) && taken(a, f)
    &&& forall|i: int, l: int|
        0 <= i < n && 0 <= l < path_to(mem, pml4, first, i).len() ==> {
            let t = #[trigger] path_to(mem, pml4, first, i)[l];
            frame_ok(mem.len(), t) && taken(a, t) && !g(t)
        }
    &&& forall|i: int, l: int, j: int|
        0 <= i < n && 0 <= l < path_to(mem, pml4, first, i).len() && 0 <= j < n && path_to(
            mem,
            pml4,
            first,
            j,
        ).len() == 4 && #[trigger] path_to(mem, pml4, first, i)[l] == #[trigger] path_to(
            mem,
            pml4,
            first,
            j,
        )[3] ==> l == 3
    &&& forall|i: int|
        0 <= i < n ==> shielded_page(
            mem.len(),
            extra,
            #[trigger] page_entry(mem, pml4, first, i),
            g,
        )
    &&& forall|i: int, j: int|
        0 <= i < n && 0 <= j < n && i != j && #[trigger] page_entry(mem, pml4, first, i) is Some
            && #[trigger] page_entry(mem, pml4, first, j) is Some ==> mapping_of(
            (page_entry(mem, pml4, first, i)->0).entry,
        ).frame != mapping_of((page_entry(mem, pml4, first, j)->0).entry).frame
}

/// What holds once `c` of the pages have been made the address space's own:
/// the frames of `g` are as they were, so are the tables on the way and the
/// entries of the other pages, and none of the `c` pages is in `g`.
spec fn shield_holds(
    mem: Seq<u8>,
    a: FrameModel,
    extra: Seq<u32>,
    pml4: u64,
    first: int,
    n: int,
    g: spec_fn(u64) -> bool,
    now: (Seq<u8>, FrameModel, Seq<u32>),
    c: int,
) -> bool {
    &&& now.0.len() == mem.len()
    &&& now.2.len() == extra.len()
    &&& allocator_ok(now.1, mem.len())
    &&& forall|f: u64| taken(a, f) ==> #[trigger] taken(now.1, f)
    &&& forall|f: u64| #[trigger] g(f) ==> agree_on(mem, now.0, f)
    &&& forall|i: int, l: int|
        0 <= i < n && 0 <= l < path_to(mem, pml4, first, i).len() && l < 3 ==> agree_on(
            mem,
            now.0,
            #[trigger] path_to(mem, pml4, first, i)[l],
        )
    &&& forall|i: int|
        c <= i < n ==> #[trigger] page_entry(now.0, pml4, first, i) == page_entry(
            mem,
            pml4,
            first,
            i,
        )
    &&& forall|i: int|
        0 <= i < c ==> outside(#[trigger] page_entry(now.0, pml4, first, i), g)
    &&& forall|i: int|
        c <= i < n ==> same_count(extra, now.2, #[trigger] page_entry(mem, pml4, first, i))
}

/// The paths stay the same while the tables above the first level do.
proof fn paths_stay(mem: Seq<u8>, now: Seq<u8>, table: u64, level: int, addr: u64)
    requires
        level >= 1,
        forall|l: int|
            0 <= l < tables(mem, table, level, addr).len() && l < level - 1 ==> agree_on(
                mem,
                now,
                #[trigger] tables(mem, table, level, addr)[l],
            ),
    ensures
        tables(now, table, level, addr) == tables(mem, table, level, addr),
    decreases level,
{
    let path = tables(mem, table, level, addr);
    let i = table_index(addr, level);
    let e = entry(mem, table, i);
    path_lengths(mem, table, level, addr);
    if level > 1 {
        assert(path[0] == table);
        assert(agree_on(mem, now, path[0]));
        same_table_entry(mem, now, table, i);
        if e & PRESENT != 0 && e & HUGE_PAGE == 0 {
            let rest = tables(mem, e & ADDRESS_MASK, level - 1, addr);
            assert(path == seq![table] + rest);
            assert forall|l: int| 0 <= l < rest.len() && l < level - 1 - 1 implies agree_on(
                mem,
                now,
                #[trigger] rest[l],
            ) by {
                assert(path[l + 1] == rest[l]);
            }
            paths_stay(mem, now, e & ADDRESS_MASK, level - 1, addr);
        }
    }
}

/// An allocator hands out frames of memory.
proof fn head_is_a_frame(a: FrameModel, len: nat)
    requires
        allocator_ok(a, len),
        len <= u64::MAX,
    ensures
        a.head() matches Some(f) ==> frame_ok(len, f),
        a.head() is Some ==> allocator_ok(a.allocated(), len),
{
    if a.free.len() > 0 {
        assert(frame_ok(len, a.free[0]));
        assert forall|k: int| 0 <= k < a.allocated().free.len() implies frame_ok(
            len,
            #[trigger] a.allocated().free[k],
        ) by {
            assert(a.free[k + 1] == a.allocated().free[k]);
        }
    } else if nth_frame(a.regions, a.next) is Some {
        nth_is_a_frame(a.regions, a.next, len);
    }
}

proof fn nth_is_a_frame(regions: Seq<Region>, k: int, len: nat)
    requires
        regions_ok(regions, len),
        0 <= k,
        nth_frame(regions, k) is Some,
        len <= u64::MAX,
    ensures
        frame_ok(len, nth_frame(regions, k)->0),
    decreases regions.len(),
{
    let r = regions[0];
    if k < frames_in(r) {
        assert(0 < r.start_frame && r.end_frame * PAGE_SIZE <= len);
        assert((r.start_frame + k) * PAGE_SIZE + PAGE_SIZE <= r.end_frame * PAGE_SIZE) by (nonlinear_arith)
            requires
                r.start_frame + k < r.end_frame,
                PAGE_SIZE == 4096,
        ;
        assert(0 < (r.start_frame + k) * PAGE_SIZE);
    } else {
        let rest = regions.skip(1);
        assert forall|i: int|
            0 <= i < rest.len() && frames_in(#[trigger] rest[i]) > 0 implies 0 < rest[i].start_frame
            && rest[i].end_frame * PAGE_SIZE <= len by {
            assert(rest[i] == regions[i + 1]);
        }
        nth_is_a_frame(rest, k - frames_in(r), len);
    }
}

/// A frame in use is not the next one handed out, and stays in use.
proof fn taken_stays(a: FrameModel, f: u64)
    requires
        taken(a, f),
    ensures
        a.head() != Some(f),
        taken(a.allocated(), f),
{
    if a.free.len() > 0 {
        assert(a.free.contains(a.free[0]));
        if a.allocated().free.contains(f) {
            let k = choose|k: int| 0 <= k < a.allocated().free.len() && a.allocated().free[k] == f;
            assert(a.free[k + 1] == f);
        }
    } else {
        assert(nth_frame(a.regions, a.next) != Some(f));
    }
}

/// An entry with its flags says which frame it maps.
proof fn moved_round_trip(frame: u64, e: u64)
    requires
        frame % 4096 == 0,
        frame < 0x10_0000_0000_0000,
        frame != 0,
    ensures
        ({
            let now = (Mapping { frame, ..mapping_of(e) }).entry();
            mapping_of(now).frame == frame && now != 0
        }),
{
    assert(({
        let m = 0x000f_ffff_ffff_f000u64;
        let now = frame | (e & !m);
        now & m == frame && now != 0
    })) by (bit_vector)
        requires
            frame % 4096 == 0,
            frame < 0x10_0000_0000_0000,
            frame != 0,
    ;
}

/// Whether `t` is memory `s` after a frame of its own was written, if there
/// is one, and then the entry at `at`.
spec fn rewritten(s: Seq<u8>, t: Seq<u8>, fresh: Option<u64>, at: int, e: u64) -> bool {
    &&& t.len() == s.len()
    &&& at + 8 <= t.len() ==> le64(t, at) == e
    &&& forall|x: int|
        0 <= x < s.len() && !(at <= x < at + 8) && (fresh matches Some(f) ==> !(f <= x < f + 4096))
            ==> #[trigger] t[x] == s[x]
}

/// What making a page its own does: nothing if it may be written to as it
/// is, else its entry is rewritten, for its own frame if it is the only one
/// that maps it, or for a fresh one that holds a copy.
proof fn owned_rewrites(
    s: (Seq<u8>, FrameModel, Seq<u32>),
    m: Mapped,
) -> (r: (Option<u64>, u64))
    requires
        owned(s.0, s.1, s.2, m) is Some,
        s.0.len() <= 0x10_0000_0000_0000,
        allocator_ok(s.1, s.0.len()),
        m.level == 1,
        m.at + 8 <= s.0.len(),
        0 <= m.at,
    ensures
        ({
            let t = owned(s.0, s.1, s.2, m)->0;
            let page = mapping_of(m.entry);
            ||| t == s && (m.entry & WRITABLE != 0 || page.frame_nr() >= s.2.len()
                || s.2[page.frame_nr()] == 0)
            ||| {
                &&& r.0 == s.1.head()
                &&& r.0 matches Some(f) && mapping_of(r.1).frame == f
                &&& r.1 != 0
                &&& rewritten(s.0, t.0, r.0, m.at as int, r.1)
                &&& t.1 == s.1.allocated()
                &&& t.2 == dropped(s.2, page.frame_nr())
                &&& page.frame_nr() < s.2.len()
            }
            ||| {
                &&& r.0 is None
                &&& mapping_of(r.1).frame == page.frame
                &&& page.frame_nr() < s.2.len()
                &&& s.2[page.frame_nr()] == 0
                &&& r.1 != 0
                &&& rewritten(s.0, t.0, None, m.at as int, r.1)
                &&& t.1 == s.1
                &&& t.2 == s.2
            }
        }),
{
    let t = owned(s.0, s.1, s.2, m)->0;
    let page = mapping_of(m.entry);
    let nr = page.frame_nr();
    if is_own(s.2, m) {
        (None, 0)
    } else {
        head_is_a_frame(s.1, s.0.len());
        let at = m.at as int;
        if m.entry & COW != 0 && s.2[nr] == 0 {
            let e = page.private(page.frame).entry();
            masked_is_aligned(m.entry);
            entry_round_trip(page.frame, m.entry);
            assert(e != 0) by {
                assert(0u64 & 2u64 == 0) by (bit_vector);
            }
            stored_word(s.0, at, e);
            assert(t.0 == overwrite(s.0, at, word_bytes(e)));
            assert(word_bytes(e).len() == 8);
            (None, e)
        } else {
            let f = s.1.head()->0;
            let e = if m.entry & COW != 0 {
                page.private(f).entry()
            } else {
                (Mapping { frame: f, ..page }).entry()
            };
            entry_round_trip(f, m.entry);
            moved_round_trip(f, m.entry);
            assert(e != 0) by {
                assert(0u64 & 2u64 == 0) by (bit_vector);
            }
            let copied = frame_copied(s.0, page.frame, f);
            stored_word(copied, at, e);
            assert(t.0 == overwrite(copied, at, word_bytes(e)));
            assert(word_bytes(e).len() == 8);
            (Some(f), e)
        }
    }
}

/// The way to a page of 4 KiB goes through a table of every level.
proof fn path_is_full(mem: Seq<u8>, table: u64, level: int, addr: u64)
    requires
        level >= 1,
        walk(mem, table, level, addr) matches Some(m) && m.level == 1,
        level <= 4,
    ensures
        tables(mem, table, level, addr).len() == level,
    decreases level,
{
    let e = entry(mem, table, table_index(addr, level));
    if level > 1 {
        path_is_full(mem, e & ADDRESS_MASK, level - 1, addr);
    }
}

/// What is at the end of a way through a table of every level.
proof fn full_path_ends(mem: Seq<u8>, table: u64, level: int, addr: u64)
    requires
        1 <= level <= 4,
        tables(mem, table, level, addr).len() == level,
        forall|l: int|
            0 <= l < level ==> frame_ok(mem.len(), #[trigger] tables(mem, table, level, addr)[l]),
        entry(mem, tables(mem, table, level, addr)[level - 1], table_index(addr, 1)) != 0,
    ensures
        walk(mem, table, level, addr) matches Some(m) && m.entry == entry(
            mem,
            tables(mem, table, level, addr)[level - 1],
            table_index(addr, 1),
        ),
    decreases level,
{
    let path = tables(mem, table, level, addr);
    let e = entry(mem, table, table_index(addr, level));
    path_lengths(mem, table, level, addr);
    assert(path[0] == table);
    assert(frame_ok(mem.len(), path[0]));
    if level > 1 {
        let rest = tables(mem, e & ADDRESS_MASK, level - 1, addr);
        assert(path == seq![table] + rest);
        assert forall|l: int| 0 <= l < level - 1 implies frame_ok(mem.len(), #[trigger] rest[l]) by {
            assert(path[l + 1] == rest[l]);
        }
        assert(path[level - 1] == rest[level - 2]);
        full_path_ends(mem, e & ADDRESS_MASK, level - 1, addr);
        assert(e != 0) by {
            assert(0u64 & 1u64 == 0) by (bit_vector);
        }
    }
}

/// Where the entry of a page is: in the last table on the way.
proof fn entry_place(mem: Seq<u8>, pml4: u64, first: int, i: int)
    requires
        page_entry(mem, pml4, first, i) matches Some(m) && m.level == 1,
        mem.len() <= u64::MAX,
    ensures
        ({
            let m = page_entry(mem, pml4, first, i)->0;
            let path = path_to(mem, pml4, first, i);
            let j = table_index(page_address(first + i), 1);
            &&& path.len() == 4
            &&& 0 <= j < 512
            &&& m.at == path[3] + 8 * j
            &&& m.entry == entry(mem, path[3], j)
            &&& m.entry != 0
            &&& frame_ok(mem.len(), path[3])
        }),
{
    let addr = page_address(first + i);
    reveal(mapped);
    path_is_full(mem, pml4, 4, addr);
    entry_is_in_last_table(mem, pml4, addr);
    let path = tables(mem, pml4, 4, addr);
    assert(path[3] == path.last());
    walked_entry(mem, pml4, 4, addr);
}

proof fn walked_entry(mem: Seq<u8>, table: u64, level: int, addr: u64)
    requires
        1 <= level <= 4,
        walk(mem, table, level, addr) matches Some(m) && m.level == 1,
    ensures
        ({
            let m = walk(mem, table, level, addr)->0;
            let path = tables(mem, table, level, addr);
            m.entry == entry(mem, path.last(), table_index(addr, 1)) && m.entry != 0
        }),
    decreases level,
{
    let e = entry(mem, table, table_index(addr, level));
    if level > 1 {
        walked_entry(mem, e & ADDRESS_MASK, level - 1, addr);
        path_lengths(mem, e & ADDRESS_MASK, level - 1, addr);
        let rest = tables(mem, e & ADDRESS_MASK, level - 1, addr);
        assert((seq![table] + rest).last() == rest.last());
    }
}

/// A frame that is neither the fresh one nor the table with the entry stays
/// the same.
proof fn rewritten_elsewhere(
    s: Seq<u8>,
    t: Seq<u8>,
    fresh: Option<u64>,
    table: u64,
    at: int,
    e: u64,
    f: u64,
)
    requires
        rewritten(s, t, fresh, at, e),
        frame_ok(s.len(), table),
        table <= at,
        at + 8 <= table + 4096,
        frame_ok(s.len(), f),
        f != table,
        fresh matches Some(h) ==> h % 4096 == 0 && h != f,
    ensures
        agree_on(s, t, f),
{
    frames_apart(f, table);
    if fresh is Some {
        frames_apart(f, fresh->0);
    }
    assert forall|x: int| f <= x < f + 4096 implies #[trigger] s[x] == t[x] by {
    }
}

/// Different words have no byte in common.
proof fn words_apart(v: int, w: int)
    requires
        v % 8 == 0,
        w % 8 == 0,
        v != w,
    ensures
        v + 8 <= w || w + 8 <= v,
{
}

/// Other entries of a table stay the same.
proof fn rewritten_word(
    s: Seq<u8>,
    t: Seq<u8>,
    fresh: Option<u64>,
    at: int,
    e: u64,
    f: u64,
    j: int,
)
    requires
        rewritten(s, t, fresh, at, e),
        at % 8 == 0,
        frame_ok(s.len(), f),
        0 <= j < 512,
        f + 8 * j != at,
        fresh matches Some(h) ==> h % 4096 == 0 && h != f,
    ensures
        entry(t, f, j) == entry(s, f, j),
{
    let w = f + 8 * j;
    words_apart(at, w);
    if fresh is Some {
        frames_apart(f, fresh->0);
    }
    assert(w + 8 <= f + 4096);
    assert forall|x: int| w <= x < w + 8 implies #[trigger] t[x] == s[x] by {
    }
    same_word(t, s, w);
}

/// The entry of one page is not that of another.
proof fn entries_differ(
    mem: Seq<u8>,
    a: FrameModel,
    extra: Seq<u32>,
    pml4: u64,
    first: int,
    n: int,
    g: spec_fn(u64) -> bool,
    i: int,
    k: int,
)
    requires
        mem.len() <= u64::MAX,
        shielded(mem, a, extra, pml4, first, n, g),
        0 <= i < n,
        0 <= k < n,
        i != k,
        canonical(page_address(first + i)),
        path_to(mem, pml4, first, i).len() == 4,
        page_entry(mem, pml4, first, k) is Some,
    ensures
        path_to(mem, pml4, first, i)[3] + 8 * table_index(page_address(first + i), 1) != (page_entry(
            mem,
            pml4,
            first,
            k,
        )->0).at,
{
    let path = path_to(mem, pml4, first, i);
    let j = table_index(page_address(first + i), 1);
    let m = page_entry(mem, pml4, first, k)->0;
    assert(shielded_page(mem.len(), extra, page_entry(mem, pml4, first, k), g));
    entry_place(mem, pml4, first, k);
    if path[3] + 8 * j == m.at {
        let other = path_to(mem, pml4, first, k);
        assert(frame_ok(mem.len(), path[3]));
        if path[3] != other[3] {
            frames_apart(path[3], other[3]);
        }
        assert forall|l: int| 0 <= l < 4 implies frame_ok(
            mem.len(),
            #[trigger] tables(mem, pml4, 4, page_address(first + i))[l],
        ) by {
            assert(frame_ok(mem.len(), path[l]));
        }
        full_path_ends(mem, pml4, 4, page_address(first + i));
        reveal(mapped);
        assert(page_entry(mem, pml4, first, i) is Some);
    }
}

/// Making one page its own leaves the entries of all others alone.
proof fn other_pages_stay(
    mem: Seq<u8>,
    a: FrameModel,
    extra: Seq<u32>,
    pml4: u64,
    first: int,
    n: int,
    g: spec_fn(u64) -> bool,
    s: (Seq<u8>, FrameModel, Seq<u32>),
    t: Seq<u8>,
    c: int,
    k: int,
    fresh: Option<u64>,
    e: u64,
    i: int,
)
    requires
        mem.len() <= u64::MAX,
        shielded(mem, a, extra, pml4, first, n, g),
        shield_holds(mem, a, extra, pml4, first, n, g, s, c),
        0 <= i < n,
        0 <= k < n,
        i != k,
        page_entry(mem, pml4, first, k) is Some,
        rewritten(s.0, t, fresh, (page_entry(mem, pml4, first, k)->0).at as int, e),
        fresh matches Some(h) ==> s.1.head() == Some(h) && h % 4096 == 0,
    ensures
        page_entry(t, pml4, first, i) == page_entry(s.0, pml4, first, i),
{
    let addr = page_address(first + i);
    let path = path_to(mem, pml4, first, i);
    let m = page_entry(mem, pml4, first, k)->0;
    let last = path_to(mem, pml4, first, k)[3];
    assert(shielded_page(mem.len(), extra, page_entry(mem, pml4, first, k), g));
    entry_place(mem, pml4, first, k);
    path_lengths(mem, pml4, 4, addr);
    reveal(mapped);
    if canonical(addr) {
        assert forall|l: int|
            0 <= l < tables(mem, pml4, 4, addr).len() && l < 4 - 1 implies agree_on(
            mem,
            s.0,
            #[trigger] tables(mem, pml4, 4, addr)[l],
        ) by {
            assert(agree_on(mem, s.0, path[l]));
        }
        paths_stay(mem, s.0, pml4, 4, addr);
        assert forall|l: int| 0 <= l < path.len() && l < 3 implies agree_on(s.0, t, #[trigger] path[l]) by {
            assert(path[l] != last);
            assert(taken(a, path[l]));
            assert(taken(s.1, path[l]));
            taken_stays(s.1, path[l]);
            rewritten_elsewhere(s.0, t, fresh, last, m.at as int, e, path[l]);
        }
        let p = path.len() - 1;
        let j = table_index(addr, 4 - p);
        assert(0 <= j < 512);
        if p < 3 {
            assert(agree_on(s.0, t, path[p]));
            same_table_entry(s.0, t, path[p], j);
        } else {
            entries_differ(mem, a, extra, pml4, first, n, g, i, k);
            assert(taken(a, path[3]));
            assert(taken(s.1, path[3]));
            taken_stays(s.1, path[3]);
            rewritten_word(s.0, t, fresh, m.at as int, e, path[3], j);
        }
        assert(path.last() == path[p]);
        walk_stays(s.0, t, pml4, 4, addr);
    }
}

/// One more page is made the address space's own.
#[verifier::spinoff_prover]
proof fn shield_step(
    mem: Seq<u8>,
    a: FrameModel,
    extra: Seq<u32>,
    pml4: u64,
    first: int,
    n: int,
    g: spec_fn(u64) -> bool,
    s: (Seq<u8>, FrameModel, Seq<u32>),
    k: int,
)
    requires
        mem.len() <= 0x10_0000_0000_0000,
        shielded(mem, a, extra, pml4, first, n, g),
        shield_holds(mem, a, extra, pml4, first, n, g, s, k),
        0 <= k < n,
        page_entry(s.0, pml4, first, k) matches Some(m) && owned(s.0, s.1, s.2, m) is Some,
    ensures
        shield_holds(
            mem,
            a,
            extra,
            pml4,
            first,
            n,
            g,
            owned(s.0, s.1, s.2, page_entry(s.0, pml4, first, k)->0)->0,
            k + 1,
        ),
{
    let m = page_entry(s.0, pml4, first, k)->0;
    let t = owned(s.0, s.1, s.2, m)->0;
    let page = mapping_of(m.entry);
    let nr = page.frame_nr();
    assert(page_entry(mem, pml4, first, k) == Some(m));
    assert(shielded_page(mem.len(), extra, page_entry(mem, pml4, first, k), g));
    assert(same_count(extra, s.2, page_entry(mem, pml4, first, k)));
    entry_place(mem, pml4, first, k);
    let (fresh, e) = owned_rewrites(s, m);
    let last = path_to(mem, pml4, first, k)[3];
    if t == s {
        assert(!g(page.frame));
        assert(outside(page_entry(t.0, pml4, first, k), g));
    } else {
        head_is_a_frame(s.1, mem.len());
        assert(frame_ok(mem.len(), last) && taken(a, last) && !g(last));
        assert forall|i: int| 0 <= i < n && i != k implies #[trigger] page_entry(
            t.0,
            pml4,
            first,
            i,
        ) == page_entry(s.0, pml4, first, i) by {
            other_pages_stay(mem, a, extra, pml4, first, n, g, s, t.0, k, k, fresh, e, i);
        }
        assert forall|f: u64| #[trigger] g(f) implies agree_on(mem, t.0, f) by {
            assert(taken(s.1, f));
            taken_stays(s.1, f);
            rewritten_elsewhere(s.0, t.0, fresh, last, m.at as int, e, f);
            both_agree(mem, s.0, t.0, f);
        }
        assert forall|i: int, l: int|
            0 <= i < n && 0 <= l < path_to(mem, pml4, first, i).len() && l < 3 implies agree_on(
            mem,
            t.0,
            #[trigger] path_to(mem, pml4, first, i)[l],
        ) by {
            let f = path_to(mem, pml4, first, i)[l];
            assert(f != last);
            assert(taken(a, f) && frame_ok(mem.len(), f));
            assert(taken(s.1, f));
            taken_stays(s.1, f);
            rewritten_elsewhere(s.0, t.0, fresh, last, m.at as int, e, f);
            both_agree(mem, s.0, t.0, f);
        }
        assert forall|f: u64| taken(a, f) implies #[trigger] taken(t.1, f) by {
            assert(taken(s.1, f));
            taken_stays(s.1, f);
        }
        changed_page(mem, pml4, first, n, s.0, t.0, k, fresh, e);
        assert(outside(page_entry(t.0, pml4, first, k), g)) by {
            if fresh is Some {
                let f = fresh->0;
                if g(f) {
                    assert(taken(s.1, f));
                    taken_stays(s.1, f);
                }
            }
        }
        assert forall|i: int| k + 1 <= i < n implies same_count(
            extra,
            t.2,
            #[trigger] page_entry(mem, pml4, first, i),
        ) by {
            assert(same_count(extra, s.2, page_entry(mem, pml4, first, i)));
            if page_entry(mem, pml4, first, i) is Some {
                let other = mapping_of((page_entry(mem, pml4, first, i)->0).entry);
                assert(shielded_page(mem.len(), extra, page_entry(mem, pml4, first, i), g));
                assert(other.frame != page.frame);
                frames_apart(other.frame, page.frame);
                assert(other.frame_nr() != nr);
            }
        }
    }
}

proof fn both_agree(mem: Seq<u8>, s: Seq<u8>, t: Seq<u8>, f: u64)
    requires
        agree_on(mem, s, f),
        agree_on(s, t, f),
    ensures
        agree_on(mem, t, f),
{
    assert forall|x: int| f <= x < f + 4096 implies #[trigger] mem[x] == t[x] by {
        assert(s[x] == t[x]);
    }
}

/// What maps a page whose entry was rewritten.
proof fn changed_page(
    mem: Seq<u8>,
    pml4: u64,
    first: int,
    n: int,
    s: Seq<u8>,
    t: Seq<u8>,
    k: int,
    fresh: Option<u64>,
    e: u64,
)
    requires
        mem.len() <= 0x10_0000_0000_0000,
        0 <= k < n,
        s.len() == mem.len(),
        page_entry(mem, pml4, first, k) matches Some(m) && m.level == 1,
        page_entry(s, pml4, first, k) == page_entry(mem, pml4, first, k),
        rewritten(s, t, fresh, (page_entry(mem, pml4, first, k)->0).at as int, e),
        e != 0,
        forall|i: int, l: int|
            0 <= i < n && 0 <= l < path_to(mem, pml4, first, i).len() && l < 3 ==> agree_on(
                mem,
                s,
                #[trigger] path_to(mem, pml4, first, i)[l],
            ) && agree_on(mem, t, path_to(mem, pml4, first, i)[l]),
    ensures
        page_entry(t, pml4, first, k) matches Some(m) && m.level == 1 && m.entry == e,
{
    let addr = page_address(first + k);
    let m = page_entry(mem, pml4, first, k)->0;
    let path = path_to(mem, pml4, first, k);
    entry_place(mem, pml4, first, k);
    let j = table_index(addr, 1);
    assert(path.last() == path[3]);
    word_range(t, path[3] + 8 * j);
    assert(entry(t, path[3], j) == e);
    assert forall|l: int| 0 <= l < tables(mem, pml4, 4, addr).len() - 1 implies agree_on(
        mem,
        t,
        #[trigger] tables(mem, pml4, 4, addr)[l],
    ) by {
        assert(agree_on(mem, t, path[l]));
    }
    changed_entry_is_found(mem, t, pml4, addr, e);
}

/// Making pages an address space's own leaves shielded frames alone.
proof fn shield_lasts(
    mem: Seq<u8>,
    a: FrameModel,
    extra: Seq<u32>,
    pml4: u64,
    first: int,
    n: int,
    g: spec_fn(u64) -> bool,
    k: int,
)
    requires
        mem.len() <= 0x10_0000_0000_0000,
        shielded(mem, a, extra, pml4, first, n, g),
        allocator_ok(a, mem.len()),
        0 <= k <= n,
    ensures
        ({
            let (s, c) = owned_pages(mem, a, extra, pml4, first, k);
            0 <= c <= k && shield_holds(mem, a, extra, pml4, first, n, g, s, c)
        }),
    decreases k,
{
    if k > 0 {
        shield_lasts(mem, a, extra, pml4, first, n, g, k - 1);
        let (s, c) = owned_pages(mem, a, extra, pml4, first, k - 1);
        if c == k - 1 {
            match page_entry(s.0, pml4, first, c) {
                Some(m) => {
                    if owned(s.0, s.1, s.2, m) is Some {
                        shield_step(mem, a, extra, pml4, first, n, g, s, c);
                    }
                },
                None => {
                    assert(outside(page_entry(s.0, pml4, first, c), g));
                },
            }
        }
    } else {
        let s = (mem, a, extra);
        assert forall|i: int| 0 <= i < n implies same_count(
            extra,
            s.2,
            #[trigger] page_entry(mem, pml4, first, i),
        ) by {
        }
    }
}

/// The destination of a copy is shielded from another address space.
proof fn others_are_shielded(
    mem: Seq<u8>,
    a: FrameModel,
    extra: Seq<u32>,
    pml4: u64,
    other: u64,
    base: u64,
    rest: Multiset<int>,
    first: int,
    n: int,
)
    requires
        in_order(mem, a, pml4, base),
        in_order(mem, a, other, base),
        unrelated(mem, pml4, other, base),
        counted(mem, extra, pml4, other, base, rest),
        writable_is_own(mem, extra, pml4, base),
        0 <= first,
        first + n <= 0x10_0000_0000_0000,
        forall|i: int| 0 <= i < n ==> own_slot(mem, base, #[trigger] page_address(first + i)),
    ensures
        shielded(mem, a, extra, pml4, first, n, |f: u64| uses(mem, other, base, f)),
{
    let g = |f: u64| uses(mem, other, base, f);
    assert forall|f: u64| #[trigger] g(f) implies frame_ok(mem.len(), f) && taken(a, f) by {
        used_frame(mem, a, other, base, f);
    }
    space_is_walkable(mem, a, pml4, base, first, n);
    assert forall|i: int, l: int| 0 <= i < n && 0 <= l < path_to(mem, pml4, first, i).len() implies {
        let t = #[trigger] path_to(mem, pml4, first, i)[l];
        frame_ok(mem.len(), t) && taken(a, t) && !g(t)
    } by {
        assert(is_step(mem, pml4, base, l, path_to(mem, pml4, first, i)[l]));
    }
    assert forall|i: int| 0 <= i < n implies shielded_page(
        mem.len(),
        extra,
        #[trigger] page_entry(mem, pml4, first, i),
        g,
    ) by {
        if page_entry(mem, pml4, first, i) is Some {
            page_is_shielded(mem, a, extra, pml4, other, base, rest, page_address(first + i));
        }
    }
}

/// A page that the other address space uses too is shared, and cannot be
/// written to.
proof fn page_is_shielded(
    mem: Seq<u8>,
    a: FrameModel,
    extra: Seq<u32>,
    pml4: u64,
    other: u64,
    base: u64,
    rest: Multiset<int>,
    x: u64,
)
    requires
        in_order(mem, a, pml4, base),
        unrelated(mem, pml4, other, base),
        counted(mem, extra, pml4, other, base, rest),
        writable_is_own(mem, extra, pml4, base),
        own_slot(mem, base, x),
        mapped(mem, pml4, x) is Some,
    ensures
        shielded_page(mem.len(), extra, mapped(mem, pml4, x), |f: u64| uses(mem, other, base, f)),
{
    let m = mapped(mem, pml4, x)->0;
    let p = mapping_of(m.entry);
    let k = page_of_the_space(mem, pml4, base, x);
    shared_page_has_a_sharer(mem, extra, pml4, other, base, rest, k);
    assert(is_page(mem, pml4, base, p.frame));
    if uses(mem, other, base, p.frame) {
        if exists|level: nat| #[trigger] is_table(mem, other, base, level, p.frame) {
            let level = choose|level: nat| #[trigger] is_table(mem, other, base, level, p.frame);
            assert(!uses(mem, pml4, base, p.frame));
        }
    }
}

/// The window a copy goes to has its pages in memory.
proof fn seen_covers(mem: Seq<u8>, pml4: u64, addr: u64, len: int)
    requires
        0 <= len,
        addr + len <= u64::MAX,
        mem.len() <= u64::MAX,
    ensures
        seen(mem, pml4, addr, len).covers(addr as int, len, mem.len()),
        len > 0 ==> seen(mem, pml4, addr, len).pages.len() == span(addr, len),
{
    let w = seen(mem, pml4, addr, len);
    assert forall|k: int| 0 <= k < w.pages.len() && (#[trigger] w.pages[k]) is Some implies (
    w.pages[k]->0) + PAGE_SIZE <= mem.len() by {
        let at = ((w.first_page + k) * 4096) as u64;
        assert(w.pages[k] == page_at(mem, pml4, at));
    }
}

/// The part of a window that the kernel writes to has none of the shielded
/// frames.
proof fn window_is_outside(
    mem: Seq<u8>,
    a: FrameModel,
    extra: Seq<u32>,
    pml4: u64,
    addr: u64,
    len: int,
    g: spec_fn(u64) -> bool,
    s: (Seq<u8>, FrameModel, Seq<u32>),
    c: int,
    f: u64,
)
    requires
        0 <= len,
        addr + len <= u64::MAX,
        mem.len() <= 0x10_0000_0000_0000,
        shield_holds(mem, a, extra, pml4, addr as int / 4096, span(addr, len), g, s, c),
        0 <= c <= span(addr, len),
        g(f),
    ensures
        ({
            let w = writable_part(seen(s.0, pml4, addr, len), c, s.1.free);
            &&& forall|j: int| 0 <= j < w.pages.len() ==> #[trigger] w.pages[j] != Some(f)
            &&& w.covers(addr as int, len, mem.len())
            &&& aligned(w)
        }),
{
    let all = seen(s.0, pml4, addr, len);
    let w = writable_part(all, c, s.1.free);
    let first = addr as int / 4096;
    seen_covers(s.0, pml4, addr, len);
    pages_are_aligned(s.0, pml4, addr, len);
    assert forall|j: int| 0 <= j < w.pages.len() && (#[trigger] w.pages[j]) is Some implies {
        &&& (w.pages[j]->0) % 4096 == 0
        &&& (w.pages[j]->0) + PAGE_SIZE <= mem.len()
        &&& w.pages[j] != Some(f)
    } by {
        assert(all.pages[j] == w.pages[j]);
        assert(j < c);
        let at = page_address(first + j);
        assert(all.pages[j] == page_at(s.0, pml4, at));
        assert(outside(page_entry(s.0, pml4, first, j), g));
        page_is_the_frame(page_entry(s.0, pml4, first, j)->0, at);
    }
}

/// What an address space sees stays the same when the kernel copies
/// something to another one, even if they share pages.
pub proof fn copy_leaves_others_alone(
    mem: Seq<u8>,
    a: FrameModel,
    extra: Seq<u32>,
    src: u64,
    src_addr: u64,
    dst: u64,
    dst_addr: u64,
    len: int,
    now: Seq<u8>,
    b: FrameModel,
    left: Seq<u32>,
    r: Result<(), CopyError>,
    other: u64,
    base: u64,
    rest: Multiset<int>,
    addr: u64,
)
    requires
        0 <= len,
        dst_addr + len <= u64::MAX,
        mem.len() <= 0x10_0000_0000_0000,
        allocator_ok(a, mem.len()),
        copies_between(mem, a, extra, src, src_addr, dst, dst_addr, len, now, b, left, r),
        in_order(mem, a, dst, base),
        in_order(mem, a, other, base),
        unrelated(mem, dst, other, base),
        counted(mem, extra, dst, other, base, rest),
        writable_is_own(mem, extra, dst, base),
        forall|k: int|
            dst_addr as int / 4096 <= k < dst_addr as int / 4096 + span(dst_addr, len) ==> own_slot(
                mem,
                base,
                #[trigger] ((k * 4096) as u64),
            ),
        own_slot(mem, base, addr),
    ensures
        sees(now, other, addr) == sees(mem, other, addr),
{
    let first = dst_addr as int / 4096;
    let n = span(dst_addr, len);
    let g = |f: u64| uses(mem, other, base, f);
    assert forall|i: int| 0 <= i < n implies own_slot(mem, base, #[trigger] page_address(first + i)) by {
        let k = first + i;
        assert(own_slot(mem, base, (k * 4096) as u64));
    }
    others_are_shielded(mem, a, extra, dst, other, base, rest, first, n);
    shield_lasts(mem, a, extra, dst, first, n, g, n);
    let (s, c) = owned_pages(mem, a, extra, dst, first, n);
    let from = seen(s.0, src, src_addr, len);
    let to = writable_part(seen(s.0, dst, dst_addr, len), c, s.1.free);
    let d = dst_addr as int;
    fault_comes_first(from, src_addr as int, to, d, 0, len);
    let done = match copy_fault(from, src_addr as int, to, d, 0, len) {
        Some((i, e)) => i,
        None => len,
    };
    assert forall|f: u64| #[trigger] uses(mem, other, base, f) implies agree_on(mem, now, f) by {
        assert(g(f));
        used_frame(mem, a, other, base, f);
        window_is_outside(mem, a, extra, dst, dst_addr, len, g, s, c, f);
        copied_elsewhere(s.0, from, src_addr as int, to, d, done, len, f);
        both_agree(mem, s.0, now, f);
    }
    assert(is_table(mem, other, base, 4, other));
    assert(g(other));
    window_is_outside(mem, a, extra, dst, dst_addr, len, g, s, c, other);
    copied_len(s.0, from, src_addr as int, to, d, done, len);
    view_stays(mem, now, a, other, base, addr);
}

/// What an address space sees stays the same when the kernel writes bytes
/// to another one, even if they share pages.
pub proof fn write_leaves_others_alone(
    mem: Seq<u8>,
    a: FrameModel,
    extra: Seq<u32>,
    dst: u64,
    dst_addr: u64,
    bytes: Seq<u8>,
    now: Seq<u8>,
    b: FrameModel,
    left: Seq<u32>,
    r: Result<(), CopyError>,
    other: u64,
    base: u64,
    rest: Multiset<int>,
    addr: u64,
)
    requires
        dst_addr + bytes.len() <= u64::MAX,
        mem.len() <= 0x10_0000_0000_0000,
        allocator_ok(a, mem.len()),
        puts(mem, a, extra, dst, dst_addr, bytes, now, b, left, r),
        in_order(mem, a, dst, base),
        in_order(mem, a, other, base),
        unrelated(mem, dst, other, base),
        counted(mem, extra, dst, other, base, rest),
        writable_is_own(mem, extra, dst, base),
        forall|k: int|
            dst_addr as int / 4096 <= k < dst_addr as int / 4096 + span(
                dst_addr,
                bytes.len() as int,
            ) ==> own_slot(mem, base, #[trigger] ((k * 4096) as u64)),
        own_slot(mem, base, addr),
    ensures
        sees(now, other, addr) == sees(mem, other, addr),
{
    let first = dst_addr as int / 4096;
    let len = bytes.len() as int;
    let n = span(dst_addr, len);
    let g = |f: u64| uses(mem, other, base, f);
    assert forall|i: int| 0 <= i < n implies own_slot(mem, base, #[trigger] page_address(first + i)) by {
        let k = first + i;
        assert(own_slot(mem, base, (k * 4096) as u64));
    }
    others_are_shielded(mem, a, extra, dst, other, base, rest, first, n);
    shield_lasts(mem, a, extra, dst, first, n, g, n);
    let (s, c) = owned_pages(mem, a, extra, dst, first, n);
    let to = writable_part(seen(s.0, dst, dst_addr, len), c, s.1.free);
    let d = dst_addr as int;
    room_is_mapped(to, d, 0, len);
    let done = room(to, d, 0, len);
    assert forall|f: u64| #[trigger] uses(mem, other, base, f) implies agree_on(mem, now, f) by {
        assert(g(f));
        used_frame(mem, a, other, base, f);
        window_is_outside(mem, a, extra, dst, dst_addr, len, g, s, c, f);
        put_elsewhere(s.0, to, d, bytes, done, len, f);
        both_agree(mem, s.0, now, f);
    }
    assert(is_table(mem, other, base, 4, other));
    assert(g(other));
    window_is_outside(mem, a, extra, dst, dst_addr, len, g, s, c, other);
    put_len(s.0, to, d, bytes, done, len);
    view_stays(mem, now, a, other, base, addr);
}

// What is written arrives.

/// Whether no frame is handed out twice before it came back.
pub open spec fn hands_out_once(a: FrameModel) -> bool {
    &&& a.free.no_duplicates()
    &&& forall|k: int|
        k >= a.next && #[trigger] nth_frame(a.regions, k) is Some ==> !a.free.contains(
            nth_frame(a.regions, k)->0,
        )
    &&& forall|j: int, k: int|
        a.next <= j < k && #[trigger] nth_frame(a.regions, j) is Some && #[trigger] nth_frame(
            a.regions,
            k,
        ) is Some ==> nth_frame(a.regions, j) != nth_frame(a.regions, k)
}

/// A frame that was handed out is in use.
proof fn handed_out_is_taken(a: FrameModel)
    requires
        hands_out_once(a),
        a.head() is Some,
    ensures
        taken(a.allocated(), a.head()->0),
        hands_out_once(a.allocated()),
{
    let f = a.head()->0;
    let b = a.allocated();
    if a.free.len() > 0 {
        assert(a.free[0] == f);
        assert(a.free.contains(f));
        assert(!b.free.contains(f)) by {
            if b.free.contains(f) {
                let k = choose|k: int| 0 <= k < b.free.len() && b.free[k] == f;
                assert(a.free[k + 1] == f);
            }
        }
        assert forall|k: int| k >= b.next && #[trigger] nth_frame(b.regions, k) is Some implies !b.free.contains(
            nth_frame(b.regions, k)->0,
        ) by {
            let g = nth_frame(b.regions, k)->0;
            if b.free.contains(g) {
                let j = choose|j: int| 0 <= j < b.free.len() && b.free[j] == g;
                assert(a.free[j + 1] == g);
                assert(a.free.contains(g));
            }
        }
        assert forall|i: int, j: int| 0 <= i < j < b.free.len() implies b.free[i] != b.free[j] by {
            assert(b.free[i] == a.free[i + 1] && b.free[j] == a.free[j + 1]);
        }
    } else {
        assert(nth_frame(a.regions, a.next) == Some(f));
    }
}

/// Whether a page is one of 4 KiB, in a frame in use that is not in `h`.
spec fn settled_page(len: nat, a: FrameModel, e: Option<Mapped>, h: spec_fn(u64) -> bool) -> bool {
    e matches Some(m) ==> {
        let f = mapping_of(m.entry).frame;
        m.level == 1 && frame_ok(len, f) && taken(a, f) && !h(f)
    }
}

/// Whether the `n` pages from page number `first` on are in different frames
/// in use, none of them in `h`.
spec fn settled(
    pml4: u64,
    first: int,
    n: int,
    h: spec_fn(u64) -> bool,
    s: (Seq<u8>, FrameModel, Seq<u32>),
) -> bool {
    &&& hands_out_once(s.1)
    &&& forall|f: u64| #[trigger] h(f) ==> taken(s.1, f)
    &&& forall|i: int|
        0 <= i < n ==> settled_page(s.0.len(), s.1, #[trigger] page_entry(s.0, pml4, first, i), h)
    &&& forall|i: int, j: int|
        0 <= i < n && 0 <= j < n && i != j && #[trigger] page_entry(s.0, pml4, first, i) is Some
            && #[trigger] page_entry(s.0, pml4, first, j) is Some ==> mapping_of(
            (page_entry(s.0, pml4, first, i)->0).entry,
        ).frame != mapping_of((page_entry(s.0, pml4, first, j)->0).entry).frame
}

/// One more page is made the address space's own: the pages stay in
/// different frames.
#[verifier::spinoff_prover]
proof fn settled_step(
    mem: Seq<u8>,
    a: FrameModel,
    extra: Seq<u32>,
    pml4: u64,
    first: int,
    n: int,
    g: spec_fn(u64) -> bool,
    h: spec_fn(u64) -> bool,
    s: (Seq<u8>, FrameModel, Seq<u32>),
    k: int,
)
    requires
        mem.len() <= 0x10_0000_0000_0000,
        shielded(mem, a, extra, pml4, first, n, g),
        shield_holds(mem, a, extra, pml4, first, n, g, s, k),
        settled(pml4, first, n, h, s),
        0 <= k < n,
        page_entry(s.0, pml4, first, k) matches Some(m) && owned(s.0, s.1, s.2, m) is Some,
    ensures
        settled(
            pml4,
            first,
            n,
            h,
            owned(s.0, s.1, s.2, page_entry(s.0, pml4, first, k)->0)->0,
        ),
{
    let m = page_entry(s.0, pml4, first, k)->0;
    let t = owned(s.0, s.1, s.2, m)->0;
    let page = mapping_of(m.entry);
    assert(page_entry(mem, pml4, first, k) == Some(m));
    assert(settled_page(s.0.len(), s.1, page_entry(s.0, pml4, first, k), h));
    entry_place(mem, pml4, first, k);
    let (fresh, e) = owned_rewrites(s, m);
    if t != s {
        let last = path_to(mem, pml4, first, k)[3];
        head_is_a_frame(s.1, mem.len());
        shield_step(mem, a, extra, pml4, first, n, g, s, k);
        assert forall|i: int| 0 <= i < n && i != k implies #[trigger] page_entry(
            t.0,
            pml4,
            first,
            i,
        ) == page_entry(s.0, pml4, first, i) by {
            other_pages_stay(mem, a, extra, pml4, first, n, g, s, t.0, k, k, fresh, e, i);
        }
        changed_page(mem, pml4, first, n, s.0, t.0, k, fresh, e);
        if fresh is Some {
            handed_out_is_taken(s.1);
        }
        assert forall|f: u64| taken(s.1, f) implies taken(t.1, f) && (fresh matches Some(x) ==> x
            != f) by {
            taken_stays(s.1, f);
        }
        assert(settled_page(t.0.len(), t.1, page_entry(t.0, pml4, first, k), h)) by {
            if fresh is Some && h(fresh->0) {
                assert(taken(s.1, fresh->0));
            }
        }
        assert forall|i: int| 0 <= i < n implies settled_page(
            t.0.len(),
            t.1,
            #[trigger] page_entry(t.0, pml4, first, i),
            h,
        ) by {
            if i != k {
                assert(page_entry(t.0, pml4, first, i) == page_entry(s.0, pml4, first, i));
                assert(settled_page(s.0.len(), s.1, page_entry(s.0, pml4, first, i), h));
            }
        }
        assert forall|i: int| 0 <= i < n && i != k && #[trigger] page_entry(
            t.0,
            pml4,
            first,
            i,
        ) is Some implies mapping_of((page_entry(t.0, pml4, first, i)->0).entry).frame != mapping_of(
            e,
        ).frame by {
            assert(page_entry(t.0, pml4, first, i) == page_entry(s.0, pml4, first, i));
            assert(settled_page(s.0.len(), s.1, page_entry(s.0, pml4, first, i), h));
        }
        assert forall|i: int, j: int|
            0 <= i < n && 0 <= j < n && i != j && #[trigger] page_entry(t.0, pml4, first, i) is Some
                && #[trigger] page_entry(t.0, pml4, first, j) is Some implies mapping_of(
            (page_entry(t.0, pml4, first, i)->0).entry,
        ).frame != mapping_of((page_entry(t.0, pml4, first, j)->0).entry).frame by {
            if i != k && j != k {
                assert(page_entry(t.0, pml4, first, i) == page_entry(s.0, pml4, first, i));
                assert(page_entry(t.0, pml4, first, j) == page_entry(s.0, pml4, first, j));
            }
        }
    }
}

/// The pages stay in different frames while they are made the address
/// space's own.
proof fn settled_lasts(
    mem: Seq<u8>,
    a: FrameModel,
    extra: Seq<u32>,
    pml4: u64,
    first: int,
    n: int,
    g: spec_fn(u64) -> bool,
    h: spec_fn(u64) -> bool,
    k: int,
)
    requires
        mem.len() <= 0x10_0000_0000_0000,
        shielded(mem, a, extra, pml4, first, n, g),
        allocator_ok(a, mem.len()),
        settled(pml4, first, n, h, (mem, a, extra)),
        0 <= k <= n,
    ensures
        settled(pml4, first, n, h, owned_pages(mem, a, extra, pml4, first, k).0),
    decreases k,
{
    if k > 0 {
        settled_lasts(mem, a, extra, pml4, first, n, g, h, k - 1);
        shield_lasts(mem, a, extra, pml4, first, n, g, k - 1);
        let (s, c) = owned_pages(mem, a, extra, pml4, first, k - 1);
        if c == k - 1 {
            match page_entry(s.0, pml4, first, c) {
                Some(m) => {
                    if owned(s.0, s.1, s.2, m) is Some {
                        settled_step(mem, a, extra, pml4, first, n, g, h, s, c);
                    }
                },
                None => {},
            }
        }
    }
}

/// The pages of an address space in order are in different frames, and none
/// is a table.
proof fn space_is_settled(
    mem: Seq<u8>,
    a: FrameModel,
    extra: Seq<u32>,
    pml4: u64,
    base: u64,
    first: int,
    n: int,
)
    requires
        in_order(mem, a, pml4, base),
        hands_out_once(a),
        0 <= first,
        first + n <= 0x10_0000_0000_0000,
        forall|i: int| 0 <= i < n ==> own_slot(mem, base, #[trigger] page_address(first + i)),
    ensures
        settled(
            pml4,
            first,
            n,
            |f: u64| exists|level: nat| #[trigger] is_table(mem, pml4, base, level, f),
            (mem, a, extra),
        ),
{
    let h = |f: u64| exists|level: nat| #[trigger] is_table(mem, pml4, base, level, f);
    assert forall|i: int| 0 <= i < n implies settled_page(
        mem.len(),
        a,
        #[trigger] page_entry(mem, pml4, first, i),
        h,
    ) by {
        if page_entry(mem, pml4, first, i) is Some {
            let x = page_address(first + i);
            assert(own_slot(mem, base, x));
            assert(mapped(mem, pml4, x) is Some);
            let k = page_of_the_space(mem, pml4, base, x);
        }
    }
    assert forall|i: int, j: int|
        0 <= i < n && 0 <= j < n && i != j && #[trigger] page_entry(mem, pml4, first, i) is Some
            && #[trigger] page_entry(mem, pml4, first, j) is Some implies mapping_of(
        (page_entry(mem, pml4, first, i)->0).entry,
    ).frame != mapping_of((page_entry(mem, pml4, first, j)->0).entry).frame by {
        let x = page_address(first + i);
        let y = page_address(first + j);
        assert(own_slot(mem, base, x) && own_slot(mem, base, y));
        assert(x / 4096 == first + i && y / 4096 == first + j);
        assert(mapped(mem, pml4, x) is Some && mapped(mem, pml4, y) is Some);
    }
    assert forall|f: u64| #[trigger] h(f) implies taken(a, f) by {
        let level = choose|level: nat| #[trigger] is_table(mem, pml4, base, level, f);
        assert(is_table(mem, pml4, base, level, f));
    }
}

/// Whether the pages of a window are different, and at the start of frames.
spec fn injective(w: WindowModel) -> bool {
    &&& aligned(w)
    &&& forall|x: int, y: int|
        0 <= x < w.pages.len() && 0 <= y < w.pages.len() && x != y && #[trigger] w.pages[x] is Some
            && #[trigger] w.pages[y] is Some ==> w.pages[x] != w.pages[y]
}

/// Different bytes are in different places.
proof fn places_differ(w: WindowModel, d: int, len: int, size: nat, i: int, j: int)
    requires
        injective(w),
        w.covers(d, len, size),
        0 <= d,
        0 <= i < j < len,
        w.phys(d + i) is Some,
        w.phys(d + j) is Some,
    ensures
        w.phys(d + i) != w.phys(d + j),
{
    let x = (d + i) / 4096 - w.first_page;
    let y = (d + j) / 4096 - w.first_page;
    assert(d / 4096 <= (d + i) / 4096 <= (d + j) / 4096 <= (d + len - 1) / 4096);
    assert(w.pages[x] is Some && w.pages[y] is Some);
    if x != y {
        frames_apart(w.pages[x]->0, w.pages[y]->0);
    }
}

/// What the kernel writes to: different pages, none of them a table.
proof fn window_is_settled(
    pml4: u64,
    addr: u64,
    len: int,
    h: spec_fn(u64) -> bool,
    s: (Seq<u8>, FrameModel, Seq<u32>),
    c: int,
)
    requires
        0 <= len,
        addr + len <= u64::MAX,
        s.0.len() <= 0x10_0000_0000_0000,
        settled(pml4, addr as int / 4096, span(addr, len), h, s),
        0 <= c <= span(addr, len),
    ensures
        ({
            let w = writable_part(seen(s.0, pml4, addr, len), c, s.1.free);
            &&& injective(w)
            &&& w.covers(addr as int, len, s.0.len())
            &&& forall|j: int|
                0 <= j < w.pages.len() && (#[trigger] w.pages[j]) is Some ==> !h(w.pages[j]->0)
        }),
{
    let all = seen(s.0, pml4, addr, len);
    let w = writable_part(all, c, s.1.free);
    let first = addr as int / 4096;
    let n = span(addr, len);
    seen_covers(s.0, pml4, addr, len);
    pages_are_aligned(s.0, pml4, addr, len);
    assert forall|j: int| 0 <= j < w.pages.len() && (#[trigger] w.pages[j]) is Some implies {
        &&& j < n
        &&& (w.pages[j]->0) % 4096 == 0
        &&& (w.pages[j]->0) + PAGE_SIZE <= s.0.len()
        &&& page_entry(s.0, pml4, first, j) is Some
        &&& w.pages[j]->0 == mapping_of((page_entry(s.0, pml4, first, j)->0).entry).frame
        &&& !h(w.pages[j]->0)
    } by {
        assert(all.pages[j] == w.pages[j]);
        assert(j < c);
        let at = page_address(first + j);
        assert(all.pages[j] == page_at(s.0, pml4, at));
        assert(settled_page(s.0.len(), s.1, page_entry(s.0, pml4, first, j), h));
        page_is_the_frame(page_entry(s.0, pml4, first, j)->0, at);
    }
    assert forall|x: int, y: int|
        0 <= x < w.pages.len() && 0 <= y < w.pages.len() && x != y && #[trigger] w.pages[x] is Some
            && #[trigger] w.pages[y] is Some implies w.pages[x] != w.pages[y] by {
        assert(page_entry(s.0, pml4, first, x) is Some);
        assert(page_entry(s.0, pml4, first, y) is Some);
    }
}

/// Where a byte is in a window, it is in the address space, as long as no
/// table changes.
proof fn byte_is_seen(
    mem: Seq<u8>,
    a: FrameModel,
    extra: Seq<u32>,
    pml4: u64,
    base: u64,
    addr: u64,
    len: int,
    g: spec_fn(u64) -> bool,
    s: (Seq<u8>, FrameModel, Seq<u32>),
    c: int,
    now: Seq<u8>,
    i: int,
)
    requires
        0 <= i < len,
        addr + len <= u64::MAX,
        mem.len() <= 0x10_0000_0000_0000,
        in_order(mem, a, pml4, base),
        own_slot(mem, base, page_address((addr + i) / 4096)),
        shield_holds(mem, a, extra, pml4, addr as int / 4096, span(addr, len), g, s, c),
        now.len() == s.0.len(),
        forall|level: nat, f: u64| #[trigger]
            is_table(mem, pml4, base, level, f) ==> agree_on(s.0, now, f),
        writable_part(seen(s.0, pml4, addr, len), c, s.1.free).phys(addr + i) is Some,
    ensures
        sees(now, pml4, (addr + i) as u64) == Some(
            now[writable_part(seen(s.0, pml4, addr, len), c, s.1.free).phys(addr + i)->0],
        ),
{
    let all = seen(s.0, pml4, addr, len);
    let w = writable_part(all, c, s.1.free);
    let first = addr as int / 4096;
    let x = (addr + i) / 4096 - first;
    let start = page_address(first + x);
    let at = (addr + i) as u64;
    seen_covers(s.0, pml4, addr, len);
    assert((addr + i) / 4096 <= (addr + len - 1) / 4096);
    assert(0 <= x < all.pages.len());
    assert(all.pages[x] == w.pages[x]);
    assert(all.pages[x] == page_at(s.0, pml4, start));
    assert(start / 4096 == at / 4096);
    // The way there is as it was.
    let path = path_to(mem, pml4, first, x);
    assert(0 <= x < span(addr, len));
    path_lengths(mem, pml4, 4, start);
    assert forall|l: int| 0 <= l < tables(mem, pml4, 4, start).len() && l < 4 - 1 implies agree_on(
        mem,
        s.0,
        #[trigger] tables(mem, pml4, 4, start)[l],
    ) by {
        assert(agree_on(mem, s.0, path[l]));
    }
    paths_stay(mem, s.0, pml4, 4, start);
    assert forall|l: int| 0 <= l < path.len() implies agree_on(s.0, now, #[trigger] path[l]) by {
        path_is_of_the_space(mem, pml4, base, start, l);
    }
    let p = path.len() - 1;
    assert(path.last() == path[p]);
    same_table_entry(s.0, now, path[p], table_index(start, 4 - p));
    walk_stays(s.0, now, pml4, 4, start);
    reveal(mapped);
    pages_are_whole(now, pml4, start, at);
}

/// What the kernel writes to an address space is seen there.
pub proof fn written_bytes_are_seen(
    mem: Seq<u8>,
    a: FrameModel,
    extra: Seq<u32>,
    dst: u64,
    dst_addr: u64,
    bytes: Seq<u8>,
    now: Seq<u8>,
    b: FrameModel,
    left: Seq<u32>,
    base: u64,
    i: int,
)
    requires
        dst_addr + bytes.len() <= u64::MAX,
        mem.len() <= 0x10_0000_0000_0000,
        allocator_ok(a, mem.len()),
        hands_out_once(a),
        puts(mem, a, extra, dst, dst_addr, bytes, now, b, left, Ok(())),
        in_order(mem, a, dst, base),
        forall|k: int|
            dst_addr as int / 4096 <= k < dst_addr as int / 4096 + span(
                dst_addr,
                bytes.len() as int,
            ) ==> own_slot(mem, base, #[trigger] ((k * 4096) as u64)),
        0 <= i < bytes.len(),
    ensures
        sees(now, dst, (dst_addr + i) as u64) == Some(bytes[i]),
{
    let first = dst_addr as int / 4096;
    let len = bytes.len() as int;
    let n = span(dst_addr, len);
    let g = |f: u64| false;
    let h = |f: u64| exists|level: nat| #[trigger] is_table(mem, dst, base, level, f);
    assert forall|j: int| 0 <= j < n implies own_slot(mem, base, #[trigger] page_address(first + j)) by {
        let k = first + j;
        assert(own_slot(mem, base, (k * 4096) as u64));
    }
    nothing_is_shielded(mem, a, extra, dst, base, first, n);
    space_is_settled(mem, a, extra, dst, base, first, n);
    shield_lasts(mem, a, extra, dst, first, n, g, n);
    settled_lasts(mem, a, extra, dst, first, n, g, h, n);
    let (s, c) = owned_pages(mem, a, extra, dst, first, n);
    let to = writable_part(seen(s.0, dst, dst_addr, len), c, s.1.free);
    let d = dst_addr as int;
    window_is_settled(dst, dst_addr, len, h, s, c);
    room_is_mapped(to, d, 0, len);
    assert(room(to, d, 0, len) == len);
    assert forall|x: int, y: int|
        #![trigger to.phys(d + x), to.phys(d + y)]
        0 <= x < y < len implies to.phys(d + x) != to.phys(d + y) by {
        places_differ(to, d, len, s.0.len(), x, y);
    }
    put_delivers(s.0, to, d, bytes, len);
    assert forall|level: nat, f: u64| #[trigger] is_table(mem, dst, base, level, f) implies agree_on(
        s.0,
        now,
        f,
    ) by {
        assert(h(f));
        assert forall|j: int| 0 <= j < to.pages.len() implies #[trigger] to.pages[j] != Some(f) by {
        }
        put_elsewhere(s.0, to, d, bytes, len, len, f);
    }
    assert(page_address((dst_addr + i) / 4096) == page_address(first + ((dst_addr + i) / 4096 - first)));
    assert((dst_addr + i) / 4096 - first < n);
    assert(to.phys(d + i) is Some);
    byte_is_seen(mem, a, extra, dst, base, dst_addr, len, g, s, c, now, i);
}

/// Where the byte of another address space is, and what it is: as before.
proof fn source_is_seen(
    mem: Seq<u8>,
    now: Seq<u8>,
    a: FrameModel,
    src: u64,
    base: u64,
    addr: u64,
    len: int,
    i: int,
)
    requires
        0 <= i < len,
        addr + len <= u64::MAX,
        now.len() == mem.len(),
        mem.len() <= u64::MAX,
        in_order(mem, a, src, base),
        own_slot(mem, base, page_address((addr + i) / 4096)),
        forall|f: u64| #[trigger] uses(mem, src, base, f) ==> agree_on(mem, now, f),
        seen(now, src, addr, len).phys(addr + i) is Some,
    ensures
        ({
            let w = seen(now, src, addr, len);
            let x = (addr + i) / 4096 - w.first_page;
            &&& sees(mem, src, (addr + i) as u64) == Some(now[w.phys(addr + i)->0])
            &&& 0 <= x < w.pages.len()
            &&& uses(mem, src, base, w.pages[x]->0)
        }),
{
    let w = seen(now, src, addr, len);
    let first = addr as int / 4096;
    let x = (addr + i) / 4096 - first;
    let start = page_address(first + x);
    let at = (addr + i) as u64;
    seen_covers(now, src, addr, len);
    assert((addr + i) / 4096 <= (addr + len - 1) / 4096);
    assert(w.pages[x] == page_at(now, src, start));
    assert(start / 4096 == at / 4096);
    pages_are_whole(now, src, start, at);
    pages_are_whole(mem, src, start, at);
    // The way there is as it was.
    let path = tables(mem, src, 4, start);
    path_lengths(mem, src, 4, start);
    assert forall|l: int| 0 <= l < path.len() implies agree_on(mem, now, #[trigger] path[l]) by {
        path_is_of_the_space(mem, src, base, start, l);
        assert(uses(mem, src, base, path[l]));
    }
    let p = path.len() - 1;
    assert(path.last() == path[p]);
    same_table_entry(mem, now, path[p], table_index(start, 4 - p));
    walk_stays(mem, now, src, 4, start);
    reveal(mapped);
    assert(mapped(now, src, start) == mapped(mem, src, start));
    assert(mapped(mem, src, start) is Some);
    let m = mapped(mem, src, start)->0;
    let k = page_of_the_space(mem, src, base, start);
    let f = mapping_of(m.entry).frame;
    page_is_the_frame(m, start);
    page_is_the_frame(m, at);
    assert(uses(mem, src, base, f));
    assert(mem[f + at as int % 4096] == now[f + at as int % 4096]);
}

/// What the kernel copies from one address space to another is seen there:
/// byte by byte what the other one has, even if they share pages.
pub proof fn copied_bytes_are_seen(
    mem: Seq<u8>,
    a: FrameModel,
    extra: Seq<u32>,
    src: u64,
    src_addr: u64,
    dst: u64,
    dst_addr: u64,
    len: int,
    now: Seq<u8>,
    b: FrameModel,
    left: Seq<u32>,
    base: u64,
    rest: Multiset<int>,
    i: int,
)
    requires
        0 <= i < len,
        src_addr + len <= u64::MAX,
        dst_addr + len <= u64::MAX,
        mem.len() <= 0x10_0000_0000_0000,
        allocator_ok(a, mem.len()),
        hands_out_once(a),
        copies_between(mem, a, extra, src, src_addr, dst, dst_addr, len, now, b, left, Ok(())),
        in_order(mem, a, dst, base),
        in_order(mem, a, src, base),
        unrelated(mem, dst, src, base),
        counted(mem, extra, dst, src, base, rest),
        writable_is_own(mem, extra, dst, base),
        forall|k: int|
            dst_addr as int / 4096 <= k < dst_addr as int / 4096 + span(dst_addr, len) ==> own_slot(
                mem,
                base,
                #[trigger] ((k * 4096) as u64),
            ),
        forall|k: int|
            src_addr as int / 4096 <= k < src_addr as int / 4096 + span(src_addr, len) ==> own_slot(
                mem,
                base,
                #[trigger] ((k * 4096) as u64),
            ),
    ensures
        sees(mem, src, (src_addr + i) as u64) is Some,
        sees(now, dst, (dst_addr + i) as u64) == sees(mem, src, (src_addr + i) as u64),
{
    let first = dst_addr as int / 4096;
    let n = span(dst_addr, len);
    let g = |f: u64| uses(mem, src, base, f);
    let h = |f: u64| exists|level: nat| #[trigger] is_table(mem, dst, base, level, f);
    assert forall|j: int| 0 <= j < n implies own_slot(mem, base, #[trigger] page_address(first + j)) by {
        let k = first + j;
        assert(own_slot(mem, base, (k * 4096) as u64));
    }
    others_are_shielded(mem, a, extra, dst, src, base, rest, first, n);
    space_is_settled(mem, a, extra, dst, base, first, n);
    shield_lasts(mem, a, extra, dst, first, n, g, n);
    settled_lasts(mem, a, extra, dst, first, n, g, h, n);
    let (s, c) = owned_pages(mem, a, extra, dst, first, n);
    let from = seen(s.0, src, src_addr, len);
    let to = writable_part(seen(s.0, dst, dst_addr, len), c, s.1.free);
    let (p, d) = (src_addr as int, dst_addr as int);
    assert forall|f: u64| #[trigger] uses(mem, src, base, f) implies agree_on(mem, s.0, f) by {
        assert(g(f));
    }
    window_is_settled(dst, dst_addr, len, h, s, c);
    seen_covers(s.0, src, src_addr, len);
    pages_are_aligned(s.0, src, src_addr, len);
    assert(copy_fault(from, p, to, d, 0, len) is None);
    assert forall|x: int| 0 <= x < len implies (#[trigger] from.phys(p + x)) is Some && to.phys(
        d + x,
    ) is Some by {
        no_fault_at(from, p, to, d, 0, len, x);
    }
    assert(apart(from, p, to, d, len)) by {
        assert forall|x: int, y: int|
            #![trigger from.phys(p + x), to.phys(d + y)]
            0 <= x < len && 0 <= y < len implies from.phys(p + x) != to.phys(d + y) by {
            let k = (src_addr + x) / 4096;
            assert(p / 4096 <= k <= (p + len - 1) / 4096);
            assert(own_slot(mem, base, (k * 4096) as u64));
            assert(from.phys(p + x) is Some);
            source_is_seen(mem, s.0, a, src, base, src_addr, len, x);
            let f = from.pages[k - from.first_page]->0;
            assert(g(f));
            assert(from.pages[k - from.first_page] is Some);
            window_is_outside(mem, a, extra, dst, dst_addr, len, g, s, c, f);
            assert(from.phys(p + y) is Some);
            phys_elsewhere(to, d, y, len, mem.len(), f);
        }
        assert forall|x: int, y: int|
            #![trigger to.phys(d + x), to.phys(d + y)]
            0 <= x < y < len implies to.phys(d + x) != to.phys(d + y) by {
            assert(from.phys(p + x) is Some && from.phys(p + y) is Some);
            places_differ(to, d, len, s.0.len(), x, y);
        }
    }
    copy_delivers(s.0, from, p, to, d, len);
    assert forall|x: int| 0 <= x < len implies (#[trigger] to.phys(d + x)) is Some by {
        assert(from.phys(p + x) is Some);
    }
    assert forall|level: nat, f: u64| #[trigger] is_table(mem, dst, base, level, f) implies agree_on(
        s.0,
        now,
        f,
    ) by {
        assert(h(f));
        assert forall|j: int| 0 <= j < to.pages.len() implies #[trigger] to.pages[j] != Some(f) by {
        }
        copied_elsewhere(s.0, from, p, to, d, len, len, f);
    }
    let k = (dst_addr + i) / 4096;
    assert(d / 4096 <= k <= (d + len - 1) / 4096);
    assert(own_slot(mem, base, (k * 4096) as u64));
    assert(to.phys(d + i) is Some);
    byte_is_seen(mem, a, extra, dst, base, dst_addr, len, g, s, c, now, i);
    let q = (src_addr + i) / 4096;
    assert(p / 4096 <= q <= (p + len - 1) / 4096);
    assert(own_slot(mem, base, (q * 4096) as u64));
    assert(from.phys(p + i) is Some);
    source_is_seen(mem, s.0, a, src, base, src_addr, len, i);
}

/// Nothing has to be shielded if nobody else is looked at.
proof fn nothing_is_shielded(
    mem: Seq<u8>,
    a: FrameModel,
    extra: Seq<u32>,
    pml4: u64,
    base: u64,
    first: int,
    n: int,
)
    requires
        in_order(mem, a, pml4, base),
        0 <= first,
        first + n <= 0x10_0000_0000_0000,
        forall|i: int| 0 <= i < n ==> own_slot(mem, base, #[trigger] page_address(first + i)),
    ensures
        shielded(mem, a, extra, pml4, first, n, |f: u64| false),
{
    let g = |f: u64| false;
    space_is_walkable(mem, a, pml4, base, first, n);
    assert forall|i: int| 0 <= i < n implies shielded_page(
        mem.len(),
        extra,
        #[trigger] page_entry(mem, pml4, first, i),
        g,
    ) by {
        if page_entry(mem, pml4, first, i) is Some {
            let x = page_address(first + i);
            assert(own_slot(mem, base, x));
            assert(mapped(mem, pml4, x) is Some);
            let k = page_of_the_space(mem, pml4, base, x);
        }
    }
}

/// Whether frame `f` holds the table that comes at place `l` on a way through
/// the tables.
spec fn is_step(mem: Seq<u8>, pml4: u64, base: u64, l: int, f: u64) -> bool {
    0 <= l <= 3 && is_table(mem, pml4, base, (4 - l) as nat, f)
}

/// The tables on the way to pages in order are in use, have one level each,
/// and lead to different frames.
proof fn space_is_walkable(mem: Seq<u8>, a: FrameModel, pml4: u64, base: u64, first: int, n: int)
    requires
        in_order(mem, a, pml4, base),
        0 <= first,
        first + n <= 0x10_0000_0000_0000,
        forall|i: int| 0 <= i < n ==> own_slot(mem, base, #[trigger] page_address(first + i)),
    ensures
        forall|i: int, l: int|
            0 <= i < n && 0 <= l < path_to(mem, pml4, first, i).len() ==> is_step(
                mem,
                pml4,
                base,
                l,
                #[trigger] path_to(mem, pml4, first, i)[l],
            ),
        forall|i: int, l: int|
            0 <= i < n && 0 <= l < path_to(mem, pml4, first, i).len() ==> frame_ok(
                mem.len(),
                #[trigger] path_to(mem, pml4, first, i)[l],
            ) && taken(a, path_to(mem, pml4, first, i)[l]),
        forall|i: int, l: int, j: int|
            0 <= i < n && 0 <= l < path_to(mem, pml4, first, i).len() && 0 <= j < n && path_to(
                mem,
                pml4,
                first,
                j,
            ).len() == 4 && #[trigger] path_to(mem, pml4, first, i)[l] == #[trigger] path_to(
                mem,
                pml4,
                first,
                j,
            )[3] ==> l == 3,
        forall|i: int, j: int|
            0 <= i < n && 0 <= j < n && i != j && #[trigger] page_entry(mem, pml4, first, i) is Some
                && #[trigger] page_entry(mem, pml4, first, j) is Some ==> mapping_of(
                (page_entry(mem, pml4, first, i)->0).entry,
            ).frame != mapping_of((page_entry(mem, pml4, first, j)->0).entry).frame,
{
    assert forall|i: int, l: int| 0 <= i < n && 0 <= l < path_to(mem, pml4, first, i).len() implies is_step(
        mem,
        pml4,
        base,
        l,
        #[trigger] path_to(mem, pml4, first, i)[l],
    ) by {
        assert(own_slot(mem, base, page_address(first + i)));
        path_is_of_the_space(mem, pml4, base, page_address(first + i), l);
    }
    assert forall|i: int, l: int, j: int|
        0 <= i < n && 0 <= l < path_to(mem, pml4, first, i).len() && 0 <= j < n && path_to(
            mem,
            pml4,
            first,
            j,
        ).len() == 4 && #[trigger] path_to(mem, pml4, first, i)[l] == #[trigger] path_to(
            mem,
            pml4,
            first,
            j,
        )[3] implies l == 3 by {
        assert(is_step(mem, pml4, base, l, path_to(mem, pml4, first, i)[l]));
        assert(is_step(mem, pml4, base, 3, path_to(mem, pml4, first, j)[3]));
    }
    assert forall|i: int, j: int|
        0 <= i < n && 0 <= j < n && i != j && #[trigger] page_entry(mem, pml4, first, i) is Some
            && #[trigger] page_entry(mem, pml4, first, j) is Some implies mapping_of(
        (page_entry(mem, pml4, first, i)->0).entry,
    ).frame != mapping_of((page_entry(mem, pml4, first, j)->0).entry).frame by {
        let x = page_address(first + i);
        let y = page_address(first + j);
        assert(own_slot(mem, base, x) && own_slot(mem, base, y));
        assert(x / 4096 == first + i && y / 4096 == first + j);
        assert(mapped(mem, pml4, x) is Some && mapped(mem, pml4, y) is Some);
    }
}

} // verus!
