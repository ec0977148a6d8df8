//! What an address is mapped to: the way through the page tables.
use vstd::prelude::*;

use crate::bytes::same_word;
use crate::memory::copy::{aligned, Window, WindowModel};
use crate::memory::frames::{agree_on, frame_ok, is_frame};
use crate::memory::map::PAGE_SIZE;
use crate::memory::paging::{canonical, is_canonical, p4_slot, ENTRIES, HUGE_PAGE, PRESENT};
use crate::memory::space::{entry, entry_frame, frame_of, read_entry, ADDRESS_MASK};

verus! {

/// Bytes that one entry of a page table of that level covers.
pub open spec fn reach(level: int) -> int {
    if level >= 4 {
        0x80_0000_0000
    } else if level == 3 {
        0x4000_0000
    } else if level == 2 {
        0x20_0000
    } else {
        0x1000
    }
}

/// Which entry of a page table of that level covers `addr`.
pub open spec fn table_index(addr: u64, level: int) -> int {
    (addr as int / reach(level)) % 512
}

/// The entry that maps an address: where it is in physical memory, what it
/// holds, and the level of its table. One of a higher level than the first
/// maps a huge page.
#[derive(Clone, Copy, Debug, PartialEq, Eq, Structural)]
pub struct Mapped {
    pub at: u64,
    pub entry: u64,
    pub level: u64,
}

impl Mapped {
    /// The physical address of the page of 4 KiB that holds `addr`.
    pub open spec fn page(self, addr: u64) -> int {
        let size = reach(self.level as int);
        (self.entry & ADDRESS_MASK) as int / size * size + addr as int % size / 4096 * 4096
    }
}

/// The entry that maps `addr`, looked for from the table in frame `table`
/// on. A table outside memory maps nothing.
pub open spec fn walk(mem: Seq<u8>, table: u64, level: int, addr: u64) -> Option<Mapped>
    decreases level,
{
    let i = table_index(addr, level);
    let e = entry(mem, table, i);
    let here = Mapped { at: (table + 8 * i) as u64, entry: e, level: level as u64 };
    if level <= 0 || !frame_ok(mem.len(), table) || e == 0 {
        None
    } else if level == 1 {
        Some(here)
    } else if e & PRESENT == 0 {
        None
    } else if e & HUGE_PAGE == 0 {
        walk(mem, e & ADDRESS_MASK, level - 1, addr)
    } else if level < 4 {
        Some(here)
    } else {
        None
    }
}

/// The entry that maps `addr` in the address space whose top-level table is
/// in frame `pml4`.
#[verifier::opaque]
pub open spec fn mapped(mem: Seq<u8>, pml4: u64, addr: u64) -> Option<Mapped> {
    if canonical(addr) {
        walk(mem, pml4, 4, addr)
    } else {
        None
    }
}

/// The physical address of the page that holds `addr`, if it is mapped to
/// memory.
pub open spec fn page_at(mem: Seq<u8>, pml4: u64, addr: u64) -> Option<u64> {
    match mapped(mem, pml4, addr) {
        Some(m) => if m.page(addr) + PAGE_SIZE <= mem.len() {
            Some(m.page(addr) as u64)
        } else {
            None
        },
        None => None,
    }
}

/// The frames of the tables that lead from the one in frame `table` to the
/// entry that maps `addr`.
pub open spec fn tables(mem: Seq<u8>, table: u64, level: int, addr: u64) -> Seq<u64>
    decreases level,
{
    let e = entry(mem, table, table_index(addr, level));
    if level <= 1 || e & PRESENT == 0 || e & HUGE_PAGE != 0 {
        seq![table]
    } else {
        seq![table] + tables(mem, e & ADDRESS_MASK, level - 1, addr)
    }
}

/// The addresses of a page are together at every level.
proof fn page_together(a: int, b: int, level: int)
    requires
        0 <= a,
        0 <= b,
        a / 4096 == b / 4096,
    ensures
        a / reach(level) == b / reach(level),
        a % reach(level) / 4096 == b % reach(level) / 4096,
{
    let k = reach(level) / 4096;
    assert(reach(level) == 4096 * k && k > 0);
    vstd::arithmetic::div_mod::lemma_div_denominator(a, 4096, k);
    vstd::arithmetic::div_mod::lemma_div_denominator(b, 4096, k);
    vstd::arithmetic::div_mod::lemma_mod_breakdown(a, 4096, k);
    vstd::arithmetic::div_mod::lemma_mod_breakdown(b, 4096, k);
}

/// All addresses of a page are mapped by the same entry.
proof fn walk_by_page(mem: Seq<u8>, table: u64, level: int, a: u64, b: u64)
    requires
        a / 4096 == b / 4096,
    ensures
        walk(mem, table, level, a) == walk(mem, table, level, b),
    decreases level,
{
    page_together(a as int, b as int, level);
    if level > 1 {
        let e = entry(mem, table, table_index(a, level));
        walk_by_page(mem, e & ADDRESS_MASK, level - 1, a, b);
    }
}

/// All addresses of a page are mapped by the same entry, to the same frame.
pub proof fn pages_are_whole(mem: Seq<u8>, pml4: u64, a: u64, b: u64)
    requires
        a / 4096 == b / 4096,
    ensures
        mapped(mem, pml4, a) == mapped(mem, pml4, b),
        page_at(mem, pml4, a) == page_at(mem, pml4, b),
{
    reveal(mapped);
    walk_by_page(mem, pml4, 4, a, b);
    assert(canonical(a) == canonical(b));
    match mapped(mem, pml4, a) {
        Some(m) => {
            page_together(a as int, b as int, m.level as int);
        },
        None => {},
    }
}

/// There is at least one table on the way.
proof fn path_is_some(mem: Seq<u8>, table: u64, level: int, addr: u64)
    ensures
        tables(mem, table, level, addr).len() >= 1,
    decreases level,
{
    let e = entry(mem, table, table_index(addr, level));
    if level > 1 {
        path_is_some(mem, e & ADDRESS_MASK, level - 1, addr);
    }
}

/// The tables on the way to an entry are in memory.
proof fn path_in_memory(mem: Seq<u8>, table: u64, level: int, addr: u64)
    requires
        walk(mem, table, level, addr) is Some,
    ensures
        forall|k: int|
            0 <= k < tables(mem, table, level, addr).len() ==> frame_ok(
                mem.len(),
                #[trigger] tables(mem, table, level, addr)[k],
            ),
    decreases level,
{
    let path = tables(mem, table, level, addr);
    let e = entry(mem, table, table_index(addr, level));
    if level > 1 && e & PRESENT != 0 && e & HUGE_PAGE == 0 {
        let rest = tables(mem, e & ADDRESS_MASK, level - 1, addr);
        path_in_memory(mem, e & ADDRESS_MASK, level - 1, addr);
        assert forall|k: int| 0 <= k < path.len() implies frame_ok(
            mem.len(),
            #[trigger] path[k],
        ) by {
            if k > 0 {
                assert(path[k] == rest[k - 1]);
            }
        }
    }
}

/// The entry of a page of 4 KiB is in the last table on the way.
proof fn walk_end(mem: Seq<u8>, table: u64, level: int, addr: u64)
    requires
        walk(mem, table, level, addr) matches Some(m) && m.level == 1,
        level >= 1,
        mem.len() <= u64::MAX,
    ensures
        ({
            let m = walk(mem, table, level, addr)->0;
            let last = tables(mem, table, level, addr).last();
            &&& m.at == last + 8 * table_index(addr, 1)
            &&& m.entry == entry(mem, last, table_index(addr, 1))
            &&& frame_ok(mem.len(), last)
        }),
    decreases level,
{
    let e = entry(mem, table, table_index(addr, level));
    if level > 1 {
        let rest = tables(mem, e & ADDRESS_MASK, level - 1, addr);
        path_is_some(mem, e & ADDRESS_MASK, level - 1, addr);
        assert((seq![table] + rest).last() == rest.last());
        walk_end(mem, e & ADDRESS_MASK, level - 1, addr);
    }
}

/// What is found at the end of the way if only the entry there has changed.
proof fn walk_to_changed_entry(
    mem: Seq<u8>,
    now: Seq<u8>,
    table: u64,
    level: int,
    addr: u64,
    e: u64,
)
    requires
        level >= 1,
        walk(mem, table, level, addr) matches Some(m) && m.level == 1,
        now.len() == mem.len(),
        mem.len() <= u64::MAX,
        forall|k: int|
            0 <= k < tables(mem, table, level, addr).len() - 1 ==> agree_on(
                mem,
                now,
                #[trigger] tables(mem, table, level, addr)[k],
            ),
        entry(now, tables(mem, table, level, addr).last(), table_index(addr, 1)) == e,
        e != 0,
    ensures
        ({
            let m = walk(mem, table, level, addr)->0;
            walk(now, table, level, addr) == Some(Mapped { at: m.at, entry: e, level: 1 })
        }),
    decreases level,
{
    let path = tables(mem, table, level, addr);
    let i = table_index(addr, level);
    let next = entry(mem, table, i);
    if level > 1 {
        let rest = tables(mem, next & ADDRESS_MASK, level - 1, addr);
        assert(path == seq![table] + rest);
        path_is_some(mem, next & ADDRESS_MASK, level - 1, addr);
        assert forall|k: int| 0 <= k < rest.len() - 1 implies agree_on(
            mem,
            now,
            #[trigger] rest[k],
        ) by {
            assert(path[k + 1] == rest[k]);
        }
        assert(path.last() == rest.last());
        assert(path[0] == table);
        assert(agree_on(mem, now, path[0]));
        same_word(mem, now, table + 8 * i);
        walk_to_changed_entry(mem, now, next & ADDRESS_MASK, level - 1, addr, e);
    }
}

/// Where the entry of a page of 4 KiB is: in the last of the tables on the
/// way, all of which are in memory.
pub proof fn entry_is_in_last_table(mem: Seq<u8>, pml4: u64, addr: u64)
    requires
        mapped(mem, pml4, addr) matches Some(m) && m.level == 1,
        mem.len() <= u64::MAX,
    ensures
        ({
            let m = mapped(mem, pml4, addr)->0;
            let path = tables(mem, pml4, 4, addr);
            &&& path.len() >= 1
            &&& m.at == path.last() + 8 * table_index(addr, 1)
            &&& forall|k: int| 0 <= k < path.len() ==> frame_ok(mem.len(), #[trigger] path[k])
        }),
{
    reveal(mapped);
    path_is_some(mem, pml4, 4, addr);
    path_in_memory(mem, pml4, 4, addr);
    walk_end(mem, pml4, 4, addr);
}

/// What maps an address once its entry has been changed, and nothing else in
/// the tables on the way.
pub proof fn changed_entry_is_found(mem: Seq<u8>, now: Seq<u8>, pml4: u64, addr: u64, e: u64)
    requires
        mapped(mem, pml4, addr) matches Some(m) && m.level == 1,
        now.len() == mem.len(),
        mem.len() <= u64::MAX,
        forall|k: int|
            0 <= k < tables(mem, pml4, 4, addr).len() - 1 ==> agree_on(
                mem,
                now,
                #[trigger] tables(mem, pml4, 4, addr)[k],
            ),
        entry(now, tables(mem, pml4, 4, addr).last(), table_index(addr, 1)) == e,
        e != 0,
    ensures
        mapped(now, pml4, addr) == Some(
            Mapped { at: (mapped(mem, pml4, addr)->0).at, entry: e, level: 1 },
        ),
{
    reveal(mapped);
    walk_to_changed_entry(mem, now, pml4, 4, addr, e);
}

/// Bytes that one entry of a page table of that level covers.
fn reach_of(level: u64) -> (r: u64)
    ensures
        r == reach(level as int),
{
    if level >= 4 {
        0x80_0000_0000
    } else if level == 3 {
        0x4000_0000
    } else if level == 2 {
        0x20_0000
    } else {
        0x1000
    }
}

/// Find the entry that maps `addr` in the address space whose top-level
/// table is in frame `pml4`.
pub fn find_entry(mem: &[u8], pml4: u64, addr: u64) -> (r: Option<Mapped>)
    ensures
        r == mapped(mem@, pml4, addr),
        r matches Some(m) ==> 1 <= m.level <= 3 && m.at % 8 == 0 && m.at + 8 <= mem@.len(),
{
    reveal(mapped);
    if !is_canonical(addr) {
        return None;
    }
    let len: usize = mem.len();
    let mut table: u64 = pml4;
    let mut level: u64 = 4;
    while level > 0
        invariant
            0 <= level <= 4,
            len == mem@.len(),
            canonical(addr),
            mapped(mem@, pml4, addr) == walk(mem@, table, level as int, addr),
        decreases level,
    {
        if !is_frame(len, table) {
            return None;
        }
        let i: usize = (addr / reach_of(level) % 512) as usize;
        let e: u64 = read_entry(mem, table, i);
        assert(i == table_index(addr, level as int));
        if e == 0 {
            return None;
        }
        if level == 1 {
            return Some(Mapped { at: table + 8 * i as u64, entry: e, level });
        }
        if e & PRESENT == 0 {
            return None;
        }
        if e & HUGE_PAGE != 0 {
            if level == 4 {
                return None;
            }
            return Some(Mapped { at: table + 8 * i as u64, entry: e, level });
        }
        table = e & ADDRESS_MASK;
        level = level - 1;
    }
    None
}

/// The physical address of the page that holds `addr`, if it is mapped to
/// memory.
pub fn page_of(mem: &[u8], m: &Mapped, addr: u64) -> (r: Option<u64>)
    ensures
        r == (if m.page(addr) + PAGE_SIZE <= mem@.len() {
            Some(m.page(addr) as u64)
        } else {
            None
        }),
        m.page(addr) >= 0,
{
    let len: usize = mem.len();
    let size: u64 = reach_of(m.level);
    let e: u64 = m.entry;
    assert(e & 0x000f_ffff_ffff_f000 <= 0x000f_ffff_ffff_f000) by (bit_vector);
    let frame: u64 = e & ADDRESS_MASK;
    assert(0 <= frame as int / size as int * size as int <= frame) by (nonlinear_arith)
        requires
            0 <= frame,
            0 < size,
    ;
    let page: u64 = frame / size * size + addr % size / 4096 * 4096;
    if len as u64 >= PAGE_SIZE && page <= len as u64 - PAGE_SIZE {
        Some(page)
    } else {
        None
    }
}

/// Where the `n` pages from page number `first` on are.
pub open spec fn pages_from(mem: Seq<u8>, pml4: u64, first: u64, n: int) -> Seq<Option<u64>> {
    Seq::new(n as nat, |k: int| page_at(mem, pml4, ((first + k) * 4096) as u64))
}

/// What an address space has where the `len` bytes at `addr` are.
pub open spec fn seen(mem: Seq<u8>, pml4: u64, addr: u64, len: int) -> WindowModel {
    let first = addr / 4096;
    let last = if len > 0 { (addr + len - 1) / 4096 } else { addr as int / 4096 };
    WindowModel { first_page: first, pages: pages_from(mem, pml4, first, last - first + 1) }
}

/// What an address space has where the `len` bytes at `addr` are.
pub fn window(mem: &[u8], pml4: u64, addr: u64, len: usize) -> (w: Window)
    requires
        addr + len <= u64::MAX,
    ensures
        w@ == seen(mem@, pml4, addr, len as int),
        w@.covers(addr as int, len as int, mem@.len()),
{
    let first_page: u64 = addr / 4096;
    let last: u64 = if len > 0 {
        (addr + (len as u64 - 1)) / 4096
    } else {
        first_page
    };
    let mut pages: Vec<Option<u64>> = Vec::new();
    let mut n: u64 = first_page;
    while n <= last
        invariant
            first_page <= n <= last + 1,
            last <= 0xf_ffff_ffff_ffff,
            pages@ == pages_from(mem@, pml4, first_page, n - first_page),
            forall|k: int|
                0 <= k < pages@.len() && (#[trigger] pages@[k]) is Some ==> (pages@[k]->0)
                    + PAGE_SIZE <= mem@.len(),
        decreases last + 1 - n,
    {
        let at: u64 = n * 4096;
        let page: Option<u64> = match find_entry(mem, pml4, at) {
            Some(m) => page_of(mem, &m, at),
            None => None,
        };
        assert(page == page_at(mem@, pml4, at));
        pages.push(page);
        n = n + 1;
        assert(pages@ =~= pages_from(mem@, pml4, first_page, n - first_page));
    }
    Window { first_page, pages }
}

/// A page is at the start of a frame.
proof fn page_is_aligned(m: Mapped, addr: u64)
    ensures
        m.page(addr) % 4096 == 0,
        m.page(addr) >= 0,
{
    let size = reach(m.level as int);
    let q = (m.entry & ADDRESS_MASK) as int / size;
    let k = size / 4096;
    let r = addr as int % size / 4096;
    assert(size == 4096 * k);
    assert(q * size == 4096 * (q * k)) by (nonlinear_arith)
        requires
            size == 4096 * k,
    ;
    assert(q * size >= 0) by (nonlinear_arith)
        requires
            q >= 0,
            size > 0,
    ;
    assert((4096 * (q * k) + r * 4096) % 4096 == 0);
}

/// The pages of a window are at the start of frames.
pub proof fn pages_are_aligned(mem: Seq<u8>, pml4: u64, addr: u64, len: int)
    requires
        mem.len() <= u64::MAX,
    ensures
        aligned(seen(mem, pml4, addr, len)),
{
    let w = seen(mem, pml4, addr, len);
    assert forall|i: int| 0 <= i < w.pages.len() && (#[trigger] w.pages[i]) is Some implies (
    w.pages[i]->0) % 4096 == 0 by {
        let at = ((w.first_page + i) * 4096) as u64;
        page_is_aligned(mapped(mem, pml4, at)->0, at);
    }
}

/// The entries that map pages of 4 KiB, under the first `n` entries of the
/// table in frame `t`.
pub open spec fn leaves_below(mem: Seq<u8>, t: u64, level: nat, n: int) -> Seq<Mapped>
    decreases level, n,
{
    if n <= 0 || level == 0 || !frame_ok(mem.len(), t) {
        Seq::empty()
    } else {
        let before = leaves_below(mem, t, level, n - 1);
        let e = entry(mem, t, n - 1);
        match entry_frame(e) {
            Some(f) => before + (if level > 1 {
                leaves_below(mem, f, (level - 1) as nat, 512)
            } else {
                seq![Mapped { at: (t + 8 * (n - 1)) as u64, entry: e, level: 1 }]
            }),
            None => before,
        }
    }
}

/// The entries that map pages of 4 KiB, under the first `n` entries of the
/// top-level table `pml4` that `base` does not use.
pub open spec fn private_leaves(mem: Seq<u8>, pml4: u64, base: u64, n: int) -> Seq<Mapped>
    decreases n,
{
    if n <= 0 {
        Seq::empty()
    } else {
        let before = private_leaves(mem, pml4, base, n - 1);
        let e = entry(mem, pml4, n - 1);
        if e != 0 && entry(mem, base, n - 1) == 0 && entry_frame(e) is Some {
            before + leaves_below(mem, entry_frame(e)->0, 3, 512)
        } else {
            before
        }
    }
}

/// An entry of a table is a word.
proof fn entry_is_a_word(t: u64, i: int)
    requires
        t % 4096 == 0,
    ensures
        (t + 8 * i) % 8 == 0,
{
}

/// Append the entries that map pages of 4 KiB under the table in frame `t`.
fn collect(mem: &[u8], t: u64, level: u64, found: &mut Vec<Mapped>)
    requires
        level <= 3,
        forall|k: int|
            0 <= k < old(found)@.len() ==> (#[trigger] old(found)@[k]).at + 8 <= mem@.len() && old(
                found,
            )@[k].at % 8 == 0,
    ensures
        final(found)@ == old(found)@ + leaves_below(mem@, t, level as nat, 512),
        forall|k: int|
            0 <= k < final(found)@.len() ==> (#[trigger] final(found)@[k]).at + 8 <= mem@.len()
                && final(found)@[k].at % 8 == 0,
    decreases level,
{
    let len: usize = mem.len();
    let ghost before = found@;
    if level == 0 || !is_frame(len, t) {
        assert(found@ =~= before + leaves_below(mem@, t, level as nat, 512));
        return ;
    }
    let mut i: usize = 0;
    assert(found@ =~= before + leaves_below(mem@, t, level as nat, 0));
    while i < ENTRIES
        invariant
            i <= ENTRIES,
            0 < level <= 3,
            len == mem@.len(),
            frame_ok(mem@.len(), t),
            found@ == before + leaves_below(mem@, t, level as nat, i as int),
            forall|k: int|
                0 <= k < found@.len() ==> (#[trigger] found@[k]).at + 8 <= mem@.len()
                    && found@[k].at % 8 == 0,
        decreases ENTRIES - i,
    {
        let e: u64 = read_entry(mem, t, i);
        let ghost below = leaves_below(mem@, t, level as nat, i as int);
        let ghost next = leaves_below(mem@, t, level as nat, i + 1);
        match frame_of(e) {
            Some(f) => {
                if level > 1 {
                    collect(mem, f, level - 1, found);
                    assert(found@ =~= before + next);
                } else {
                    proof {
                        entry_is_a_word(t, i as int);
                    }
                    found.push(Mapped { at: t + 8 * i as u64, entry: e, level: 1 });
                    assert(found@ =~= before + next);
                }
            },
            None => {
                assert(next == below);
            },
        }
        i = i + 1;
    }
}

/// The entries that map pages of 4 KiB in the address space `pml4`, in slots
/// that `base` does not use.
pub fn leaves(mem: &[u8], pml4: u64, base: u64) -> (found: Vec<Mapped>)
    requires
        frame_ok(mem@.len(), pml4),
        frame_ok(mem@.len(), base),
    ensures
        found@ == private_leaves(mem@, pml4, base, 512),
        forall|k: int|
            0 <= k < found@.len() ==> (#[trigger] found@[k]).at + 8 <= mem@.len() && found@[k].at % 8
                == 0,
{
    let mut found: Vec<Mapped> = Vec::new();
    let mut i: usize = 0;
    while i < ENTRIES
        invariant
            i <= ENTRIES,
            frame_ok(mem@.len(), pml4),
            frame_ok(mem@.len(), base),
            found@ == private_leaves(mem@, pml4, base, i as int),
            forall|k: int|
                0 <= k < found@.len() ==> (#[trigger] found@[k]).at + 8 <= mem@.len()
                    && found@[k].at % 8 == 0,
        decreases ENTRIES - i,
    {
        let e: u64 = read_entry(mem, pml4, i);
        if e != 0 && read_entry(mem, base, i) == 0 {
            match frame_of(e) {
                Some(f) => {
                    collect(mem, f, 3, &mut found);
                },
                None => {},
            }
        }
        i = i + 1;
    }
    found
}

/// An entry that the way to an address ends at is under the table it starts
/// from.
proof fn leaf_is_below(mem: Seq<u8>, t: u64, level: int, addr: u64, n: int)
    requires
        walk(mem, t, level, addr) matches Some(m) && m.level == 1 && entry_frame(m.entry) is Some,
        table_index(addr, level) < n,
        1 <= level,
    ensures
        leaves_below(mem, t, level as nat, n).contains(walk(mem, t, level, addr)->0),
    decreases level, n,
{
    let m = walk(mem, t, level, addr)->0;
    let i = table_index(addr, level);
    let all = leaves_below(mem, t, level as nat, n);
    let before = leaves_below(mem, t, level as nat, n - 1);
    if i < n - 1 {
        leaf_is_below(mem, t, level, addr, n - 1);
        let k = choose|k: int| 0 <= k < before.len() && before[k] == m;
        assert(all[k] == m);
    } else {
        let e = entry(mem, t, i);
        if level > 1 {
            let rest = leaves_below(mem, e & ADDRESS_MASK, (level - 1) as nat, 512);
            leaf_is_below(mem, e & ADDRESS_MASK, level - 1, addr, 512);
            let k = choose|k: int| 0 <= k < rest.len() && rest[k] == m;
            assert(all[before.len() + k] == m);
        } else {
            assert(all[before.len() as int] == m);
        }
    }
}

/// The entry of every page that is mapped in a slot of its own is found when
/// the address space is taken down.
pub proof fn mapped_page_is_a_leaf(mem: Seq<u8>, pml4: u64, base: u64, addr: u64, n: int)
    requires
        mapped(mem, pml4, addr) matches Some(m) && m.level == 1 && entry_frame(m.entry) is Some,
        entry(mem, base, p4_slot(addr)) == 0,
        p4_slot(addr) < n,
    ensures
        private_leaves(mem, pml4, base, n).contains(mapped(mem, pml4, addr)->0),
    decreases n,
{
    reveal(mapped);
    let m = mapped(mem, pml4, addr)->0;
    let i = p4_slot(addr);
    assert(i == table_index(addr, 4));
    let all = private_leaves(mem, pml4, base, n);
    let before = private_leaves(mem, pml4, base, n - 1);
    if i < n - 1 {
        mapped_page_is_a_leaf(mem, pml4, base, addr, n - 1);
        let k = choose|k: int| 0 <= k < before.len() && before[k] == m;
        assert(all[k] == m);
    } else {
        let e = entry(mem, pml4, i);
        let rest = leaves_below(mem, e & ADDRESS_MASK, 3, 512);
        leaf_is_below(mem, e & ADDRESS_MASK, 3, addr, 512);
        let k = choose|k: int| 0 <= k < rest.len() && rest[k] == m;
        assert(all[before.len() + k] == m);
    }
}

} // verus!
