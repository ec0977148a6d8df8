//! Questions about the process table, and the address space and heap of a
//! process.
use vstd::prelude::*;

use crate::com;
use crate::com::{slot, slot_of};
use crate::memory::map::{segment_at, with_segment, MemMap, MAX_SEGMENTS};
use crate::memory::paging::p4_slot;
use crate::proc::model::{
    count_below, first_from, in_table, AddressSpace, Proc, SchedModel, HEAP_BASE, HEAP_MAX, NR_PROCS,
};
use crate::proc::rts;
use crate::proc::rts::flagged;
use crate::proc::scheduler::Scheduler;
use crate::proc::soundness::{holds_process, put_same_sound, slot_ok, sound};

verus! {

impl SchedModel {
    /// Whether `proc_nr` names a slot in use.
    pub open spec fn valid_nr(self, proc_nr: i32) -> bool {
        &&& -com::NR_TASKS <= proc_nr
        &&& proc_nr + com::NR_TASKS < com::NR_PROC_SLOTS
        &&& !flagged(self.flags(slot_of(proc_nr)), rts::SLOT_FREE)
    }

    /// The generation of the process in `proc_nr`'s slot, if there is one.
    pub open spec fn generation_at(self, proc_nr: i32) -> Option<u32> {
        if self.valid_nr(proc_nr) {
            Some(self.generations[slot_of(proc_nr)])
        } else {
            None
        }
    }

    /// The slot whose memory map and break count for slot `i`: its leader's,
    /// or its own if it has none.
    pub open spec fn owner_of(self, i: int) -> int {
        if self.procs[i].team == com::NONE {
            i
        } else {
            slot_of(self.procs[i].team)
        }
    }
}

/// Whether `proc_nr` names a process-table slot that is in use.
pub fn is_valid_proc_nr(sched: &Scheduler, proc_nr: i32) -> (r: bool)
    requires
        sched.wf(),
    ensures
        r == sched@.valid_nr(proc_nr),
{
    if proc_nr < -(com::NR_TASKS as i32) || proc_nr >= com::NR_PROC_SLOTS as i32 - com::NR_TASKS as i32 {
        return false;
    }
    sched.at(slot(proc_nr)).rts_flags & rts::SLOT_FREE == 0
}

/// The generation of the process in `proc_nr`'s slot, or `None` if the
/// number names none. Two calls with the same answer mean the same process.
pub fn generation_of(sched: &Scheduler, proc_nr: i32) -> (r: Option<u32>)
    requires
        sched.wf(),
    ensures
        r == sched@.generation_at(proc_nr),
{
    if is_valid_proc_nr(sched, proc_nr) {
        Some(sched.generation(slot(proc_nr)))
    } else {
        None
    }
}

/// The number of the running process.
pub fn current_proc_nr(sched: &Scheduler) -> (r: i32)
    requires
        sched.wf(),
    ensures
        r == sched@.procs[sched@.current].proc_nr,
{
    sched.at(sched.current_slot()).proc_nr
}

/// The leader of `proc_nr`'s team.
pub fn team_of(sched: &Scheduler, proc_nr: i32) -> (r: i32)
    requires
        sched.wf(),
        in_table(proc_nr),
    ensures
        r == sched@.procs[slot_of(proc_nr)].team,
{
    sched.at(slot(proc_nr)).team
}

/// The leader of `proc_nr`'s team and the leader's generation: what names
/// the team for ever, also when the number is used again.
pub fn team_identity(sched: &Scheduler, proc_nr: i32) -> (r: Option<(i32, u32)>)
    requires
        sched.wf(),
    ensures
        r == (if sched@.valid_nr(proc_nr) {
            let team = sched@.procs[slot_of(proc_nr)].team;
            match sched@.generation_at(team) {
                Some(g) => Some((team, g)),
                None => None,
            }
        } else {
            None
        }),
{
    if !is_valid_proc_nr(sched, proc_nr) {
        return None;
    }
    let team: i32 = team_of(sched, proc_nr);
    match generation_of(sched, team) {
        Some(g) => Some((team, g)),
        None => None,
    }
}

/// How many members of the team led by `team` have not exited.
pub open spec fn running_members(m: SchedModel, team: i32) -> nat {
    count_below(
        NR_PROCS as int,
        |i: int| m.is_member(i, team) && !flagged(m.flags(i), rts::ZOMBIE),
    )
}

/// How many members `proc_nr`'s team has that have not exited.
pub fn team_size(sched: &Scheduler, proc_nr: i32) -> (r: usize)
    requires
        sched.wf(),
        in_table(proc_nr),
    ensures
        r == running_members(sched@, sched@.procs[slot_of(proc_nr)].team),
{
    let team: i32 = team_of(sched, proc_nr);
    let ghost f = |i: int| sched@.is_member(i, team) && !flagged(sched@.flags(i), rts::ZOMBIE);
    let mut n: usize = 0;
    let mut i: usize = 0;
    while i < NR_PROCS
        invariant
            i <= NR_PROCS,
            n <= i,
            sched.wf(),
            f == (|i: int| sched@.is_member(i, team) && !flagged(sched@.flags(i), rts::ZOMBIE)),
            n == count_below(i as int, f),
        decreases NR_PROCS - i,
    {
        if sched.is_member(i, team) && sched.at(i).rts_flags & rts::ZOMBIE == 0 {
            n = n + 1;
        }
        i = i + 1;
    }
    n
}

/// The memory map of `proc_nr`'s team.
pub fn mem_map_of(sched: &Scheduler, proc_nr: i32) -> (r: MemMap)
    requires
        sched.wf(),
        in_table(proc_nr),
    ensures
        r == sched@.procs[sched@.owner_of(slot_of(proc_nr))].mem_map,
        r.wf(),
{
    let idx: usize = slot(proc_nr);
    let team: i32 = sched.at(idx).team;
    assert(slot_ok(sched@.procs[idx as int], idx as int, sched@.sem_seq));
    let owner: usize = if team == com::NONE {
        idx
    } else {
        slot(team)
    };
    assert(slot_ok(sched@.procs[owner as int], owner as int, sched@.sem_seq));
    sched.at(owner).mem_map
}

/// What a child of `proc_nr` inherits: priority, quantum, preemptibility.
pub fn sched_params_of(sched: &Scheduler, proc_nr: i32) -> (r: (u8, i32, bool))
    requires
        sched.wf(),
        in_table(proc_nr),
    ensures
        ({
            let p = sched@.procs[slot_of(proc_nr)];
            r == (p.max_priority, p.quantum_size, p.preemptible)
        }),
{
    let p = sched.at(slot(proc_nr));
    (p.max_priority, p.quantum_size, p.preemptible)
}

/// The process `parent` forked, in the lowest slot, if it still has one.
pub fn child_of(sched: &Scheduler, parent: i32) -> (r: Option<i32>)
    requires
        sched.wf(),
    ensures
        r == (match first_from(
            0,
            NR_PROCS as int,
            |i: int| sched@.procs[i].parent == parent && !flagged(sched@.flags(i), rts::SLOT_FREE),
        ) {
            Some(i) => Some(sched@.procs[i].proc_nr),
            None => None,
        }),
{
    let ghost f = |i: int|
        sched@.procs[i].parent == parent && !flagged(sched@.flags(i), rts::SLOT_FREE);
    let mut i: usize = 0;
    while i < NR_PROCS
        invariant
            i <= NR_PROCS,
            sched.wf(),
            f == (|i: int|
                sched@.procs[i].parent == parent && !flagged(sched@.flags(i), rts::SLOT_FREE)),
            first_from(0, NR_PROCS as int, f) == first_from(i as int, NR_PROCS as int, f),
        decreases NR_PROCS - i,
    {
        let p = sched.at(i);
        if p.parent == parent && p.rts_flags & rts::SLOT_FREE == 0 {
            return Some(p.proc_nr);
        }
        i = i + 1;
    }
    None
}

/// Page table and flags that `proc_nr` runs with.
pub fn cr3_of(sched: &Scheduler, proc_nr: i32) -> (r: (u64, u64))
    requires
        sched.wf(),
        in_table(proc_nr),
    ensures
        r == sched@.space_of(slot_of(proc_nr)),
{
    sched.cr3_for(slot(proc_nr))
}

/// The page table of the kernel's own address space.
pub fn kernel_cr3(sched: &Scheduler) -> (r: u64)
    ensures
        r == sched@.kernel_cr3.0,
{
    sched.kernel_space().0
}

/// What an exec replaced: the address space to free, and the flags to load
/// the new one with if its process is running.
#[derive(Clone, Copy)]
pub struct Replaced {
    pub previous: Option<u64>,
    pub load_now: Option<u64>,
}

/// Point `proc_nr` at a different address space, with an empty heap.
pub fn set_address_space(sched: &mut Scheduler, proc_nr: i32, address_space: AddressSpace) -> (r:
    Replaced)
    requires
        old(sched).wf(),
        in_table(proc_nr),
        address_space.map.wf(),
    ensures
        final(sched).wf(),
        ({
            let m = old(sched)@;
            let i = slot_of(proc_nr);
            &&& final(sched)@ == m.put(
                i,
                (Proc {
                    cr3: Some(address_space.pml4),
                    mem_map: address_space.map,
                    brk: HEAP_BASE,
                    ..m.procs[i]
                }),
            )
            &&& r.previous == m.procs[i].cr3
            &&& r.load_now == (if m.current == i {
                Some(m.kernel_cr3.1)
            } else {
                None
            })
        }),
{
    let idx: usize = slot(proc_nr);
    let mut p = sched.at(idx);
    let previous = p.cr3;
    p.cr3 = Some(address_space.pml4);
    p.mem_map = address_space.map;
    p.brk = HEAP_BASE;
    proof {
        put_same_sound(sched@, Set::empty(), idx as int, p);
    }
    sched.put(idx, p);
    let load_now: Option<u64> = if sched.current_slot() == idx {
        Some(sched.kernel_space().1)
    } else {
        None
    };
    Replaced { previous, load_now }
}

/// Pages that a heap up to `end` takes.
pub open spec fn heap_pages(end: u64) -> int {
    (end - HEAP_BASE + 4095) / 4096
}

/// What has to happen before the break can move.
#[derive(Clone, Copy, Debug, PartialEq, Eq, Structural)]
pub enum BrkPlan {
    /// Nothing to move: this is where the break is.
    Query(u64),
    /// The request cannot be met.
    Refuse,
    /// Map `pages` zeroed pages from `from` on, then `set_brk`.
    Grow { pml4: u64, from: u64, pages: u64 },
    /// Unmap and release `pages` pages from `from` on, then `set_brk`.
    Shrink { pml4: u64, from: u64, pages: u64 },
    /// Only `set_brk`: the pages stay the same.
    Keep,
}

impl SchedModel {
    /// What has to happen before the break of the running process's team can
    /// move to `new_end`.
    pub open spec fn brk_plan(self, new_end: u64) -> BrkPlan {
        let leader = self.owner_of(self.current);
        let p = self.procs[leader];
        let old_pages = heap_pages(p.brk);
        let new_pages = heap_pages(new_end);
        if new_end == 0 {
            BrkPlan::Query(p.brk)
        } else if self.procs[self.current].cr3 is None || new_end < HEAP_BASE || new_end > HEAP_BASE
            + HEAP_MAX || (segment_at(p.mem_map@, HEAP_BASE) >= p.mem_map@.len() && p.mem_map@.len()
            >= MAX_SEGMENTS) {
            BrkPlan::Refuse
        } else if new_pages > old_pages {
            BrkPlan::Grow {
                pml4: self.procs[self.current].cr3->0,
                from: (HEAP_BASE + old_pages * 4096) as u64,
                pages: (new_pages - old_pages) as u64,
            }
        } else if new_pages < old_pages {
            BrkPlan::Shrink {
                pml4: self.procs[self.current].cr3->0,
                from: (HEAP_BASE + new_pages * 4096) as u64,
                pages: (old_pages - new_pages) as u64,
            }
        } else {
            BrkPlan::Keep
        }
    }
}

/// Move the break of the running process's team to `new_end`: what has to
/// happen first. Zero just asks where it is.
pub fn brk(sched: &Scheduler, new_end: u64) -> (r: BrkPlan)
    requires
        sched.wf(),
    ensures
        r == sched@.brk_plan(new_end),
{
    let me: usize = sched.current_slot();
    let p = sched.at(me);
    assert(slot_ok(sched@.procs[me as int], me as int, sched@.sem_seq));
    let leader: usize = if p.team == com::NONE {
        me
    } else {
        slot(p.team)
    };
    assert(slot_ok(sched@.procs[leader as int], leader as int, sched@.sem_seq));
    let l = sched.at(leader);
    if new_end == 0 {
        return BrkPlan::Query(l.brk);
    }
    match p.cr3 {
        None => BrkPlan::Refuse,
        Some(pml4) => {
            if new_end < HEAP_BASE || new_end > HEAP_BASE + HEAP_MAX || !l.mem_map.can_set_segment(
                HEAP_BASE,
            ) {
                return BrkPlan::Refuse;
            }
            let old_pages: u64 = (l.brk - HEAP_BASE + 4095) / 4096;
            let new_pages: u64 = (new_end - HEAP_BASE + 4095) / 4096;
            if new_pages > old_pages {
                BrkPlan::Grow {
                    pml4,
                    from: HEAP_BASE + old_pages * 4096,
                    pages: new_pages - old_pages,
                }
            } else if new_pages < old_pages {
                BrkPlan::Shrink {
                    pml4,
                    from: HEAP_BASE + new_pages * 4096,
                    pages: old_pages - new_pages,
                }
            } else {
                BrkPlan::Keep
            }
        },
    }
}

/// Record that the break of the running process's team is at `new_end`, and
/// its heap pages in its memory map.
pub fn set_brk(sched: &mut Scheduler, new_end: u64)
    requires
        old(sched).wf(),
        old(sched)@.brk_plan(new_end) is Grow || old(sched)@.brk_plan(new_end) is Shrink
            || old(sched)@.brk_plan(new_end) is Keep,
    ensures
        final(sched).wf(),
        ({
            let m = old(sched)@;
            let l = m.owner_of(m.current);
            let map = final(sched)@.procs[l].mem_map;
            &&& final(sched)@ == m.put(
                l,
                (Proc { brk: new_end, mem_map: map, ..m.procs[l] }),
            )
            &&& map@ == with_segment(m.procs[l].mem_map@, HEAP_BASE, heap_pages(new_end) as usize)
        }),
{
    let me: usize = sched.current_slot();
    let p = sched.at(me);
    assert(slot_ok(sched@.procs[me as int], me as int, sched@.sem_seq));
    let leader: usize = if p.team == com::NONE {
        me
    } else {
        slot(p.team)
    };
    assert(slot_ok(sched@.procs[leader as int], leader as int, sched@.sem_seq));
    let mut l = sched.at(leader);
    let new_pages: u64 = (new_end - HEAP_BASE + 4095) / 4096;
    let mut map = l.mem_map;
    let _room: bool = map.set_segment(HEAP_BASE, new_pages as usize);
    l.mem_map = map;
    l.brk = new_end;
    proof {
        put_same_sound(sched@, Set::empty(), leader as int, l);
    }
    sched.put(leader, l);
}

/// After a move of the break, asking where it is gives the new end, and the
/// heap segment of the team's memory map covers exactly the bytes up to it.
pub proof fn brk_moved(m: SchedModel, n: SchedModel, new_end: u64)
    requires
        sound(m),
        sound(n),
        m.brk_plan(new_end) is Grow || m.brk_plan(new_end) is Shrink || m.brk_plan(new_end) is Keep,
        ({
            let l = m.owner_of(m.current);
            n == m.put(l, (Proc { brk: new_end, mem_map: n.procs[l].mem_map, ..m.procs[l] }))
        }),
    ensures
        n.brk_plan(0) == BrkPlan::Query(new_end),
        heap_pages(new_end) * 4096 >= new_end - HEAP_BASE,
        heap_pages(new_end) * 4096 < new_end - HEAP_BASE + 4096,
{
    let c = m.current;
    assert(slot_ok(m.procs[c], c, m.sem_seq));
    assert(n.owner_of(n.current) == m.owner_of(m.current));
}

/// Give `child` the break of `parent`'s team.
pub fn inherit_brk(sched: &mut Scheduler, child: i32, parent: i32)
    requires
        old(sched).wf(),
        in_table(child),
        in_table(parent),
        holds_process(old(sched)@.procs[slot_of(parent)]),
    ensures
        final(sched).wf(),
        ({
            let m = old(sched)@;
            let i = slot_of(child);
            final(sched)@ == m.put(
                i,
                (Proc {
                    brk: m.procs[slot_of(m.procs[slot_of(parent)].team)].brk,
                    ..m.procs[i]
                }),
            )
        }),
{
    let team: i32 = sched.at(slot(parent)).team;
    let s = Ghost(slot_of(parent));
    assert(slot_ok(sched@.procs[s@], s@, sched@.sem_seq));
    let brk: u64 = sched.at(slot(team)).brk;
    let t = Ghost(slot_of(team));
    assert(slot_ok(sched@.procs[t@], t@, sched@.sem_seq));
    let idx: usize = slot(child);
    let mut p = sched.at(idx);
    p.brk = brk;
    proof {
        put_same_sound(sched@, Set::empty(), idx as int, p);
    }
    sched.put(idx, p);
}

/// Every heap lies in one slot of the top-level page table, which is neither
/// the first one nor that of the kernel's own heap, of a program's stack, or
/// of the demo programs.
pub proof fn heap_has_a_slot_of_its_own(addr: u64)
    requires
        HEAP_BASE <= addr < HEAP_BASE + HEAP_MAX,
    ensures
        p4_slot(addr) == p4_slot(HEAP_BASE),
        p4_slot(addr) != 0,
        p4_slot(addr) != p4_slot(crate::allocator::HEAP_START),
        p4_slot(addr) != p4_slot(crate::elf::check::STACK_ADDR),
        p4_slot(addr) != p4_slot(crate::usermode::USER_CODE_ADDR),
        p4_slot(addr) != p4_slot(crate::usermode::USER_STACK_ADDR),
{
}

} // verus!
