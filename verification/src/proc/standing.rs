//! Who is who in the process table, and what each runs with.
use vstd::prelude::*;

use crate::com;
use crate::com::slot_of;
use crate::memory::map::MemMap;
use crate::proc::births::{below, first_holds};
use crate::proc::clock::{switches, Switch};
use crate::proc::farewells::{ends_alone, space_is_freed_by_the_last_user};
use crate::proc::model::{
    count_below, in_table, next_port_generation, Proc, SchedModel, NR_PROCS, NR_SEMS,
};
use crate::proc::queries::running_members;
use crate::proc::rts;
use crate::proc::rts::flagged;
use crate::proc::scheduler::{boot_model, next_generation};
use crate::proc::soundness::{holds_process, slot_ok, sound};

verus! {

/// A switch goes to the process that is next, with its own saved stack
/// pointer and entry point, in its own address space if it has one and in
/// the kernel's otherwise, always with the kernel's flags.
pub proof fn switch_loads_what_the_process_runs_with(m: SchedModel, n: int, s: Switch)
    requires
        sound(m),
        0 <= n < NR_PROCS,
        switches(m, n, s),
    ensures
        s.prev == m.current,
        s.next == n,
        s.rsp == m.procs[n].rsp,
        s.entry == m.procs[n].entry,
        m.procs[n].cr3 matches Some(own) ==> s.cr3 == own,
        m.procs[n].cr3 is None ==> s.cr3 == m.kernel_cr3.0,
        s.cr3_flags == m.kernel_cr3.1,
{
}

/// A number is valid exactly if it is that of a kernel task, a fixed process
/// or one of the dynamic range, and its slot is in use.
pub proof fn valid_numbers_name_slots_in_use(m: SchedModel, nr: i32)
    requires
        sound(m),
    ensures
        m.valid_nr(nr) <==> -4 <= nr <= 28 && !flagged(m.procs[nr + 4].rts_flags, rts::SLOT_FREE),
{
    if -4 <= nr <= 28 {
        assert(slot_of(nr) == nr + 4);
    }
}

/// A member of a team is a process of that team, be it running, blocked or
/// ended and not collected; a free or a claimed slot is nobody's.
pub proof fn members_are_processes_of_the_team(m: SchedModel, i: int, team: i32)
    requires
        sound(m),
        0 <= i < NR_PROCS,
        in_table(team),
    ensures
        m.is_member(i, team) <==> holds_process(m.procs[i]) && m.procs[i].team == team,
        m.is_member(i, team) ==> m.procs[i].proc_nr == i - 4,
{
    assert(slot_ok(m.procs[i], i, m.sem_seq));
}

/// A team has another member than its leader exactly if some other slot
/// holds one.
pub proof fn other_members_are_members(m: SchedModel, team: i32, i: int)
    requires
        sound(m),
        in_table(team),
        0 <= i < NR_PROCS,
    ensures
        holds_process(m.procs[i]) && m.procs[i].team == team && i - 4 != team
            ==> m.has_other_members(team),
        m.has_other_members(team) ==> exists|j: int|
            0 <= j < NR_PROCS && j - 4 != team && holds_process(#[trigger] m.procs[j])
                && m.procs[j].team == team,
{
    assert(slot_of(team) == team + 4);
    if holds_process(m.procs[i]) && m.procs[i].team == team && i - 4 != team {
        assert(m.is_member(i, team));
    }
    if m.has_other_members(team) {
        let j = choose|j: int|
            0 <= j < NR_PROCS && j != slot_of(team) && #[trigger] m.is_member(j, team);
        assert(holds_process(m.procs[j]));
    }
}

proof fn counted(n: int, f: spec_fn(int) -> bool, a: int, b: int)
    requires
        0 <= n,
    ensures
        0 <= a < n && f(a) ==> count_below(n, f) >= 1,
        0 <= a < b < n && f(a) && f(b) ==> count_below(n, f) >= 2,
    decreases n,
{
    if n > 0 {
        counted(n - 1, f, a, b);
        if b == n - 1 {
            counted(n - 1, f, a, a);
        }
    }
}

proof fn two_counted(n: int, f: spec_fn(int) -> bool) -> (r: (int, int))
    requires
        0 <= n,
        count_below(n, f) >= 2,
    ensures
        0 <= r.0 < r.1 < n,
        f(r.0),
        f(r.1),
    decreases n,
{
    if f(n - 1) {
        if count_below(n - 1, f) >= 2 {
            two_counted(n - 1, f)
        } else {
            (one_counted(n - 1, f), n - 1)
        }
    } else {
        two_counted(n - 1, f)
    }
}

proof fn one_counted(n: int, f: spec_fn(int) -> bool) -> (i: int)
    requires
        0 <= n,
        count_below(n, f) >= 1,
    ensures
        0 <= i < n,
        f(i),
    decreases n,
{
    if f(n - 1) {
        n - 1
    } else {
        one_counted(n - 1, f)
    }
}

/// Whether slot `i` holds a member of `team` that has not ended.
pub open spec fn runs_in(m: SchedModel, i: int, team: i32) -> bool {
    &&& 0 <= i < NR_PROCS
    &&& holds_process(m.procs[i])
    &&& m.procs[i].team == team
    &&& !flagged(m.procs[i].rts_flags, rts::ZOMBIE)
}

/// A team counts as having several threads exactly if two of its members
/// have not ended: a thread that waits to be joined does not count.
pub proof fn several_threads_means_two_that_run(m: SchedModel, team: i32)
    requires
        sound(m),
        in_table(team),
    ensures
        running_members(m, team) > 1 <==> exists|i: int, j: int|
            i < j && #[trigger] runs_in(m, i, team) && #[trigger] runs_in(m, j, team),
{
    let f = |i: int| m.is_member(i, team) && !flagged(m.flags(i), rts::ZOMBIE);
    if running_members(m, team) > 1 {
        let (i, j) = two_counted(NR_PROCS as int, f);
        assert(runs_in(m, i, team) && runs_in(m, j, team));
    }
    if exists|i: int, j: int|
        i < j && #[trigger] runs_in(m, i, team) && #[trigger] runs_in(m, j, team) {
        let (i, j) = choose|i: int, j: int|
            i < j && #[trigger] runs_in(m, i, team) && #[trigger] runs_in(m, j, team);
        assert(f(i) && f(j));
        counted(NR_PROCS as int, f, i, j);
    }
}

/// A port can be given to a team whose leader is there and has not ended, is
/// not ending and has not crashed, and to no other.
pub proof fn ports_go_to_living_teams(m: SchedModel, team: i32)
    requires
        sound(m),
    ensures
        m.team_lives(team) <==> {
            &&& -4 <= team <= 28
            &&& holds_process(m.procs[team + 4])
            &&& m.procs[team + 4].team == team
            &&& !flagged(m.procs[team + 4].rts_flags, rts::ZOMBIE)
            &&& !flagged(m.procs[team + 4].rts_flags, rts::DRAINING)
            &&& !flagged(m.procs[team + 4].rts_flags, rts::DEAD)
        },
{
    if -4 <= team <= 28 {
        assert(slot_of(team) == team + 4);
    }
}

/// A new semaphore takes the lowest number that is not in use, and only if
/// all are there is none.
pub proof fn lowest_semaphore_is_used(m: SchedModel, k: int)
    requires
        sound(m),
        0 <= k < NR_SEMS,
    ensures
        m.free_sem_slot() matches Some(id) ==> {
            &&& 0 <= id < 32
            &&& !m.sems[id].in_use
            &&& k < id ==> m.sems[k].in_use
        },
        m.free_sem_slot() is None ==> m.sems[k].in_use,
{
    let f = |i: int| !m.sems[i].in_use;
    first_holds(0, NR_SEMS as int, f);
    match m.free_sem_slot() {
        Some(id) => {
            assert(f(id));
            if k < id {
                assert(!f(k));
            }
        },
        None => {
            assert(!f(k));
        },
    }
}

/// Whoever is told of a child that ends waits for one, in the parent's team,
/// and is the first there.
pub proof fn first_waiting_thread_is_told(m: SchedModel, parent: i32, k: int)
    requires
        sound(m),
        in_table(parent),
        0 <= k < NR_PROCS,
    ensures
        ({
            let team = m.procs[slot_of(parent)].team;
            let waits = m.is_member(k, team) && flagged(m.procs[k].rts_flags, rts::WAITING);
            match m.child_waiter(parent) {
                Some(w) => {
                    &&& 0 <= w < NR_PROCS
                    &&& m.is_member(w, team)
                    &&& flagged(m.procs[w].rts_flags, rts::WAITING)
                    &&& waits ==> w <= k
                },
                None => !waits,
            }
        }),
{
    let team = m.procs[slot_of(parent)].team;
    let f = |i: int| m.is_member(i, team) && flagged(m.flags(i), rts::WAITING);
    first_holds(0, NR_PROCS as int, f);
    match m.child_waiter(parent) {
        Some(w) => {
            assert(f(w));
            if k < w {
                assert(!f(k));
            }
        },
        None => {
            assert(!f(k));
        },
    }
}

/// A process that was told to end while it was inside a call ends with what
/// it was told: a leader as a leader does, any other member as a thread.
pub proof fn doomed_process_ends_as_it_was_told(m: SchedModel, status: i32, crashed: bool)
    requires
        sound(m),
        m.procs[m.current].doomed == Some((status, crashed)),
    ensures
        ({
            let i = m.current;
            let p = m.procs[i];
            let cleared = m.put(i, Proc { doomed: None, ..p });
            &&& p.team == p.proc_nr ==> m.end_doomed() == cleared.finish_leader(i, status, crashed)
                && m.doomed_space() == cleared.leader_space(i, crashed)
            &&& p.team != p.proc_nr ==> m.end_doomed() == cleared.finish_thread(i)
                && m.doomed_space() == cleared.thread_space(i)
        }),
{
}

/// A parked leader ends when the last of its other members does, with the
/// status it was parked with, and not before.
pub proof fn parked_leader_ends_with_its_last_thread(
    m: SchedModel,
    i: int,
    status: i32,
    crashed: bool,
)
    requires
        sound(m),
        0 <= i < NR_PROCS,
        in_table(m.procs[i].team),
        m.procs[i].sem_granted is None,
    ensures
        ({
            let team = m.procs[i].team;
            let l = slot_of(team);
            let n = m.discard(i);
            let parked = n.is_member(l, team) && flagged(n.procs[l].rts_flags, rts::DRAINING);
            &&& parked && !n.has_other_members(team) && n.procs[l].doomed == Some((status, crashed))
                ==> m.finish_thread(i) == n.resume_leader(team).finish_leader(l, status, crashed)
            &&& !parked || n.has_other_members(team) ==> m.finish_thread(i) == n
            &&& n.resume_leader(team).procs[l].doomed is None
            &&& !flagged(n.resume_leader(team).flags(l), rts::DRAINING)
        }),
{
    let team = m.procs[i].team;
    let l = slot_of(team);
    let n = m.discard(i);
    rts::lower(n.flags(l), rts::DRAINING);
}

proof fn no_member_frees_a_space(m: SchedModel, i: int, n: int, status: i32, crashed: bool)
    requires
        sound(m),
        ends_alone(m, i),
        n <= NR_PROCS,
    ensures
        m.members_space(n, m.procs[i].team, status, crashed) is None,
    decreases n,
{
    if n > 0 {
        no_member_frees_a_space(m, i, n - 1, status, crashed);
        crate::proc::farewells::nobody_follows(m, i, n - 1, status, crashed);
        assert(slot_ok(m.procs[i], i, m.sem_seq));
        assert(slot_of(m.procs[i].team) == i);
        if n - 1 != i {
            assert(!m.is_member(n - 1, m.procs[i].team));
        }
    }
}

/// A process that ends alone gives its address space back exactly if no
/// other slot in use runs in it.
pub proof fn exit_gives_the_address_space_back(m: SchedModel, i: int, status: i32, pml4: u64)
    requires
        sound(m),
        ends_alone(m, i),
    ensures
        m.team_space(m.procs[i].team, status, false) == Some(pml4) <==> m.procs[i].cr3 == Some(pml4)
            && forall|j: int|
            0 <= j < NR_PROCS && j != i && !flagged((#[trigger] m.procs[j]).rts_flags, rts::SLOT_FREE)
                ==> m.procs[j].cr3 != Some(pml4),
{
    no_member_frees_a_space(m, i, NR_PROCS as int, status, false);
    crate::proc::farewells::alone_ends_as_leader(m, i, status, false);
    crate::proc::farewells::alone_out_of_line(m, i);
    space_is_freed_by_the_last_user(m, i, pml4);
    let s = m.out_of_line(i).stopped(i, false);
    assert(s.procs[i].cr3 == m.procs[i].cr3);
    assert forall|j: int| 0 <= j < NR_PROCS && j != i implies s.procs[j] == m.procs[j] by {}
    let a = m.detached(i);
    let b = s.detached(i);
    assert forall|j: int| 0 <= j < NR_PROCS && j != i implies a.procs[j] == b.procs[j] by {}
    assert forall|own: u64| a.shares_space(i, own) == b.shares_space(i, own) by {
        if a.shares_space(i, own) {
            let j = choose|j: int|
                0 <= j < NR_PROCS && j != i && !flagged(#[trigger] a.flags(j), rts::SLOT_FREE)
                    && a.procs[j].cr3 == Some(own);
            assert(a.procs[j] == b.procs[j]);
            assert(!flagged(b.flags(j), rts::SLOT_FREE));
        }
        if b.shares_space(i, own) {
            let j = choose|j: int|
                0 <= j < NR_PROCS && j != i && !flagged(#[trigger] b.flags(j), rts::SLOT_FREE)
                    && b.procs[j].cr3 == Some(own);
            assert(a.procs[j] == b.procs[j]);
            assert(!flagged(a.flags(j), rts::SLOT_FREE));
        }
    }
    assert(m.last_space(i) == s.last_space(i));
}

/// What is put on a new stack ends at its end, rounded down to a multiple of
/// sixteen, however many words it is.
pub proof fn stacks_grow_down_from_their_end(top: u64, words: int)
    ensures
        (below(top, words) + 8 * words) % 16 == 0,
        top - 16 < below(top, words) + 8 * words <= top,
{
}

/// Before anything is started, every slot is free, nobody is ready, in line
/// or waited for, and there is no semaphore and no port.
pub proof fn nothing_is_there_at_first(kernel: (u64, u64), i: int, id: int, s: int)
    requires
        0 <= i < NR_PROCS,
        0 <= id < NR_SEMS,
        0 <= s < 64,
    ensures
        ({
            let m = boot_model(kernel);
            &&& m.flags(i) == rts::SLOT_FREE
            &&& m.procs[i].cr3 is None
            &&& m.procs[i].team == com::NONE
            &&& m.callers[i].len() == 0
            &&& m.pending[i] is None
            &&& m.generations[i] == 0
            &&& !m.sems[id].in_use
            &&& m.ports[s] is None
            &&& m.ticks == 0
            &&& m.kernel_cr3 == kernel
            &&& m.current == 33
            &&& forall|q: int| 0 <= q < 16 ==> (#[trigger] m.queues[q]).len() == 0
        }),
{
}

/// Generations are counted one by one, those of processes to the largest
/// number there is and those of ports as far as an id has room for them, and
/// then start over.
pub proof fn generations_are_counted(g: u32)
    ensures
        g < u32::MAX ==> next_generation(g) == g + 1,
        next_generation(u32::MAX) == 0,
        g < 33554430 ==> next_port_generation(g) == g + 1,
        next_port_generation(33554430) == 0,
{
}

/// A process that has ended has no address space and no memory map, and only
/// a crash marks it dead.
pub proof fn ended_process_has_no_memory(m: SchedModel, i: int, crashed: bool)
    requires
        sound(m),
        0 <= i < NR_PROCS,
        m.procs[i].cr3 is Some,
    ensures
        ({
            let n = m.stopped(i, crashed).detached(i);
            &&& n.procs[i].cr3 is None
            &&& n.procs[i].mem_map == MemMap::none()
            &&& crashed ==> flagged(n.flags(i), rts::DEAD)
            &&& !crashed ==> n.flags(i) == m.flags(i)
            &&& n.procs[i].parent == m.procs[i].parent
            &&& n.procs[i].proc_nr == m.procs[i].proc_nr
            &&& forall|j: int| 0 <= j < NR_PROCS && j != i ==> #[trigger] n.procs[j] == m.procs[j]
        }),
{
    rts::raise(m.flags(i), rts::DEAD);
}

} // verus!
