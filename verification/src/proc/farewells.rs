//! What is left of a process that ends, and who hears of it.
use vstd::prelude::*;

use crate::com;
use crate::com::slot_of;
use crate::proc::births::first_holds;
use crate::proc::endings::{already_gone, JoinError, Step};
use crate::proc::lists::listed;
use crate::proc::model::{in_table, Proc, SchedModel, NR_PORTS, NR_PROCS, NR_SEMS};
use crate::proc::rts;
use crate::proc::rts::flagged;
use crate::proc::soundness::{
    dequeue_sound, holds_process, queued_is_runnable, slot_ok, sound,
};

verus! {

/// An address space is given back by a slot exactly if no other slot that is
/// in use runs in it.
pub proof fn space_is_freed_by_the_last_user(m: SchedModel, i: int, pml4: u64)
    requires
        sound(m),
        0 <= i < NR_PROCS,
    ensures
        m.last_space(i) == Some(pml4) <==> m.procs[i].cr3 == Some(pml4) && forall|j: int|
            0 <= j < NR_PROCS && j != i && !flagged((#[trigger] m.procs[j]).rts_flags, rts::SLOT_FREE)
                ==> m.procs[j].cr3 != Some(pml4),
{
    let d = m.detached(i);
    let others = forall|j: int|
        0 <= j < NR_PROCS && j != i && !flagged((#[trigger] m.procs[j]).rts_flags, rts::SLOT_FREE)
            ==> m.procs[j].cr3 != Some(pml4);
    if m.procs[i].cr3 == Some(pml4) {
        if d.shares_space(i, pml4) {
            let j = choose|j: int|
                0 <= j < NR_PROCS && j != i && !flagged(#[trigger] d.flags(j), rts::SLOT_FREE)
                    && d.procs[j].cr3 == Some(pml4);
            assert(m.procs[j] == d.procs[j]);
            assert(!others);
        } else if !others {
            let j = choose|j: int|
                0 <= j < NR_PROCS && j != i && !flagged(
                    (#[trigger] m.procs[j]).rts_flags,
                    rts::SLOT_FREE,
                ) && m.procs[j].cr3 == Some(pml4);
            assert(m.procs[j] == d.procs[j]);
            assert(!flagged(d.flags(j), rts::SLOT_FREE));
        }
    }
}

/// Whether the process in slot `i` can end at once and takes nothing with
/// it: it is a team of its own, without threads, semaphores or ports, with
/// no call open.
pub open spec fn ends_alone(m: SchedModel, i: int) -> bool {
    let p = m.procs[i];
    &&& 0 <= i < NR_PROCS
    &&& holds_process(p)
    &&& p.team == p.proc_nr
    &&& !m.has_other_members(p.team)
    &&& !m.must_linger(i)
    &&& p.doomed is None
    &&& p.sem_granted is None
    &&& p.exit_status is None
    &&& !flagged(p.rts_flags, rts::WAITING)
    &&& forall|s: int|
        0 <= s < NR_SEMS ==> !((#[trigger] m.sems[s]).in_use && m.sems[s].owner_team == p.team)
    &&& forall|s: int|
        0 <= s < NR_PORTS && (#[trigger] m.ports[s]) is Some ==> (m.ports[s]->0).owner_team != p.team
}

/// A process that ends alone takes nobody with it.
pub proof fn nobody_follows(m: SchedModel, i: int, n: int, status: i32, crashed: bool)
    requires
        sound(m),
        ends_alone(m, i),
        n <= NR_PROCS,
    ensures
        m.end_members(n, m.procs[i].team, status, crashed) == m,
    decreases n,
{
    if n > 0 {
        nobody_follows(m, i, n - 1, status, crashed);
        assert(slot_ok(m.procs[i], i, m.sem_seq));
        assert(slot_of(m.procs[i].team) == i);
        if n - 1 != i {
            assert(!m.is_member(n - 1, m.procs[i].team));
        }
    }
}

proof fn no_semaphores_to_delete(m: SchedModel, i: int, n: int)
    requires
        ends_alone(m, i),
        n <= NR_SEMS,
    ensures
        m.delete_team_sems(m.procs[i].team, n) == m,
    decreases n,
{
    if n > 0 {
        no_semaphores_to_delete(m, i, n - 1);
    }
}

proof fn no_ports_to_delete(m: SchedModel, i: int, n: int)
    requires
        ends_alone(m, i),
        n <= NR_PORTS,
    ensures
        m.delete_team_ports(m.procs[i].team, n) == m,
    decreases n,
{
    if n > 0 {
        no_ports_to_delete(m, i, n - 1);
    }
}

/// The end of a team of one is the end of its leader.
pub proof fn alone_ends_as_leader(m: SchedModel, i: int, status: i32, crashed: bool)
    requires
        sound(m),
        ends_alone(m, i),
    ensures
        m.end_team(m.procs[i].team, status, crashed) == m.finish_leader(i, status, crashed),
        m.team_space(m.procs[i].team, status, crashed) == (if m.leader_space(i, crashed) is Some {
            m.leader_space(i, crashed)
        } else {
            m.members_space(NR_PROCS as int, m.procs[i].team, status, crashed)
        }),
{
    assert(slot_ok(m.procs[i], i, m.sem_seq));
    assert(slot_of(m.procs[i].team) == i);
    nobody_follows(m, i, NR_PROCS as int, status, crashed);
    no_semaphores_to_delete(m, i, NR_SEMS as int);
    no_ports_to_delete(m, i, NR_PORTS as int);
}

/// The status a process ends with reaches its parent: a thread of the
/// parent's team that waits is handed the number and the status and waits no
/// more, and the slot is free; if none waits yet, the slot keeps both, runs
/// no more and has no memory left, until somebody collects it; without a
/// parent the slot is free.
pub proof fn exit_status_reaches_the_parent(m: SchedModel, i: int, status: i32)
    requires
        sound(m),
        ends_alone(m, i),
    ensures
        ({
            let p = m.procs[i];
            let n = m.end_team(p.team, status, false);
            let orphan = p.parent == com::NONE || flagged(
                m.procs[slot_of(p.parent)].rts_flags,
                rts::SLOT_FREE,
            );
            &&& orphan ==> flagged(n.flags(i), rts::SLOT_FREE)
            &&& !orphan ==> match m.child_waiter(p.parent) {
                Some(w) => {
                    &&& m.procs[w].team == m.procs[slot_of(p.parent)].team
                    &&& n.procs[w].wait_result == Some((p.proc_nr, status))
                    &&& !flagged(n.flags(w), rts::WAITING)
                    &&& flagged(n.flags(i), rts::SLOT_FREE)
                },
                None => {
                    &&& n.procs[i].exit_status == Some(status)
                    &&& n.procs[i].proc_nr == p.proc_nr
                    &&& n.procs[i].parent == p.parent
                    &&& flagged(n.flags(i), rts::ZOMBIE)
                    &&& flagged(n.flags(i), rts::DEAD) == flagged(p.rts_flags, rts::DEAD)
                    &&& !listed(n.queues, i)
                    &&& n.procs[i].cr3 is None
                },
            }
        }),
{
    ending_alone(m, i, status, false);
}

/// A crash is reported like an exit, and the service manager hears of it if
/// it listens: what it gets names the process that died.
pub proof fn crash_is_reported(m: SchedModel, i: int, status: i32)
    requires
        sound(m),
        ends_alone(m, i),
        i != slot_of(com::RS_PROC_NR),
    ensures
        ({
            let p = m.procs[i];
            let n = m.end_team(p.team, status, true);
            let rs = slot_of(com::RS_PROC_NR);
            let before = m.out_of_line(i).terminate(i, status, true);
            &&& before.hears(rs, com::KERNEL) ==> {
                &&& n.procs[rs].messbuf.source == com::KERNEL
                &&& n.procs[rs].messbuf.m_type == com::died_type(p.proc_nr)
                &&& !flagged(n.flags(rs), rts::RECEIVING)
            }
            &&& !(p.parent == com::NONE || flagged(
                m.procs[slot_of(p.parent)].rts_flags,
                rts::SLOT_FREE,
            )) && m.child_waiter(p.parent) is None ==> {
                &&& n.procs[i].exit_status == Some(status)
                &&& flagged(n.flags(i), rts::DEAD)
                &&& flagged(n.flags(i), rts::ZOMBIE)
                &&& n.procs[i].cr3 is None
            }
        }),
{
    ending_alone(m, i, status, true);
    let rs = slot_of(com::RS_PROC_NR);
    let before = m.out_of_line(i).terminate(i, status, true);
    rts::lower(before.flags(rs), rts::RECEIVING);
}

proof fn ending_alone(m: SchedModel, i: int, status: i32, crashed: bool)
    requires
        sound(m),
        ends_alone(m, i),
        crashed ==> i != slot_of(com::RS_PROC_NR),
    ensures
        ({
            let p = m.procs[i];
            let t = m.out_of_line(i).terminate(i, status, crashed);
            let n = m.end_team(p.team, status, crashed);
            let orphan = p.parent == com::NONE || flagged(
                m.procs[slot_of(p.parent)].rts_flags,
                rts::SLOT_FREE,
            );
            &&& t.procs.len() == NR_PROCS
            &&& n == (if crashed {
                t.notify(slot_of(com::RS_PROC_NR), com::KERNEL, com::died_type(p.team))
            } else {
                t
            })
            &&& orphan ==> flagged(n.flags(i), rts::SLOT_FREE)
            &&& !orphan ==> match m.child_waiter(p.parent) {
                Some(w) => {
                    &&& m.procs[w].team == m.procs[slot_of(p.parent)].team
                    &&& n.procs[w].wait_result == Some((p.proc_nr, status))
                    &&& !flagged(n.flags(w), rts::WAITING)
                    &&& flagged(n.flags(i), rts::SLOT_FREE)
                },
                None => {
                    &&& n.procs[i].exit_status == Some(status)
                    &&& n.procs[i].proc_nr == p.proc_nr
                    &&& n.procs[i].parent == p.parent
                    &&& flagged(n.flags(i), rts::ZOMBIE)
                    &&& flagged(n.flags(i), rts::DEAD) == (crashed || flagged(p.rts_flags, rts::DEAD))
                    &&& !listed(n.queues, i) || crashed
                    &&& n.procs[i].cr3 is None
                },
            }
        }),
{
    alone_ends_as_leader(m, i, status, crashed);
    assert(slot_ok(m.procs[i], i, m.sem_seq));
    alone_out_of_line(m, i);
    buried_alone(m, i, status, crashed);
    let t = m.out_of_line(i).terminate(i, status, crashed);
    let rs = slot_of(com::RS_PROC_NR);
    if crashed {
        heard_or_not(t, rs, com::died_type(m.procs[i].team));
    }
}

/// A notification changes of its receiver only the message and whether it is
/// blocked receiving, and of nobody else anything.
proof fn heard_or_not(m: SchedModel, dst: int, m_type: i32)
    requires
        m.procs.len() == NR_PROCS,
        0 <= dst < NR_PROCS,
    ensures
        ({
            let n = m.notify(dst, com::KERNEL, m_type);
            &&& n.procs.len() == NR_PROCS
            &&& n.procs[dst].wait_result == m.procs[dst].wait_result
            &&& flagged(n.flags(dst), rts::WAITING) == flagged(m.flags(dst), rts::WAITING)
            &&& forall|j: int| 0 <= j < NR_PROCS && j != dst ==> #[trigger] n.procs[j] == m.procs[j]
        }),
{
    rts::lower(m.flags(dst), rts::RECEIVING);
}

/// The entry of a process that ends alone, out of any line.
pub proof fn alone_out_of_line(m: SchedModel, i: int)
    requires
        sound(m),
        ends_alone(m, i),
    ensures
        ({
            let p = m.procs[i];
            let o = m.out_of_line(i);
            let g = p.rts_flags & !rts::SEM_WAIT;
            &&& o == m.put(i, Proc { sem_wait: None, rts_flags: g, ..p })
            &&& !o.has_other_members(p.team)
            &&& forall|c: u16|
                rts::is_bit(c) && c != rts::SEM_WAIT ==> #[trigger] flagged(g, c) == flagged(
                    p.rts_flags,
                    c,
                )
        }),
{
    let p = m.procs[i];
    let o = m.out_of_line(i);
    assert(slot_ok(p, i, m.sem_seq));
    rts::lower(p.rts_flags, rts::SEM_WAIT);
    assert forall|j: int| 0 <= j < NR_PROCS && j != slot_of(p.team) implies !#[trigger] o.is_member(
        j,
        p.team,
    ) by {
        assert(slot_of(p.team) == i);
        assert(!m.is_member(j, p.team));
    }
}

/// The same, off its queue and without its address space.
proof fn alone_detached(m: SchedModel, i: int, crashed: bool)
    requires
        sound(m),
        ends_alone(m, i),
    ensures
        ({
            let p = m.procs[i];
            let d = m.out_of_line(i).stopped(i, crashed).detached(i);
            let q = d.procs[i];
            &&& d.procs.len() == NR_PROCS
            &&& q.cr3 is None
            &&& q.parent == p.parent
            &&& q.proc_nr == p.proc_nr
            &&& q.team == p.team
            &&& flagged(q.rts_flags, rts::DEAD) == (crashed || flagged(p.rts_flags, rts::DEAD))
            &&& !flagged(q.rts_flags, rts::WAITING)
            &&& !listed(d.queues, i)
            &&& forall|j: int| 0 <= j < NR_PROCS && j != i ==> #[trigger] d.procs[j] == m.procs[j]
        }),
{
    alone_out_of_line(m, i);
    off_the_queue(m, i, crashed);
    rts::raise(m.out_of_line(i).flags(i), rts::DEAD);
}

/// Who waits for a child does not depend on the one that ends.
proof fn same_waiter(m: SchedModel, i: int, crashed: bool)
    requires
        sound(m),
        ends_alone(m, i),
        m.procs[i].parent != com::NONE,
    ensures
        ({
            let d = m.out_of_line(i).stopped(i, crashed).detached(i);
            let parent = m.procs[i].parent;
            &&& slot_of(parent) != i
            &&& d.child_waiter(parent) == m.child_waiter(parent)
            &&& m.child_waiter(parent) matches Some(w) ==> {
                &&& 0 <= w < NR_PROCS
                &&& w != i
                &&& m.procs[w].team == m.procs[slot_of(parent)].team
            }
        }),
{
    let p = m.procs[i];
    assert(slot_ok(p, i, m.sem_seq));
    alone_detached(m, i, crashed);
    let d = m.out_of_line(i).stopped(i, crashed).detached(i);
    let l = slot_of(p.parent);
    assert(l != i);
    assert(d.procs[l] == m.procs[l]);
    let team = m.procs[l].team;
    let a = |j: int| m.is_member(j, team) && flagged(m.flags(j), rts::WAITING);
    let b = |j: int| d.is_member(j, team) && flagged(d.flags(j), rts::WAITING);
    first_holds(0, NR_PROCS as int, a);
    first_holds(0, NR_PROCS as int, b);
    assert forall|j: int| 0 <= j < NR_PROCS implies #[trigger] a(j) == b(j) by {
        if j != i {
            assert(d.procs[j] == m.procs[j]);
        }
    }
    match m.child_waiter(p.parent) {
        Some(w) => {
            assert(a(w) && b(w));
        },
        None => {},
    }
    match d.child_waiter(p.parent) {
        Some(w) => {
            assert(a(w) && b(w));
        },
        None => {},
    }
}

proof fn buried_alone(m: SchedModel, i: int, status: i32, crashed: bool)
    requires
        sound(m),
        ends_alone(m, i),
    ensures
        ({
            let p = m.procs[i];
            let t = m.out_of_line(i).terminate(i, status, crashed);
            let orphan = p.parent == com::NONE || flagged(
                m.procs[slot_of(p.parent)].rts_flags,
                rts::SLOT_FREE,
            );
            &&& t.procs.len() == NR_PROCS
            &&& orphan ==> flagged(t.flags(i), rts::SLOT_FREE)
            &&& !orphan ==> match m.child_waiter(p.parent) {
                Some(w) => {
                    &&& 0 <= w < NR_PROCS
                    &&& w != i
                    &&& m.procs[w].team == m.procs[slot_of(p.parent)].team
                    &&& t.procs[w].wait_result == Some((p.proc_nr, status))
                    &&& !flagged(t.flags(w), rts::WAITING)
                    &&& flagged(t.flags(i), rts::SLOT_FREE)
                },
                None => {
                    &&& t.procs[i].exit_status == Some(status)
                    &&& t.procs[i].proc_nr == p.proc_nr
                    &&& t.procs[i].parent == p.parent
                    &&& flagged(t.flags(i), rts::ZOMBIE)
                    &&& flagged(t.flags(i), rts::DEAD) == (crashed || flagged(p.rts_flags, rts::DEAD))
                    &&& !listed(t.queues, i)
                    &&& t.procs[i].cr3 is None
                },
            }
        }),
{
    let p = m.procs[i];
    alone_detached(m, i, crashed);
    let d = m.out_of_line(i).stopped(i, crashed).detached(i);
    rts::only(rts::SLOT_FREE);
    rts::raise(d.flags(i), rts::ZOMBIE);
    assert(slot_ok(p, i, m.sem_seq));
    if p.parent != com::NONE {
        same_waiter(m, i, crashed);
        assert(d.procs[slot_of(p.parent)] == m.procs[slot_of(p.parent)]);
        match m.child_waiter(p.parent) {
            Some(w) => {
                rts::lower(d.flags(w), rts::WAITING);
                let told = d.put(
                    w,
                    Proc { wait_result: Some((p.proc_nr, status)), ..d.procs[w] },
                ).unblock(w, rts::WAITING);
                assert(told.procs[i] == d.procs[i]);
                assert(told.procs.len() == NR_PROCS);
            },
            None => {},
        }
    }
}

proof fn queued_or_not(m: SchedModel, i: int)
    requires
        sound(m),
        ends_alone(m, i),
    ensures
        m.out_of_line(i).flags(i) == 0 || !listed(m.out_of_line(i).queues, i),
{
    if m.flags(i) == 0 {
        assert(0u16 & !rts::SEM_WAIT == 0) by (bit_vector);
    } else {
        queued_is_runnable(m, Set::empty(), i);
    }
}

proof fn off_the_queue(m: SchedModel, i: int, crashed: bool)
    requires
        sound(m),
        ends_alone(m, i),
    ensures
        !listed(m.out_of_line(i).stopped(i, crashed).detached(i).queues, i),
{
    let o = m.out_of_line(i);
    queued_or_not(m, i);
    if o.flags(i) == 0 {
        dequeue_sound(m, Set::empty(), i);
        assert(o.dequeue(i).queues == m.dequeue(i).queues);
    }
}

/// A team's leader that ends before its threads have finished their calls is
/// parked: it does not run, keeps its status for later, and nothing else
/// changes.
pub proof fn leader_waits_for_its_threads(m: SchedModel, i: int, status: i32, crashed: bool)
    requires
        sound(m),
        0 <= i < NR_PROCS,
        holds_process(m.procs[i]),
        m.procs[i].sem_granted is None,
        m.out_of_line(i).has_other_members(m.procs[i].proc_nr),
    ensures
        ({
            let n = m.finish_leader(i, status, crashed);
            &&& flagged(n.flags(i), rts::DRAINING)
            &&& n.procs[i].doomed == Some((status, crashed))
            &&& n.procs[i].cr3 == m.procs[i].cr3
            &&& n.procs[i].exit_status == m.procs[i].exit_status
            &&& m.leader_space(i, crashed) is None
            &&& forall|j: int| 0 <= j < NR_PROCS && j != i ==> #[trigger] n.procs[j] == m.procs[j]
        }),
{
    rts::raise(m.out_of_line(i).flags(i), rts::DRAINING);
}

/// The end of a team spares whoever is not of it, marks a member with a call
/// open, to end once the call is over, and marks nobody twice.
pub proof fn member_with_a_call_open_lingers(
    m: SchedModel,
    i: int,
    team: i32,
    status: i32,
    crashed: bool,
)
    requires
        sound(m),
        0 <= i < NR_PROCS,
        i != slot_of(team),
    ensures
        m.procs[i].team != team ==> m.end_member(i, team, status, crashed) == m,
        m.procs[i].doomed is Some ==> m.end_member(i, team, status, crashed) == m,
        m.is_member(i, team) && m.procs[i].doomed is None && (flagged(m.flags(i), rts::SENDING)
            || m.callers[i].len() > 0) ==> {
            let n = m.end_member(i, team, status, crashed);
            &&& n.procs[i] == (Proc { doomed: Some((status, crashed)), ..m.procs[i] })
            &&& n.queues == m.queues
            &&& forall|j: int| 0 <= j < NR_PROCS && j != i ==> #[trigger] n.procs[j] == m.procs[j]
        },
        m.member_space(i, team) is Some ==> m.is_member(i, team),
{
}

/// A call is open exactly if the process is in line to send, waits for an
/// answer of one that is not the clock, or somebody is in line to send to
/// it.
pub proof fn what_an_open_call_is(m: SchedModel, i: int)
    ensures
        m.must_linger(i) <==> {
            ||| flagged(m.procs[i].rts_flags, rts::SENDING)
            ||| flagged(m.procs[i].rts_flags, rts::RECEIVING) && m.procs[i].get_from != com::ANY
                && m.procs[i].get_from != com::CLOCK
            ||| m.callers[i].len() > 0
        },
{
}

/// A thread that ends while nobody joins it keeps its status until somebody
/// does; it does not run and has given its address space up.
pub proof fn ended_thread_keeps_its_status(m: SchedModel, status: i32)
    requires
        sound(m),
        holds_process(m.procs[m.current]),
        forall|j: int|
            0 <= j < NR_PROCS ==> !#[trigger] m.joins(
                j,
                m.procs[m.current].team,
                m.procs[m.current].proc_nr,
            ),
    ensures
        ({
            let i = m.current;
            let n = m.thread_end(status);
            &&& n.procs[i].exit_status == Some(status)
            &&& flagged(n.flags(i), rts::ZOMBIE)
            &&& !listed(n.queues, i)
            &&& n.procs[i].cr3 is None
            &&& n.procs[i].team == m.procs[i].team
            &&& n.procs[i].proc_nr == m.procs[i].proc_nr
            &&& forall|j: int| 0 <= j < NR_PROCS && j != i ==> #[trigger] n.procs[j] == m.procs[j]
        }),
{
    let i = m.current;
    let p = m.procs[i];
    let f = |j: int| m.joins(j, p.team, p.proc_nr);
    first_holds(0, NR_PROCS as int, f);
    if m.first_joiner(p.team, p.proc_nr) is Some {
        assert(f(m.first_joiner(p.team, p.proc_nr)->0));
    }
    dequeue_sound(m, Set::empty(), i);
    rts::raise(m.flags(i), rts::ZOMBIE);
}

/// Joining a thread that has ended gives the status it ended with, once: its
/// slot is free afterwards.
pub proof fn joining_an_ended_thread_gives_its_status(m: SchedModel, tid: i32, status: i32)
    requires
        sound(m),
        in_table(tid),
        tid + com::NR_TASKS < com::NR_PROC_SLOTS,
        m.procs[m.current].wait_result is None,
        m.is_member(slot_of(tid), m.procs[m.current].team),
        tid != m.procs[m.current].proc_nr,
        tid != m.procs[m.current].team,
        slot_of(tid) != m.current,
        m.procs[slot_of(tid)].exit_status == Some(status),
    ensures
        ({
            let (n, r) = m.join_step(tid);
            &&& r == Step::<Result<i32, JoinError>>::Done(Ok(status))
            &&& n.flags(slot_of(tid)) == rts::SLOT_FREE
            &&& n.procs[m.current] == m.procs[m.current]
        }),
{
}

/// Joining one that still runs blocks, on that thread; a status that was
/// handed over meanwhile is then the answer.
pub proof fn joining_waits_for_the_thread(m: SchedModel, tid: i32, status: i32)
    requires
        sound(m),
        in_table(tid),
        tid + com::NR_TASKS < com::NR_PROC_SLOTS,
        m.is_member(slot_of(tid), m.procs[m.current].team),
        tid != m.procs[m.current].proc_nr,
        tid != m.procs[m.current].team,
        slot_of(tid) != m.current,
    ensures
        m.procs[m.current].wait_result is None && m.procs[slot_of(tid)].exit_status is None ==> {
            let (n, r) = m.join_step(tid);
            &&& r == Step::<Result<i32, JoinError>>::Blocked
            &&& flagged(n.flags(m.current), rts::JOINING)
            &&& n.procs[m.current].join_target == tid
        },
        m.procs[m.current].wait_result == Some((tid, status)) ==> {
            let (n, r) = m.join_step(tid);
            &&& r == Step::<Result<i32, JoinError>>::Done(Ok(status))
            &&& n.procs[m.current].wait_result is None
        },
{
    rts::raise(m.flags(m.current), rts::JOINING);
}

/// Nobody can join itself, its team's leader, or a process of another team.
pub proof fn only_threads_of_the_team_are_joined(m: SchedModel, tid: i32)
    requires
        sound(m),
        m.procs[m.current].wait_result is None,
        tid == m.procs[m.current].proc_nr || tid == m.procs[m.current].team || in_table(tid)
            && m.procs[slot_of(tid)].team != m.procs[m.current].team,
    ensures
        m.join_step(tid).1 == Step::<Result<i32, JoinError>>::Done(Err(JoinError::NotAThread)),
{
}

/// A thread that ends while another joins it hands its number and status
/// over, and whoever joins it is blocked on it no more.
pub proof fn joiner_gets_the_status(m: SchedModel, w: int, status: i32)
    requires
        sound(m),
        holds_process(m.procs[m.current]),
        m.first_joiner(m.procs[m.current].team, m.procs[m.current].proc_nr) == Some(w),
    ensures
        ({
            let p = m.procs[m.current];
            let n = m.status_to_joiners(status);
            &&& m.procs[w].join_target == p.proc_nr
            &&& m.procs[w].team == p.team
            &&& n.procs[w].wait_result == Some((p.proc_nr, status))
            &&& !flagged(n.flags(w), rts::JOINING)
        }),
{
    let p = m.procs[m.current];
    let f = |j: int| m.joins(j, p.team, p.proc_nr);
    first_holds(0, NR_PROCS as int, f);
    assert(f(w));
    let told = m.put(w, Proc { wait_result: Some((p.proc_nr, status)), ..m.procs[w] });
    joiners_woken(told, p.team, p.proc_nr, NR_PROCS as int, w);
}

proof fn joiners_woken(m: SchedModel, team: i32, target: i32, n: int, i: int)
    requires
        0 <= i < m.procs.len(),
        n <= m.procs.len(),
    ensures
        ({
            let a = m.wake_joiners(team, target, n);
            &&& a.procs.len() == m.procs.len()
            &&& a.procs[i].wait_result == m.procs[i].wait_result
            &&& n <= i || !m.joins(i, team, target) ==> a.procs[i] == m.procs[i]
            &&& n > i && m.joins(i, team, target) ==> !flagged(a.flags(i), rts::JOINING)
        }),
    decreases n,
{
    if n > 0 {
        joiners_woken(m, team, target, n - 1, i);
        if n - 1 == i {
            rts::lower(m.flags(i), rts::JOINING);
        }
    }
}

/// A member that ends without a leader waiting for it leaves a free slot and
/// touches nobody else.
pub proof fn ended_member_leaves_a_free_slot(m: SchedModel, i: int)
    requires
        sound(m),
        0 <= i < NR_PROCS,
        m.procs[i].sem_granted is None,
        !m.discard(i).drained(m.procs[i].team),
    ensures
        flagged(m.finish_thread(i).flags(i), rts::SLOT_FREE),
        m.finish_thread(i).procs[i].team == com::NONE,
        m.finish_thread(i).procs[i].cr3 is None,
        forall|j: int| 0 <= j < NR_PROCS && j != i ==> #[trigger] m.finish_thread(i).procs[j]
            == m.procs[j],
{
    rts::only(rts::SLOT_FREE);
}

/// Waiting for a child that runs on blocks the caller until one ends.
pub proof fn wait_blocks_until_a_child_ends(m: SchedModel, c: int)
    requires
        sound(m),
        holds_process(m.procs[m.current]),
        m.procs[m.current].wait_result is None,
        0 <= c < NR_PROCS,
        m.procs[c].parent == m.procs[m.current].team,
        !flagged(m.flags(c), rts::SLOT_FREE),
        forall|j: int|
            0 <= j < NR_PROCS && (#[trigger] m.procs[j]).parent == m.procs[m.current].team
                ==> m.procs[j].exit_status is None,
    ensures
        m.wait_step().1 == Step::<Option<(i32, i32)>>::Blocked,
        flagged(m.wait_step().0.flags(m.current), rts::WAITING),
{
    let me = m.procs[m.current].team;
    let f = |j: int| m.procs[j].parent == me && m.procs[j].exit_status is Some;
    first_holds(0, NR_PROCS as int, f);
    if m.zombie_of(me) is Some {
        assert(f(m.zombie_of(me)->0));
    }
    rts::raise(m.flags(m.current), rts::WAITING);
}

proof fn nobody_in_line(m: SchedModel, id: usize, n: int)
    requires
        forall|j: int|
            0 <= j < n ==> ((#[trigger] m.procs[j]).sem_wait matches Some(w) ==> w.0 != id),
    ensures
        m.longest_waiter(id, n) is None,
    decreases n,
{
    if n > 0 {
        nobody_in_line(m, id, n - 1);
        assert(m.procs[n - 1].sem_wait matches Some(w) ==> w.0 != id);
    }
}

/// A unit that was handed to a process that ends before it takes it is not
/// lost: with nobody in line it is back in the count, whether the process
/// leads its team or not.
pub proof fn handed_unit_is_not_lost(m: SchedModel, i: int, id: usize, status: i32, crashed: bool)
    requires
        sound(m),
        0 <= i < NR_PROCS,
        m.procs[i].sem_granted == Some(id),
        m.sems[id as int].in_use,
        m.sems[id as int].count < i32::MAX,
        forall|j: int|
            0 <= j < NR_PROCS ==> ((#[trigger] m.procs[j]).sem_wait matches Some(w) ==> w.0 != id),
    ensures
        m.finish_leader(i, status, crashed).sems[id as int].count == m.sems[id as int].count + 1,
        m.out_of_line(i).procs[i].sem_granted is None,
        !flagged(m.flags(slot_of(m.procs[i].team)), rts::DRAINING) ==> m.finish_thread(i).sems[id as int].count
            == m.sems[id as int].count + 1,
{
    assert(slot_ok(m.procs[i], i, m.sem_seq));
    let m1 = m.put(i, Proc { sem_granted: None, ..m.procs[i] });
    assert forall|j: int| 0 <= j < NR_PROCS implies ((#[trigger] m1.procs[j]).sem_wait matches Some(
        w,
    ) ==> w.0 != id) by {
        assert(m.procs[j].sem_wait == m1.procs[j].sem_wait);
    }
    nobody_in_line(m1, id, NR_PROCS as int);
    let f = m.forfeit_grant(i);
    assert(f.sems[id as int].count == m.sems[id as int].count + 1);
    assert(f.procs == m1.procs);
    assert(m.out_of_line(i).sems == f.sems);
    ending_keeps_semaphores(m.out_of_line(i), i, status, crashed);
    assert(m.finish_leader(i, status, crashed).sems == f.sems);
    if !flagged(m.flags(slot_of(m.procs[i].team)), rts::DRAINING) {
        let d = f.discard(i);
        rts::only(rts::SLOT_FREE);
        assert(d.sems == f.sems);
        assert(!d.drained(m.procs[i].team));
    }
}

proof fn ending_keeps_semaphores(m: SchedModel, i: int, status: i32, crashed: bool)
    ensures
        m.block(i, rts::DRAINING).sems == m.sems,
        m.terminate(i, status, crashed).sems == m.sems,
        forall|dst: int, src: i32, m_type: i32| (#[trigger] m.terminate(i, status, crashed).notify(
            dst,
            src,
            m_type,
        )).sems == m.sems,
{
    let n = m.stopped(i, crashed).detached(i);
    assert(n.sems == m.sems);
    assert(n.bury(i, status).sems == n.sems);
}

/// With others in line it goes to the one that waits longest.
pub proof fn handed_unit_goes_to_the_next(m: SchedModel, i: int, id: usize, w: int)
    requires
        sound(m),
        0 <= i < NR_PROCS,
        m.procs[i].sem_granted == Some(id),
        m.sems[id as int].in_use,
        m.longest_waiter(id, NR_PROCS as int) == Some(w),
    ensures
        m.out_of_line(i).procs[w].sem_granted == Some(id),
        m.out_of_line(i).procs[w].sem_wait is None,
        m.out_of_line(i).procs[i].sem_granted is None,
        m.out_of_line(i).sems == m.sems,
{
    let m1 = m.put(i, Proc { sem_granted: None, ..m.procs[i] });
    same_line(m, m1, id, NR_PROCS as int);
    waiter_waits(m, id, NR_PROCS as int);
    assert(slot_ok(m.procs[w], w, m.sem_seq));
}

proof fn waiter_waits(m: SchedModel, id: usize, n: int)
    ensures
        m.longest_waiter(id, n) matches Some(w) ==> 0 <= w < n && m.procs[w].sem_wait is Some,
    decreases n,
{
    if n > 0 {
        waiter_waits(m, id, n - 1);
    }
}

proof fn same_line(m: SchedModel, n: SchedModel, id: usize, k: int)
    requires
        forall|j: int| 0 <= j < k ==> (#[trigger] m.procs[j]).sem_wait == n.procs[j].sem_wait,
    ensures
        m.longest_waiter(id, k) == n.longest_waiter(id, k),
    decreases k,
{
    if k > 0 {
        same_line(m, n, id, k - 1);
        waiter_waits(m, id, k - 1);
        assert(m.procs[k - 1].sem_wait == n.procs[k - 1].sem_wait);
        if m.longest_waiter(id, k - 1) is Some {
            let w = m.longest_waiter(id, k - 1)->0;
            assert(m.procs[w].sem_wait == n.procs[w].sem_wait);
        }
    }
}

/// Who cannot be killed any more: a slot that is free, and a process that
/// is dead or has ended.
pub proof fn ended_processes_are_not_killed(f: u16)
    ensures
        already_gone(f) <==> f & 0x01 != 0 || f & 0x10 != 0 || f & 0x40 != 0,
{
}

/// A thread that ends gives its team's address space back only if no other
/// process runs in it.
pub proof fn ended_thread_leaves_the_space_to_others(m: SchedModel, status: i32, j: int, pml4: u64)
    requires
        sound(m),
        m.first_joiner(m.procs[m.current].team, m.procs[m.current].proc_nr) is None,
        m.procs[m.current].cr3 == Some(pml4),
        0 <= j < NR_PROCS,
        j != m.current,
    ensures
        !flagged(m.flags(j), rts::SLOT_FREE) && m.procs[j].cr3 == Some(pml4)
            ==> m.thread_end_space(status) is None,
        (forall|k: int|
            0 <= k < NR_PROCS && k != m.current && !flagged(
                (#[trigger] m.procs[k]).rts_flags,
                rts::SLOT_FREE,
            ) ==> m.procs[k].cr3 != Some(pml4)) ==> m.thread_end_space(status) == Some(pml4),
{
    let i = m.current;
    let d = m.dequeue(i);
    let e = d.detached(i);
    assert(d.procs[i].cr3 == Some(pml4));
    assert(e.procs[j].cr3 == m.procs[j].cr3);
    assert(e.flags(j) == m.flags(j));
    if e.shares_space(i, pml4) {
        let k = choose|k: int|
            0 <= k < NR_PROCS && k != i && !flagged(#[trigger] e.flags(k), rts::SLOT_FREE)
                && e.procs[k].cr3 == Some(pml4);
        assert(m.procs[k].cr3 == Some(pml4));
    }
}

} // verus!
