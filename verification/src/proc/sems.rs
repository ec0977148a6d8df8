//! Semaphores: counting, owned by a team, waiters served in the order they
//! came.
use vstd::prelude::*;

use crate::proc::endings::Step;
use crate::proc::lifecycle::holding;
use crate::proc::model::{first_from, Proc, SchedModel, Sem, NR_PROCS, NR_SEMS};
use crate::proc::rts;
use crate::proc::rts::flagged;
use crate::proc::scheduler::Scheduler;
use crate::proc::soundness::{
    drop_exception, frame_sound, holds_process, led, pause_sound, put_same_sound, slot_ok, sound,
    sound_but,
};

verus! {

/// Why a semaphore operation failed: no such semaphore, not the caller's
/// team's to delete, or deleted while the caller waited for it.
#[derive(Debug, Clone, Copy, PartialEq, Eq)]
pub struct BadSem;

impl SchedModel {
    /// The first free semaphore.
    pub open spec fn free_sem_slot(self) -> Option<int> {
        first_from(0, NR_SEMS as int, |i: int| !self.sems[i].in_use)
    }

    /// Whether `id` names a semaphore that exists.
    pub open spec fn sem_exists(self, id: usize) -> bool {
        id < NR_SEMS && self.sems[id as int].in_use
    }

    /// The running process joins the end of the line at semaphore `id`.
    pub open spec fn join_line(self, id: usize) -> SchedModel {
        let i = self.current;
        let m = self.pause(i);
        SchedModel { sem_seq: (self.sem_seq + 1) as u64, ..m }.put(
            i,
            Proc {
                rts_flags: self.flags(i) | rts::SEM_WAIT,
                sem_wait: Some((id, self.sem_seq)),
                ..self.procs[i]
            },
        )
    }

    /// What the running process finds when it takes a unit of semaphore
    /// `id`: one handed over while it waited, its place in line, no such
    /// semaphore, a unit, or none.
    pub open spec fn acquire_step(self, id: usize) -> (SchedModel, Step<Result<(), BadSem>>) {
        let i = self.current;
        let p = self.procs[i];
        if p.sem_granted is Some {
            (self.put(i, Proc { sem_granted: None, ..p }), Step::Done(Ok(())))
        } else if p.sem_wait is Some {
            (self, Step::Blocked)
        } else if !self.sem_exists(id) {
            (self, Step::Done(Err(BadSem)))
        } else if self.sems[id as int].count > 0 {
            let s = self.sems[id as int];
            (
                SchedModel {
                    sems: self.sems.update(id as int, Sem { count: (s.count - 1) as i32, ..s }),
                    ..self
                },
                Step::Done(Ok(())),
            )
        } else {
            (self.join_line(id), Step::Blocked)
        }
    }

    /// Whether the running process was woken although it has neither a unit
    /// nor a place in line: its semaphore was deleted.
    pub open spec fn lost_sem(self) -> bool {
        let p = self.procs[self.current];
        p.sem_wait is None && p.sem_granted is None
    }
}

/// Joining the line at a semaphore that exists and has no unit keeps
/// everything.
proof fn join_line_sound(m: SchedModel, id: usize)
    requires
        sound(m),
        holds_process(m.procs[m.current]),
        m.procs[m.current].sem_wait is None,
        m.procs[m.current].sem_granted is None,
        m.sem_exists(id),
        m.sems[id as int].count == 0,
        m.sem_seq < u64::MAX,
    ensures
        sound(m.join_line(id)),
{
    let none = Set::<int>::empty();
    let i = m.current;
    let xs = none.insert(i);
    let m1 = m.pause(i);
    pause_sound(m, none, i);
    let m2 = SchedModel { sem_seq: (m.sem_seq + 1) as u64, ..m1 };
    frame_sound(m1, m2, xs);
    let p = Proc {
        rts_flags: m.flags(i) | rts::SEM_WAIT,
        sem_wait: Some((id, m.sem_seq)),
        ..m.procs[i]
    };
    let n = m2.put(i, p);
    rts::raise(m.flags(i), rts::SEM_WAIT);
    rts::only(rts::RESERVED);
    rts::only(rts::SLOT_FREE);
    holding(m.procs[i], i, m.sem_seq);
    assert(slot_ok(p, i, m2.sem_seq));
    assert forall|q: int, k: int|
        #![trigger n.queues[q][k]]
        0 <= q < n.queues.len() && 0 <= k < n.queues[q].len() implies {
        &&& 0 <= n.queues[q][k] < NR_PROCS
        &&& n.flags(n.queues[q][k]) == 0
        &&& n.procs[n.queues[q][k]].priority == q
    } by {
        assert(m2.queues[q][k] == n.queues[q][k]);
        assert(n.queues[q][k] != i);
    }
    assert forall|d: int, k: int|
        #![trigger n.callers[d][k]]
        0 <= d < n.callers.len() && 0 <= k < n.callers[d].len() implies {
        &&& 0 <= n.callers[d][k] < NR_PROCS
        &&& flagged(n.flags(n.callers[d][k]), rts::SENDING)
        &&& crate::com::slot_of(n.procs[n.callers[d][k]].send_to) == d
    } by {
        assert(m2.callers[d][k] == n.callers[d][k]);
    }
    assert forall|a: int, b: int|
        #![trigger n.procs[a], n.procs[b]]
        0 <= a < NR_PROCS && 0 <= b < NR_PROCS && a != b && n.procs[a].sem_wait is Some
            && n.procs[b].sem_wait is Some implies (n.procs[a].sem_wait->0).1 != (
    n.procs[b].sem_wait->0).1 by {
        assert(slot_ok(m.procs[a], a, m.sem_seq));
        assert(slot_ok(m.procs[b], b, m.sem_seq));
    }
    assert forall|j: int| 0 <= j < NR_PROCS implies #[trigger] led(n.procs, j) by {
        assert(led(m.procs, j));
        assert(slot_ok(m.procs[j], j, m.sem_seq));
    }
    assert(sound_but(n, xs));
    drop_exception(n, none, i);
}

/// Taking a unit away keeps everything.
proof fn take_unit_sound(m: SchedModel, id: int, s: Sem)
    requires
        sound(m),
        0 <= id < NR_SEMS,
        s.count >= 0,
        m.sems[id].count > 0 || !m.sems[id].in_use,
    ensures
        sound(SchedModel { sems: m.sems.update(id, s), ..m }),
{
    assert forall|j: int|
        #![trigger m.procs[j]]
        0 <= j < NR_PROCS && m.procs[j].sem_wait is Some implies (m.procs[j].sem_wait->0).0 != id by {
    }
    crate::proc::lifecycle::set_sem_sound(m, Set::empty(), id, s);
}

/// Create a semaphore with `count` units, owned by the running process's
/// team. `None` if the table is full.
pub fn sem_create(sched: &mut Scheduler, count: i32) -> (r: Option<usize>)
    requires
        old(sched).wf(),
    ensures
        final(sched).wf(),
        crate::proc::lists::as_int(r) == old(sched)@.free_sem_slot(),
        final(sched)@ == (match r {
            Some(id) => SchedModel {
                sems: old(sched)@.sems.update(
                    id as int,
                    Sem {
                        in_use: true,
                        count: if count < 0 {
                            0
                        } else {
                            count
                        },
                        owner_team: old(sched)@.procs[old(sched)@.current].team,
                    },
                ),
                ..old(sched)@
            },
            None => old(sched)@,
        }),
{
    let ghost m = sched@;
    let idx: usize = sched.current_slot();
    let owner_team: i32 = sched.at(idx).team;
    let mut id: usize = 0;
    let ghost f = |i: int| !m.sems[i].in_use;
    while id < NR_SEMS
        invariant
            id <= NR_SEMS,
            sched.wf(),
            sched@ == m,
            m == old(sched)@,
            owner_team == m.procs[m.current].team,
            f == (|i: int| !m.sems[i].in_use),
            first_from(0, NR_SEMS as int, f) == first_from(id as int, NR_SEMS as int, f),
        decreases NR_SEMS - id,
    {
        if !sched.sem_at(id).in_use {
            let s = Sem {
                in_use: true,
                count: if count < 0 {
                    0
                } else {
                    count
                },
                owner_team,
            };
            proof {
                take_unit_sound(m, id as int, s);
            }
            sched.set_sem(id, s);
            return Some(id);
        }
        id = id + 1;
    }
    None
}

/// Take one unit of semaphore `id`. Blocked if there is none: the unit is
/// then handed over when it is released, first come, first served.
pub fn sem_acquire(sched: &mut Scheduler, id: usize) -> (r: Step<Result<(), BadSem>>)
    requires
        old(sched).wf(),
        holds_process(old(sched)@.procs[old(sched)@.current]),
        old(sched)@.sem_seq < u64::MAX,
    ensures
        final(sched).wf(),
        (final(sched)@, r) == old(sched)@.acquire_step(id),
{
    let ghost m = sched@;
    let idx: usize = sched.current_slot();
    let mut p = sched.at(idx);
    if p.sem_granted.is_some() {
        p.sem_granted = None;
        proof {
            put_same_sound(m, Set::empty(), idx as int, p);
        }
        sched.put(idx, p);
        return Step::Done(Ok(()));
    }
    if p.sem_wait.is_some() {
        return Step::Blocked;
    }
    if id >= NR_SEMS || !sched.sem_at(id).in_use {
        return Step::Done(Err(BadSem));
    }
    let mut s = sched.sem_at(id);
    if s.count > 0 {
        s.count = s.count - 1;
        proof {
            take_unit_sound(m, id as int, s);
        }
        sched.set_sem(id, s);
        return Step::Done(Ok(()));
    }
    proof {
        join_line_sound(m, id);
    }
    sched.pause(idx, Ghost(Set::empty()));
    let ticket: u64 = sched.take_ticket();
    let f: u16 = p.rts_flags;
    p.rts_flags = f | rts::SEM_WAIT;
    p.sem_wait = Some((id, ticket));
    sched.put(idx, p);
    Step::Blocked
}

/// Try again to take a unit of semaphore `id`, after having been blocked and
/// woken: an error if the semaphore was deleted meanwhile.
pub fn sem_reacquire(sched: &mut Scheduler, id: usize) -> (r: Step<Result<(), BadSem>>)
    requires
        old(sched).wf(),
        holds_process(old(sched)@.procs[old(sched)@.current]),
        old(sched)@.sem_seq < u64::MAX,
    ensures
        final(sched).wf(),
        (final(sched)@, r) == (if old(sched)@.lost_sem() {
            (old(sched)@, Step::Done(Err(BadSem)))
        } else {
            old(sched)@.acquire_step(id)
        }),
{
    let idx: usize = sched.current_slot();
    let p = sched.at(idx);
    if p.sem_wait.is_none() && p.sem_granted.is_none() {
        return Step::Done(Err(BadSem));
    }
    sem_acquire(sched, id)
}

/// Release one unit of semaphore `id`: straight to the one that waits
/// longest, or back into the count.
pub fn sem_release(sched: &mut Scheduler, id: usize) -> (r: Result<(), BadSem>)
    requires
        old(sched).wf(),
    ensures
        final(sched).wf(),
        r is Ok <==> old(sched)@.sem_exists(id),
        final(sched)@ == (if r is Ok {
            old(sched)@.release_unit(id)
        } else {
            old(sched)@
        }),
{
    if id >= NR_SEMS || !sched.sem_at(id).in_use {
        return Err(BadSem);
    }
    sched.release_unit(id, Ghost(Set::empty()));
    Ok(())
}

/// Delete semaphore `id`, waking everyone in its line. Only the owning team
/// may.
pub fn sem_delete(sched: &mut Scheduler, id: usize) -> (r: Result<(), BadSem>)
    requires
        old(sched).wf(),
    ensures
        final(sched).wf(),
        r is Ok <==> old(sched)@.sem_exists(id) && old(sched)@.sems[id as int].owner_team
            == old(sched)@.procs[old(sched)@.current].team,
        final(sched)@ == (if r is Ok {
            old(sched)@.delete_sem(id)
        } else {
            old(sched)@
        }),
{
    let idx: usize = sched.current_slot();
    let team: i32 = sched.at(idx).team;
    if id >= NR_SEMS || !sched.sem_at(id).in_use || sched.sem_at(id).owner_team != team {
        return Err(BadSem);
    }
    sched.delete_sem(id);
    Ok(())
}

} // verus!
