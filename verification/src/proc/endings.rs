//! What a process asks for when it or another one is to end: exit, kill,
//! wait, and the same for threads.
use vstd::prelude::*;

use crate::com;
use crate::com::{slot, slot_of};
use crate::proc::lifecycle::{holding, lower_keeps, raise_keeps};
use crate::proc::model::{
    first_from, in_table, Proc, SchedModel, NR_PROCS, STATUS_KILLED,
};
use crate::proc::rts;
use crate::proc::rts::flagged;
use crate::proc::scheduler::Scheduler;
use crate::proc::soundness::{
    alone, drop_exception, follower_is_alone, holds_process, led, lined_up_is_sending,
    put_same_sound, put_sound, queued_is_runnable, sound,
};

verus! {

/// The outcome of one attempt at a call that may have to wait: done, or the
/// caller is blocked and tries again when it next runs.
#[derive(Debug, PartialEq, Eq)]
pub enum Step<T> {
    Done(T),
    Blocked,
}

/// A process that ended: who it was, and the address space to reclaim, if
/// nothing runs in it any more.
#[derive(Clone, Copy)]
pub struct Ended {
    pub proc_nr: i32,
    pub name: &'static str,
    pub address_space: Option<u64>,
}

/// Whether a slot holds nothing that could still be killed.
pub open spec fn already_gone(f: u16) -> bool {
    flagged(f, rts::SLOT_FREE) || flagged(f, rts::DEAD) || flagged(f, rts::ZOMBIE)
}

impl SchedModel {
    /// The running process, told to end while it was inside a call, ends.
    pub open spec fn end_doomed(self) -> SchedModel {
        let i = self.current;
        let p = self.procs[i];
        let m = self.put(i, Proc { doomed: None, ..p });
        if p.team == p.proc_nr {
            m.finish_leader(i, (p.doomed->0).0, (p.doomed->0).1)
        } else {
            m.finish_thread(i)
        }
    }

    /// The address space that is free once `end_doomed` is done.
    pub open spec fn doomed_space(self) -> Option<u64> {
        let i = self.current;
        let p = self.procs[i];
        let m = self.put(i, Proc { doomed: None, ..p });
        if p.team == p.proc_nr {
            m.leader_space(i, (p.doomed->0).1)
        } else {
            m.thread_space(i)
        }
    }

    /// The first slot that holds the status of a child of `team`.
    pub open spec fn zombie_of(self, team: i32) -> Option<int> {
        first_from(
            0,
            NR_PROCS as int,
            |i: int| self.procs[i].parent == team && self.procs[i].exit_status is Some,
        )
    }

    /// Whether `team` has a child that could still end or be collected.
    pub open spec fn has_children(self, team: i32) -> bool {
        exists|i: int|
            0 <= i < NR_PROCS && (#[trigger] self.procs[i]).parent == team && !flagged(
                self.flags(i),
                rts::SLOT_FREE,
            )
    }

    /// What the running process finds when it waits for a child: one handed
    /// over, one that ended before, none at all, or none that ended yet.
    pub open spec fn wait_step(self) -> (SchedModel, Step<Option<(i32, i32)>>) {
        let i = self.current;
        let p = self.procs[i];
        let me = p.team;
        match p.wait_result {
            Some(child) => (
                self.put(i, Proc { wait_result: None, ..p }),
                Step::Done(Some(child)),
            ),
            None => match self.zombie_of(me) {
                Some(z) => (
                    self.free_slot(z),
                    Step::Done(Some((self.procs[z].proc_nr, self.procs[z].exit_status->0))),
                ),
                None => if !self.has_children(me) {
                    (self, Step::Done(None))
                } else {
                    (self.block(i, rts::WAITING), Step::Blocked)
                },
            },
        }
    }

    /// Whether slot `i` holds a member of `team` blocked joining `target`.
    pub open spec fn joins(self, i: int, team: i32, target: i32) -> bool {
        self.is_member(i, team) && flagged(self.flags(i), rts::JOINING)
            && self.procs[i].join_target == target
    }

    /// Those of the first `n` slots that join `target` run again.
    pub open spec fn wake_joiners(self, team: i32, target: i32, n: int) -> SchedModel
        decreases n,
    {
        if n <= 0 {
            self
        } else {
            let m = self.wake_joiners(team, target, n - 1);
            if m.joins(n - 1, team, target) {
                m.unblock(n - 1, rts::JOINING)
            } else {
                m
            }
        }
    }

    /// The first slot that joins `target`.
    pub open spec fn first_joiner(self, team: i32, target: i32) -> Option<int> {
        first_from(0, NR_PROCS as int, |i: int| self.joins(i, team, target))
    }

    /// The first joiner of the running thread has its status, and every
    /// joiner runs again.
    pub open spec fn status_to_joiners(self, status: i32) -> SchedModel {
        let p = self.procs[self.current];
        let first = self.first_joiner(p.team, p.proc_nr)->0;
        self.put(
            first,
            Proc { wait_result: Some((p.proc_nr, status)), ..self.procs[first] },
        ).wake_joiners(p.team, p.proc_nr, NR_PROCS as int)
    }

    /// The running thread ends: handed to those that join it, or kept as a
    /// zombie until one does.
    pub open spec fn thread_end(self, status: i32) -> SchedModel {
        let i = self.current;
        let p = self.procs[i];
        if self.first_joiner(p.team, p.proc_nr) is Some {
            self.status_to_joiners(status).finish_thread(i)
        } else {
            let m = self.dequeue(i).detached(i);
            m.put(
                i,
                Proc {
                    exit_status: Some(status),
                    rts_flags: m.flags(i) | rts::ZOMBIE,
                    ..m.procs[i]
                },
            )
        }
    }

    /// The address space that is free once `thread_end` is done.
    pub open spec fn thread_end_space(self, status: i32) -> Option<u64> {
        let i = self.current;
        let p = self.procs[i];
        if self.first_joiner(p.team, p.proc_nr) is Some {
            self.status_to_joiners(status).thread_space(i)
        } else {
            self.dequeue(i).last_space(i)
        }
    }

    /// Whether the running process may join `tid`: another thread of its
    /// team, not the leader.
    pub open spec fn joinable(self, tid: i32) -> bool {
        let p = self.procs[self.current];
        &&& -com::NR_TASKS <= tid
        &&& tid + com::NR_TASKS < com::NR_PROC_SLOTS
        &&& tid != p.proc_nr
        &&& tid != p.team
        &&& self.is_member(slot_of(tid), p.team)
    }

    /// What the running process finds when it joins `tid`.
    pub open spec fn join_step(self, tid: i32) -> (SchedModel, Step<Result<i32, JoinError>>) {
        let i = self.current;
        let p = self.procs[i];
        let m = self.put(i, Proc { wait_result: None, ..p });
        if p.wait_result is Some && (p.wait_result->0).0 == tid {
            (m, Step::Done(Ok((p.wait_result->0).1)))
        } else if !m.joinable(tid) {
            (m, Step::Done(Err(JoinError::NotAThread)))
        } else {
            match m.procs[slot_of(tid)].exit_status {
                Some(status) => (m.free_slot(slot_of(tid)), Step::Done(Ok(status))),
                None => {
                    let n = m.block(i, rts::JOINING);
                    (n.put(i, Proc { join_target: tid, ..n.procs[i] }), Step::Blocked)
                },
            }
        }
    }
}

/// Nobody is led by a process that has ended.
pub proof fn zombie_is_alone(m: SchedModel, z: int)
    requires
        sound(m),
        0 <= z < NR_PROCS,
        flagged(m.flags(z), rts::ZOMBIE),
    ensures
        alone(m, z),
{
    assert forall|j: int|
        #![trigger m.procs[j]]
        0 <= j < NR_PROCS && j != z && m.procs[j].team != com::NONE implies slot_of(
        m.procs[j].team,
    ) != z by {
        assert(led(m.procs, j));
    }
}

/// `exit()`: the running process ends with `status`, and with it its whole
/// team.
pub fn exit_now(sched: &mut Scheduler, status: i32) -> (ended: Ended)
    requires
        old(sched).wf(),
        holds_process(old(sched)@.procs[old(sched)@.current]),
    ensures
        final(sched).wf(),
        ({
            let m = old(sched)@;
            let p = m.procs[m.current];
            &&& final(sched)@ == m.end_team(p.team, status, false)
            &&& ended.proc_nr == p.proc_nr
            &&& ended.name == p.name
            &&& ended.address_space == m.team_space(p.team, status, false)
        }),
{
    let idx: usize = sched.current_slot();
    let p = sched.at(idx);
    let address_space = sched.end_team(p.team, status, false);
    Ended { proc_nr: p.proc_nr, name: p.name, address_space }
}

/// End the team of `proc_nr` because it faulted. A process that has already
/// ended, or a slot that holds none, is left alone.
pub fn kill(sched: &mut Scheduler, proc_nr: i32) -> (ended: Option<Ended>)
    requires
        old(sched).wf(),
        in_table(proc_nr),
        old(sched)@.flags(slot_of(proc_nr)) != rts::RESERVED,
    ensures
        final(sched).wf(),
        ({
            let m = old(sched)@;
            let p = m.procs[slot_of(proc_nr)];
            if already_gone(p.rts_flags) {
                ended is None && final(sched)@ == m
            } else {
                &&& final(sched)@ == m.end_team(p.team, STATUS_KILLED, true)
                &&& ended matches Some(e) && e.proc_nr == proc_nr && e.name == p.name
                    && e.address_space == m.team_space(p.team, STATUS_KILLED, true)
            }
        }),
{
    let idx: usize = slot(proc_nr);
    let p = sched.at(idx);
    if p.rts_flags & rts::SLOT_FREE != 0 || p.rts_flags & rts::DEAD != 0 || p.rts_flags & rts::ZOMBIE
        != 0 {
        return None;
    }
    let address_space = sched.end_team(p.team, STATUS_KILLED, true);
    Some(Ended { proc_nr, name: p.name, address_space })
}

/// Finish the running process off if its team was told to end while it was
/// inside a call; `None` if it was not.
pub fn die_if_doomed(sched: &mut Scheduler) -> (ended: Option<Ended>)
    requires
        old(sched).wf(),
        !flagged(old(sched)@.flags(old(sched)@.current), rts::SENDING),
    ensures
        final(sched).wf(),
        ({
            let m = old(sched)@;
            let p = m.procs[m.current];
            if p.doomed is None {
                ended is None && final(sched)@ == m
            } else {
                &&& final(sched)@ == m.end_doomed()
                &&& ended matches Some(e) && e.proc_nr == p.proc_nr && e.name == p.name
                    && e.address_space == m.doomed_space()
            }
        }),
{
    let idx: usize = sched.current_slot();
    let p = sched.at(idx);
    match p.doomed {
        None => None,
        Some((status, crashed)) => {
            let mut q = p;
            q.doomed = None;
            proof {
                put_same_sound(sched@, Set::empty(), idx as int, q);
                crate::proc::soundness::sound_mono(
                    sched@.put(idx as int, q),
                    Set::empty(),
                    Set::empty().insert(idx as int),
                );
            }
            sched.put(idx, q);
            let address_space = if p.team == p.proc_nr {
                sched.finish_leader(idx, status, crashed, Ghost(Set::empty()))
            } else {
                sched.finish_thread(idx)
            };
            Some(Ended { proc_nr: p.proc_nr, name: p.name, address_space })
        },
    }
}

/// `wait()`: collect a child of the running process's team that has ended.
/// Done with `None` if the team has no child at all; blocked if no child has
/// ended yet.
pub fn wait_for_child(sched: &mut Scheduler) -> (r: Step<Option<(i32, i32)>>)
    requires
        old(sched).wf(),
        holds_process(old(sched)@.procs[old(sched)@.current]),
    ensures
        final(sched).wf(),
        (final(sched)@, r) == old(sched)@.wait_step(),
{
    let ghost m = sched@;
    let idx: usize = sched.current_slot();
    let mut p = sched.at(idx);
    let me: i32 = p.team;
    if p.wait_result.is_some() {
        let found = p.wait_result;
        p.wait_result = None;
        proof {
            put_same_sound(m, Set::empty(), idx as int, p);
        }
        sched.put(idx, p);
        return Step::Done(found);
    }
    let mut i: usize = 0;
    let ghost f = |i: int| m.procs[i].parent == me && m.procs[i].exit_status is Some;
    let mut any: bool = false;
    while i < NR_PROCS
        invariant
            i <= NR_PROCS,
            sched.wf(),
            sched@ == m,
            m == old(sched)@,
            me == m.procs[m.current].team,
            m.procs[m.current].wait_result is None,
            f == (|i: int| m.procs[i].parent == me && m.procs[i].exit_status is Some),
            first_from(0, NR_PROCS as int, f) == first_from(i as int, NR_PROCS as int, f),
            any == (exists|j: int|
                0 <= j < i && (#[trigger] m.procs[j]).parent == me && !flagged(
                    m.flags(j),
                    rts::SLOT_FREE,
                )),
        decreases NR_PROCS - i,
    {
        let q = sched.at(i);
        if q.parent == me {
            match q.exit_status {
                Some(status) => {
                    let child: i32 = q.proc_nr;
                    proof {
                        let xs = Set::<int>::empty();
                        rts::none_set();
                        queued_is_runnable(m, xs, i as int);
                        lined_up_is_sending(m, xs, i as int);
                        crate::proc::soundness::sound_mono(m, xs, xs.insert(i as int));
                        zombie_is_alone(m, i as int);
                    }
                    sched.free_slot(i, Ghost(Set::empty()));
                    return Step::Done(Some((child, status)));
                },
                None => {
                    if q.rts_flags & rts::SLOT_FREE == 0 {
                        any = true;
                    }
                },
            }
        }
        i = i + 1;
    }
    if !any {
        return Step::Done(None);
    }
    proof {
        raise_keeps(m.procs[idx as int], idx as int, m.sem_seq, rts::WAITING);
    }
    sched.block(idx, rts::WAITING, Ghost(Set::empty()));
    Step::Blocked
}

/// Why a thread could not be joined.
#[derive(Debug, Clone, Copy, PartialEq, Eq)]
pub enum JoinError {
    /// Not a thread of the caller's team, or the caller itself, or the
    /// leader, or it went away.
    NotAThread,
}

/// Wait for thread `tid` of the running process's team to exit, and collect
/// its status.
pub fn thread_join(sched: &mut Scheduler, tid: i32) -> (r: Step<Result<i32, JoinError>>)
    requires
        old(sched).wf(),
        holds_process(old(sched)@.procs[old(sched)@.current]),
    ensures
        final(sched).wf(),
        (final(sched)@, r) == old(sched)@.join_step(tid),
{
    let ghost m0 = sched@;
    let idx: usize = sched.current_slot();
    let p = sched.at(idx);
    let mut q = p;
    q.wait_result = None;
    proof {
        put_same_sound(m0, Set::empty(), idx as int, q);
    }
    sched.put(idx, q);
    let ghost m = sched@;
    match p.wait_result {
        Some(found) => {
            if found.0 == tid {
                return Step::Done(Ok(found.1));
            }
        },
        None => {},
    }
    if tid < -(com::NR_TASKS as i32) || tid >= com::NR_PROC_SLOTS as i32 - com::NR_TASKS as i32 || tid
        == p.proc_nr || tid == p.team {
        return Step::Done(Err(JoinError::NotAThread));
    }
    let t: usize = slot(tid);
    if !sched.is_member(t, p.team) {
        return Step::Done(Err(JoinError::NotAThread));
    }
    match sched.at(t).exit_status {
        Some(status) => {
            proof {
                let xs = Set::<int>::empty();
                rts::none_set();
                queued_is_runnable(m, xs, t as int);
                lined_up_is_sending(m, xs, t as int);
                crate::proc::soundness::sound_mono(m, xs, xs.insert(t as int));
                follower_is_alone(m, xs, t as int);
            }
            sched.free_slot(t, Ghost(Set::empty()));
            Step::Done(Ok(status))
        },
        None => {
            proof {
                raise_keeps(m.procs[idx as int], idx as int, m.sem_seq, rts::JOINING);
            }
            sched.block(idx, rts::JOINING, Ghost(Set::empty()));
            let mut j = sched.at(idx);
            j.join_target = tid;
            proof {
                put_same_sound(sched@, Set::empty(), idx as int, j);
            }
            sched.put(idx, j);
            Step::Blocked
        },
    }
}

impl Scheduler {
    /// Wake every thread of `team` that joins `target`.
    fn wake_joiners(&mut self, team: i32, target: i32)
        requires
            old(self).wf(),
        ensures
            final(self).wf(),
            final(self)@ == old(self)@.wake_joiners(team, target, NR_PROCS as int),
            forall|j: int|
                0 <= j < NR_PROCS ==> (#[trigger] final(self)@.procs[j]).team
                    == old(self)@.procs[j].team,
            forall|j: int|
                0 <= j < NR_PROCS && holds_process(old(self)@.procs[j]) ==> holds_process(
                    #[trigger] final(self)@.procs[j],
                ),
            forall|j: int|
                0 <= j < NR_PROCS && !flagged(old(self)@.flags(j), rts::SENDING) ==> !flagged(
                    (#[trigger] final(self)@.procs[j]).rts_flags,
                    rts::SENDING,
                ),
    {
        let ghost m = self@;
        let mut i: usize = 0;
        while i < NR_PROCS
            invariant
                i <= NR_PROCS,
                self.wf(),
                m.procs.len() == NR_PROCS,
                self@ == m.wake_joiners(team, target, i as int),
                forall|j: int|
                    0 <= j < NR_PROCS ==> (#[trigger] self@.procs[j]).team == m.procs[j].team,
                forall|j: int|
                    0 <= j < NR_PROCS && holds_process(m.procs[j]) ==> holds_process(
                        #[trigger] self@.procs[j],
                    ),
                forall|j: int|
                    0 <= j < NR_PROCS && !flagged(m.flags(j), rts::SENDING) ==> !flagged(
                        (#[trigger] self@.procs[j]).rts_flags,
                        rts::SENDING,
                    ),
            decreases NR_PROCS - i,
        {
            let p = self.at(i);
            if self.is_member(i, team) && p.rts_flags & rts::JOINING != 0 && p.join_target == target {
                let ghost before = self@;
                proof {
                    lower_keeps(p, i as int, self@.sem_seq, rts::JOINING);
                    rts::lower(p.rts_flags, rts::JOINING);
                    assert(before.put(i as int, p) =~= before);
                }
                self.unblock_with(i, p, rts::JOINING, Ghost(Set::empty()));
            }
            i = i + 1;
        }
    }
}

/// End the running thread with `status`, for a joiner to collect. An error
/// if it is its team's leader, whose end is the team's.
pub fn thread_exit(sched: &mut Scheduler, status: i32) -> (r: Result<Ended, ()>)
    requires
        old(sched).wf(),
        holds_process(old(sched)@.procs[old(sched)@.current]),
        !flagged(old(sched)@.flags(old(sched)@.current), rts::SENDING),
    ensures
        final(sched).wf(),
        ({
            let m = old(sched)@;
            let p = m.procs[m.current];
            if p.team == p.proc_nr {
                r is Err && final(sched)@ == m
            } else {
                &&& final(sched)@ == m.thread_end(status)
                &&& r matches Ok(e) && e.proc_nr == p.proc_nr && e.name == p.name && e.address_space
                    == m.thread_end_space(status)
            }
        }),
{
    let ghost m = sched@;
    let idx: usize = sched.current_slot();
    let p = sched.at(idx);
    if p.team == p.proc_nr {
        return Err(());
    }
    let me: i32 = p.proc_nr;
    let team: i32 = p.team;
    let mut first: Option<usize> = None;
    let mut i: usize = 0;
    let ghost f = |i: int| m.joins(i, team, me);
    while i < NR_PROCS && first.is_none()
        invariant
            i <= NR_PROCS,
            sched.wf(),
            sched@ == m,
            f == (|i: int| m.joins(i, team, me)),
            first is None ==> first_from(0, NR_PROCS as int, f) == first_from(
                i as int,
                NR_PROCS as int,
                f,
            ),
            first matches Some(w) ==> w < NR_PROCS && first_from(0, NR_PROCS as int, f) == Some(
                w as int,
            ),
        decreases NR_PROCS - i,
    {
        let q = sched.at(i);
        if sched.is_member(i, team) && q.rts_flags & rts::JOINING != 0 && q.join_target == me {
            first = Some(i);
        }
        i = i + 1;
    }
    let address_space = match first {
        Some(w) => {
            let mut q = sched.at(w);
            q.wait_result = Some((me, status));
            proof {
                put_same_sound(m, Set::empty(), w as int, q);
            }
            sched.put(w, q);
            sched.wake_joiners(team, me);
            assert(sched@.procs[idx as int].team == team);
            sched.finish_thread(idx)
        },
        None => {
            sched.dequeue(idx, Ghost(Set::empty()));
            let ghost xs = Set::<int>::empty().insert(idx as int);
            let space = sched.release_address_space(idx, Ghost(xs));
            let mut q = sched.at(idx);
            proof {
                holding(q, idx as int, sched@.sem_seq);
                rts::raise(q.rts_flags, rts::ZOMBIE);
                rts::only(rts::RESERVED);
                rts::only(rts::SLOT_FREE);
                lined_up_is_sending(sched@, xs, idx as int);
                follower_is_alone(sched@, xs, idx as int);
            }
            q.exit_status = Some(status);
            q.rts_flags = q.rts_flags | rts::ZOMBIE;
            proof {
                put_sound(sched@, xs, idx as int, q);
                drop_exception(sched@.put(idx as int, q), Set::empty(), idx as int);
            }
            sched.put(idx, q);
            space
        },
    };
    Ok(Ended { proc_nr: me, name: p.name, address_space })
}

} // verus!
