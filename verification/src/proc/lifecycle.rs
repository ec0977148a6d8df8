//! How processes, threads and teams end.
use vstd::prelude::*;

use crate::com;
use crate::com::{slot, slot_of};
use crate::ipc::Message;
use crate::memory::map::MemMap;
use crate::proc::lists::listed;
use crate::proc::model::{
    first_from, in_table, Proc, SchedModel, Sem, NR_PORTS, NR_PROCS, NR_SEMS, STATUS_KILLED,
};
use crate::proc::rts;
use crate::proc::rts::flagged;
use crate::proc::scheduler::Scheduler;
use crate::proc::soundness::{
    alone, change_unblock_sound, drop_exception, follower_is_alone, holds_process,
    lined_up_is_sending, lone_leader_is_alone, put_sound, queued_is_runnable, slot_ok, sound,
    sound_but, sound_mono,
};

verus! {

/// Whether two entries are of the same process, apart from what it waits
/// for and when it runs.
pub open spec fn kin(a: Proc, b: Proc) -> bool {
    &&& a.proc_nr == b.proc_nr
    &&& a.team == b.team
    &&& a.parent == b.parent
    &&& a.cr3 == b.cr3
    &&& a.doomed == b.doomed
    &&& a.exit_status == b.exit_status
    &&& flagged(a.rts_flags, rts::SLOT_FREE) == flagged(b.rts_flags, rts::SLOT_FREE)
    &&& flagged(a.rts_flags, rts::RESERVED) == flagged(b.rts_flags, rts::RESERVED)
    &&& flagged(a.rts_flags, rts::SENDING) == flagged(b.rts_flags, rts::SENDING)
    &&& flagged(a.rts_flags, rts::DRAINING) == flagged(b.rts_flags, rts::DRAINING)
}

/// Whether the same processes are there, apart from what they wait for and
/// when they run.
pub open spec fn all_kin(m: SchedModel, n: SchedModel) -> bool {
    &&& m.procs.len() == n.procs.len()
    &&& forall|j: int| 0 <= j < m.procs.len() ==> kin(#[trigger] m.procs[j], n.procs[j])
    &&& m.callers == n.callers
}

/// An entry holds a process iff it is neither free nor claimed.
pub proof fn holding(p: Proc, i: int, seq: u64)
    requires
        slot_ok(p, i, seq),
    ensures
        holds_process(p) == (!flagged(p.rts_flags, rts::SLOT_FREE) && !flagged(
            p.rts_flags,
            rts::RESERVED,
        )),
{
    rts::only(rts::RESERVED);
}

/// The one that waits longest waits, and nobody came before it; where there
/// is none, nobody waits.
pub proof fn longest_waiter_waits(m: SchedModel, id: usize, n: int)
    requires
        0 <= n <= m.procs.len(),
    ensures
        match m.longest_waiter(id, n) {
            Some(w) => {
                &&& 0 <= w < n
                &&& m.procs[w].sem_wait is Some
                &&& (m.procs[w].sem_wait->0).0 == id
                &&& forall|j: int|
                    #![trigger m.procs[j]]
                    0 <= j < n && m.procs[j].sem_wait is Some && (m.procs[j].sem_wait->0).0 == id
                        ==> (m.procs[w].sem_wait->0).1 <= (m.procs[j].sem_wait->0).1
            },
            None => forall|j: int|
                #![trigger m.procs[j]]
                0 <= j < n && m.procs[j].sem_wait is Some ==> (m.procs[j].sem_wait->0).0 != id,
        },
    decreases n,
{
    if n > 0 {
        longest_waiter_waits(m, id, n - 1);
    }
}

/// Putting a unit back into the count of a semaphore nobody waits for keeps
/// everything.
pub proof fn set_sem_sound(m: SchedModel, xs: Set<int>, id: int, s: Sem)
    requires
        sound_but(m, xs),
        0 <= id < NR_SEMS,
        s.count >= 0,
        forall|j: int|
            #![trigger m.procs[j]]
            0 <= j < NR_PROCS && m.procs[j].sem_wait is Some ==> (m.procs[j].sem_wait->0).0 != id,
    ensures
        sound_but(SchedModel { sems: m.sems.update(id, s), ..m }, xs),
{
    let n = SchedModel { sems: m.sems.update(id, s), ..m };
    assert forall|q: int, k: int|
        #![trigger n.queues[q][k]]
        0 <= q < n.queues.len() && 0 <= k < n.queues[q].len() implies {
        &&& 0 <= n.queues[q][k] < NR_PROCS
        &&& n.flags(n.queues[q][k]) == 0
        &&& n.procs[n.queues[q][k]].priority == q
    } by {
        assert(m.queues[q][k] == n.queues[q][k]);
    }
    assert forall|d: int, k: int|
        #![trigger n.callers[d][k]]
        0 <= d < n.callers.len() && 0 <= k < n.callers[d].len() implies {
        &&& 0 <= n.callers[d][k] < NR_PROCS
        &&& flagged(n.flags(n.callers[d][k]), rts::SENDING)
        &&& slot_of(n.procs[n.callers[d][k]].send_to) == d
    } by {
        assert(m.callers[d][k] == n.callers[d][k]);
    }
    assert forall|j: int|
        #![trigger n.procs[j]]
        0 <= j < NR_PROCS && !xs.contains(j) && n.flags(j) == 0
            implies n.queues[n.procs[j].priority as int].contains(j) by {
        assert(m.procs[j] == n.procs[j]);
    }
    assert forall|j: int| 0 <= j < NR_PROCS && #[trigger] n.procs[j].sem_wait is Some implies {
        let a = (n.procs[j].sem_wait->0).0 as int;
        n.sems[a].in_use && n.sems[a].count == 0
    } by {
        assert(m.procs[j] == n.procs[j]);
    }
}

impl Scheduler {
    /// Give one unit of semaphore `id` to the one that waits longest, or
    /// back to the count.
    pub(crate) fn release_unit(&mut self, id: usize, Ghost(xs): Ghost<Set<int>>)
        requires
            old(self).linked(),
            sound_but(old(self)@, xs),
            id < NR_SEMS,
        ensures
            final(self).linked(),
            final(self)@ == old(self)@.release_unit(id),
            sound_but(final(self)@, xs),
            all_kin(old(self)@, final(self)@),
            forall|j: int|
                !listed(old(self)@.queues, j) && !(old(self)@.procs[j].sem_wait is Some)
                    ==> !#[trigger] listed(final(self)@.queues, j),
    {
        let ghost m = self@;
        let mut best: Option<usize> = None;
        let mut i: usize = 0;
        while i < NR_PROCS
            invariant
                i <= NR_PROCS,
                self@ == m,
                m.procs.len() == NR_PROCS,
                crate::proc::lists::as_int(best) == m.longest_waiter(id, i as int),
                best matches Some(b) ==> b < NR_PROCS,
            decreases NR_PROCS - i,
        {
            proof {
                longest_waiter_waits(m, id, i as int);
            }
            match self.at(i).sem_wait {
                Some(w) => {
                    if w.0 == id {
                        let better: bool = match best {
                            Some(b) => match self.at(b).sem_wait {
                                Some(v) => w.1 < v.1,
                                None => false,
                            },
                            None => true,
                        };
                        if better {
                            best = Some(i);
                        }
                    }
                },
                None => {},
            }
            i = i + 1;
        }
        proof {
            longest_waiter_waits(m, id, NR_PROCS as int);
        }
        match best {
            Some(w) => {
                let mut p = self.at(w);
                proof {
                    rts::lower(p.rts_flags, rts::SEM_WAIT);
                    holding(p, w as int, m.sem_seq);
                    rts::only(rts::RESERVED);
                    rts::only(rts::SLOT_FREE);
                }
                p.sem_wait = None;
                p.sem_granted = Some(id);
                proof {
                    change_unblock_sound(m, xs, w as int, p, rts::SEM_WAIT);
                }
                self.unblock_with(w, p, rts::SEM_WAIT, Ghost(xs));
            },
            None => {
                let mut s = self.sem_at(id);
                s.count = if s.count == i32::MAX {
                    s.count
                } else {
                    s.count + 1
                };
                proof {
                    set_sem_sound(m, xs, id as int, s);
                }
                self.set_sem(id, s);
            },
        }
    }

    /// Hand a unit that `idx` was given and will not take on to the next
    /// waiter, or back to the count.
    pub(crate) fn forfeit_grant(&mut self, idx: usize, Ghost(xs): Ghost<Set<int>>)
        requires
            old(self).linked(),
            sound_but(old(self)@, xs),
            idx < NR_PROCS,
        ensures
            final(self).linked(),
            final(self)@ == old(self)@.forfeit_grant(idx as int),
            sound_but(final(self)@, xs),
            all_kin(old(self)@, final(self)@),
            !listed(old(self)@.queues, idx as int) && !(old(self)@.procs[idx as int].sem_wait is Some)
                ==> !listed(final(self)@.queues, idx as int),
    {
        let mut p = self.at(idx);
        match p.sem_granted {
            Some(id) => {
                p.sem_granted = None;
                proof {
                    holding(self@.procs[idx as int], idx as int, self@.sem_seq);
                    crate::proc::soundness::put_same_sound(self@, xs, idx as int, p);
                }
                let ghost m = self@;
                self.put(idx, p);
                if self.sem_at(id).in_use {
                    let ghost n = self@;
                    self.release_unit(id, Ghost(xs));
                    assert forall|j: int| 0 <= j < m.procs.len() implies kin(
                        #[trigger] m.procs[j],
                        self@.procs[j],
                    ) by {
                        assert(kin(n.procs[j], self@.procs[j]));
                    }
                }
            },
            None => {},
        }
    }

    /// Whether slot `i` holds a member of `team`.
    pub(crate) fn is_member(&self, i: usize, team: i32) -> (r: bool)
        requires
            i < self@.procs.len(),
        ensures
            r == self@.is_member(i as int, team),
    {
        let p = self.at(i);
        p.rts_flags & rts::SLOT_FREE == 0 && p.rts_flags != rts::RESERVED && p.team == team && team
            != com::NONE
    }

    /// Whether `team` has a member other than its leader.
    pub(crate) fn has_other_members(&self, team: i32) -> (r: bool)
        requires
            self@.procs.len() == NR_PROCS,
            team + com::NR_TASKS <= i32::MAX,
        ensures
            r == self@.has_other_members(team),
    {
        let leader: usize = slot(team);
        let mut i: usize = 0;
        while i < NR_PROCS
            invariant
                i <= NR_PROCS,
                self@.procs.len() == NR_PROCS,
                leader == slot_of(team),
                forall|j: int| 0 <= j < i && j != leader ==> !#[trigger] self@.is_member(j, team),
            decreases NR_PROCS - i,
        {
            if i != leader && self.is_member(i, team) {
                return true;
            }
            i = i + 1;
        }
        false
    }

    /// Whether `idx` is blocked where freeing it would leave another process
    /// hanging: in line to send, waiting for a particular server's reply, or
    /// with a server in line to send to it.
    pub(crate) fn must_linger(&self, idx: usize) -> (r: bool)
        requires
            self.linked(),
            sound(self@),
            idx < NR_PROCS,
        ensures
            r == self@.must_linger(idx as int),
    {
        let p = self.at(idx);
        p.rts_flags & rts::SENDING != 0 || (p.rts_flags & rts::RECEIVING != 0 && p.get_from != com::ANY
            && p.get_from != com::CLOCK) || self.has_callers(idx)
    }

    /// Detach the address space of `idx`; returns it if nothing else runs in
    /// it.
    pub(crate) fn release_address_space(&mut self, idx: usize, Ghost(xs): Ghost<Set<int>>) -> (r:
        Option<u64>)
        requires
            old(self).linked(),
            sound_but(old(self)@, xs),
            idx < NR_PROCS,
        ensures
            final(self).linked(),
            final(self)@ == old(self)@.detached(idx as int),
            sound_but(final(self)@, xs),
            r == old(self)@.last_space(idx as int),
    {
        let mut p = self.at(idx);
        match p.cr3 {
            None => None,
            Some(pml4) => {
                let ghost m = self@;
                p.cr3 = None;
                p.mem_map = MemMap::empty();
                proof {
                    crate::proc::soundness::put_same_sound(m, xs, idx as int, p);
                }
                self.put(idx, p);
                let mut i: usize = 0;
                while i < NR_PROCS
                    invariant
                        i <= NR_PROCS,
                        self.linked(),
                        m == old(self)@,
                        idx < NR_PROCS,
                        self@ == m.detached(idx as int),
                        sound_but(self@, xs),
                        m.procs[idx as int].cr3 == Some(pml4),
                        forall|j: int|
                            0 <= j < i && j != idx && !flagged(
                                #[trigger] self@.flags(j),
                                rts::SLOT_FREE,
                            ) ==> self@.procs[j].cr3 != Some(pml4),
                    decreases NR_PROCS - i,
                {
                    let other = self.at(i);
                    if i != idx && other.rts_flags & rts::SLOT_FREE == 0 {
                        match other.cr3 {
                            Some(o) => {
                                if o == pml4 {
                                    assert(!flagged(self@.flags(i as int), rts::SLOT_FREE));
                                    return None;
                                }
                            },
                            None => {},
                        }
                    }
                    i = i + 1;
                }
                Some(pml4)
            },
        }
    }

    /// Deliver a notification to `dst_idx` if it is blocked waiting for one;
    /// returns whether it was delivered.
    pub(crate) fn try_deliver_notification(
        &mut self,
        dst_idx: usize,
        src_proc_nr: i32,
        m_type: i32,
        Ghost(xs): Ghost<Set<int>>,
    ) -> (r: bool)
        requires
            old(self).linked(),
            sound_but(old(self)@, xs),
            dst_idx < NR_PROCS,
        ensures
            final(self).linked(),
            final(self)@ == old(self)@.notify(dst_idx as int, src_proc_nr, m_type),
            sound_but(final(self)@, xs),
            r == old(self)@.hears(dst_idx as int, src_proc_nr),
    {
        let mut p = self.at(dst_idx);
        let accepted: bool = p.rts_flags & rts::RECEIVING != 0 && p.rts_flags & rts::SENDING == 0 && (
        p.get_from == com::ANY || p.get_from == src_proc_nr);
        if accepted {
            p.messbuf = Message { source: src_proc_nr, m_type, args: [0, 0, 0, 0] };
            proof {
                lower_keeps(self@.procs[dst_idx as int], dst_idx as int, self@.sem_seq, rts::RECEIVING);
            }
            self.unblock_with(dst_idx, p, rts::RECEIVING, Ghost(xs));
        }
        accepted
    }
}

impl Scheduler {
    /// The thread of `parent`'s team that waits for a child.
    fn child_waiter(&self, parent: i32) -> (r: Option<usize>)
        requires
            self@.procs.len() == NR_PROCS,
            in_table(parent),
        ensures
            crate::proc::lists::as_int(r) == self@.child_waiter(parent),
            r matches Some(w) ==> w < NR_PROCS && self@.is_member(
                w as int,
                self@.procs[slot_of(parent)].team,
            ) && flagged(self@.flags(w as int), rts::WAITING),
    {
        let team: i32 = self.at(slot(parent)).team;
        let mut i: usize = 0;
        let ghost f = |i: int| self@.is_member(i, team) && flagged(self@.flags(i), rts::WAITING);
        while i < NR_PROCS
            invariant
                i <= NR_PROCS,
                self@.procs.len() == NR_PROCS,
                team == self@.procs[slot_of(parent)].team,
                f == (|i: int| self@.is_member(i, team) && flagged(self@.flags(i), rts::WAITING)),
                first_from(0, NR_PROCS as int, f) == first_from(i as int, NR_PROCS as int, f),
            decreases NR_PROCS - i,
        {
            if self.is_member(i, team) && self.at(i).rts_flags & rts::WAITING != 0 {
                return Some(i);
            }
            i = i + 1;
        }
        None
    }

    /// The bookkeeping shared by every way a process stops existing. Returns
    /// the address space to reclaim.
    fn terminate(&mut self, idx: usize, status: i32, crashed: bool, Ghost(xs): Ghost<Set<int>>) -> (r:
        Option<u64>)
        requires
            old(self).linked(),
            sound_but(old(self)@, xs.insert(idx as int)),
            idx < NR_PROCS,
            holds_process(old(self)@.procs[idx as int]),
            !flagged(old(self)@.flags(idx as int), rts::SENDING),
            old(self)@.procs[idx as int].team == idx - com::NR_TASKS,
            !old(self)@.has_other_members(old(self)@.procs[idx as int].team),
        ensures
            final(self).linked(),
            final(self)@ == old(self)@.terminate(idx as int, status, crashed),
            sound_but(final(self)@, xs),
            r == old(self)@.stopped(idx as int, crashed).last_space(idx as int),
    {
        let ghost ys = xs.insert(idx as int);
        let ghost m0 = self@;
        let i = Ghost(idx as int);
        self.pause(idx, Ghost(ys));
        assert(ys.insert(idx as int) =~= ys);
        proof {
            raise_keeps(m0.procs[i@], i@, m0.sem_seq, rts::DEAD);
            rts::raise(m0.flags(i@), rts::DEAD);
        }
        if crashed {
            let f: u16 = self.at(idx).rts_flags;
            proof {
                lined_up_is_sending(self@, ys, i@);
                put_sound(
                    self@,
                    ys,
                    i@,
                    Proc { rts_flags: f | rts::DEAD, ..self@.procs[i@] },
                );
            }
            self.set_flags(idx, f | rts::DEAD);
        }
        assert(self@ == m0.stopped(i@, crashed));
        let ghost m1 = self@;
        let space = self.release_address_space(idx, Ghost(ys));
        proof {
            assert forall|j: int| 0 <= j < NR_PROCS && j != i@ implies !#[trigger] self@.is_member(
                j,
                self@.procs[i@].team,
            ) by {
                assert(!m0.is_member(j, m0.procs[i@].team));
            }
            lone_leader_is_alone(self@, ys, i@, self@.procs[i@].team);
        }
        self.bury(idx, status, Ghost(xs));
        space
    }

    /// Decide what happens to slot `idx`, off its queue and detached, and to
    /// the status it ended with.
    fn bury(&mut self, idx: usize, status: i32, Ghost(xs): Ghost<Set<int>>)
        requires
            old(self).linked(),
            sound_but(old(self)@, xs.insert(idx as int)),
            idx < NR_PROCS,
            !listed(old(self)@.queues, idx as int),
            holds_process(old(self)@.procs[idx as int]),
            !flagged(old(self)@.flags(idx as int), rts::SENDING),
            forall|j: int|
                0 <= j < NR_PROCS && j != idx ==> !#[trigger] old(self)@.is_member(
                    j,
                    old(self)@.procs[idx as int].team,
                ),
            alone(old(self)@, idx as int),
        ensures
            final(self).linked(),
            final(self)@ == old(self)@.bury(idx as int, status),
            sound_but(final(self)@, xs),
    {
        let ghost ys = xs.insert(idx as int);
        let i = Ghost(idx as int);
        let ghost m2 = self@;
        let p = self.at(idx);
        proof {
            lined_up_is_sending(m2, ys, i@);
        }
        let lives: bool = p.parent != com::NONE && self.at(slot(p.parent)).rts_flags & rts::SLOT_FREE
            == 0;
        if !lives {
            self.free_slot(idx, Ghost(xs));
        } else {
            match self.child_waiter(p.parent) {
                Some(w) => {
                    proof {
                        let s = slot_of(p.parent);
                        // Nobody else is of this team, so the waiter is
                        // another process.
                        if w == i@ {
                            assert(m2.procs[s].team == p.team);
                            assert(m2.is_member(s, p.team));
                        }
                        lower_keeps(m2.procs[w as int], w as int, m2.sem_seq, rts::WAITING);
                    }
                    let mut q = self.at(w);
                    q.wait_result = Some((p.proc_nr, status));
                    proof {
                        change_unblock_sound(m2, ys, w as int, q, rts::WAITING);
                    }
                    self.unblock_with(w, q, rts::WAITING, Ghost(ys));
                    self.free_slot(idx, Ghost(xs));
                },
                None => {
                    let mut q = p;
                    q.exit_status = Some(status);
                    q.rts_flags = p.rts_flags | rts::ZOMBIE;
                    proof {
                        rts::raise(p.rts_flags, rts::ZOMBIE);
                        rts::only(rts::RESERVED);
                        rts::only(rts::SLOT_FREE);
                        holding(p, i@, m2.sem_seq);
                        put_sound(m2, ys, i@, q);
                        drop_exception(m2.put(i@, q), xs, i@);
                    }
                    self.put(idx, q);
                },
            }
        }
    }

    /// The leader's end: parked while members are still finishing calls,
    /// else terminated.
    pub(crate) fn finish_leader(&mut self, leader: usize, status: i32, crashed: bool, Ghost(xs): Ghost<Set<int>>) -> (r:
        Option<u64>)
        requires
            old(self).linked(),
            sound_but(old(self)@, xs.insert(leader as int)),
            leader < NR_PROCS,
            holds_process(old(self)@.procs[leader as int]),
            !flagged(old(self)@.flags(leader as int), rts::SENDING),
            old(self)@.procs[leader as int].team == leader - com::NR_TASKS,
        ensures
            final(self).linked(),
            final(self)@ == old(self)@.finish_leader(leader as int, status, crashed),
            sound_but(final(self)@, xs),
            r == old(self)@.leader_space(leader as int, crashed),
    {
        let ghost ys = xs.insert(leader as int);
        let ghost l = leader as int;
        let ghost m0 = self@;
        let team: i32 = self.at(leader).proc_nr;
        self.forfeit_grant(leader, Ghost(ys));
        let ghost m1 = self@;
        let mut p = self.at(leader);
        proof {
            assert(kin(m0.procs[l], m1.procs[l]));
            holding(m0.procs[l], l, m0.sem_seq);
            holding(p, l, m1.sem_seq);
            rts::lower(p.rts_flags, rts::SEM_WAIT);
            rts::only(rts::RESERVED);
            rts::only(rts::SLOT_FREE);
            lined_up_is_sending(m1, ys, l);
            if p.rts_flags != 0 {
                queued_is_runnable(m1, ys, l);
            }
            assert(0u16 & !rts::SEM_WAIT == 0) by (bit_vector);
        }
        p.sem_wait = None;
        p.rts_flags = p.rts_flags & !rts::SEM_WAIT;
        proof {
            put_sound(m1, ys, l, p);
        }
        self.put(leader, p);
        let ghost m2 = self@;
        assert(m2 == m0.out_of_line(l));
        if self.has_other_members(team) {
            proof {
                raise_keeps(p, l, m2.sem_seq, rts::DRAINING);
            }
            self.block(leader, rts::DRAINING, Ghost(ys));
            proof {
                drop_exception(self@, xs, l);
            }
            let mut d = self.at(leader);
            d.doomed = Some((status, crashed));
            proof {
                crate::proc::soundness::put_same_sound(self@, xs, l, d);
            }
            self.put(leader, d);
            return None;
        }
        let space = self.terminate(leader, status, crashed, Ghost(xs));
        if crashed {
            let _delivered: bool = self.try_deliver_notification(
                slot(com::RS_PROC_NR),
                com::KERNEL,
                com::proc_died(team),
                Ghost(xs),
            );
        }
        space
    }

    /// Remove a thread outright: no status, nothing to collect.
    fn discard(&mut self, idx: usize) -> (r: Option<u64>)
        requires
            old(self).wf(),
            idx < NR_PROCS,
            !flagged(old(self)@.flags(idx as int), rts::SENDING),
            slot_of(old(self)@.procs[idx as int].team) != idx,
        ensures
            final(self).wf(),
            final(self)@ == old(self)@.discard(idx as int),
            r == old(self)@.pause(idx as int).last_space(idx as int),
    {
        let ghost none = Set::<int>::empty();
        self.pause(idx, Ghost(none));
        let space = self.release_address_space(idx, Ghost(none.insert(idx as int)));
        proof {
            lined_up_is_sending(self@, none.insert(idx as int), idx as int);
            follower_is_alone(self@, none.insert(idx as int), idx as int);
        }
        self.free_slot(idx, Ghost(none));
        space
    }

    /// The end of a member other than the leader; if that was the last one a
    /// parked leader was waiting for, the leader ends too.
    pub(crate) fn finish_thread(&mut self, idx: usize) -> (r: Option<u64>)
        requires
            old(self).wf(),
            idx < NR_PROCS,
            holds_process(old(self)@.procs[idx as int]),
            !flagged(old(self)@.flags(idx as int), rts::SENDING),
            slot_of(old(self)@.procs[idx as int].team) != idx,
        ensures
            final(self).wf(),
            final(self)@ == old(self)@.finish_thread(idx as int),
            r == old(self)@.thread_space(idx as int),
    {
        let ghost none = Set::<int>::empty();
        let ghost m0 = self@;
        let team: i32 = self.at(idx).team;
        self.forfeit_grant(idx, Ghost(none));
        proof {
            assert(kin(m0.procs[idx as int], self@.procs[idx as int]));
        }
        let mut space = self.discard(idx);
        let leader: usize = slot(team);
        let ghost m = self@;
        let ghost l = leader as int;
        if self.is_member(leader, team) && self.at(leader).rts_flags & rts::DRAINING != 0
            && !self.has_other_members(team) {
            let mut p = self.at(leader);
            let (status, crashed) = match p.doomed {
                Some(v) => v,
                None => (STATUS_KILLED, true),
            };
            proof {
                lower_keeps(p, l, m.sem_seq, rts::DRAINING);
                rts::lower(p.rts_flags, rts::DRAINING);
                lined_up_is_sending(m, none, l);
                rts::none_set();
                queued_is_runnable(m, none, l);
                sound_mono(m, none, none.insert(l));
            }
            p.doomed = None;
            p.rts_flags = p.rts_flags & !rts::DRAINING;
            proof {
                put_sound(m, none.insert(l), l, p);
            }
            self.put(leader, p);
            let freed = self.finish_leader(leader, status, crashed, Ghost(none));
            if freed.is_some() {
                space = freed;
            }
        }
        space
    }

    /// End the wait of `idx` for a port.
    pub(crate) fn stop_port_wait(&mut self, idx: usize)
        requires
            old(self).wf(),
            idx < NR_PROCS,
            flagged(old(self)@.flags(idx as int), rts::PORT_WAIT),
        ensures
            final(self).wf(),
            final(self)@ == old(self)@.stop_port_wait(idx as int),
            !flagged(final(self)@.flags(idx as int), rts::PORT_WAIT),
    {
        let mut p = self.at(idx);
        proof {
            rts::lower(p.rts_flags, rts::PORT_WAIT);
            rts::only(rts::RESERVED);
            rts::only(rts::SLOT_FREE);
            holding(p, idx as int, self@.sem_seq);
        }
        p.port_wait = None;
        p.wait_deadline = None;
        self.unblock_with(idx, p, rts::PORT_WAIT, Ghost(Set::empty()));
    }

    /// Wake everyone who waits on port slot `port` to look again.
    pub(crate) fn wake_port_waiters(&mut self, port: usize)
        requires
            old(self).wf(),
        ensures
            final(self).wf(),
            final(self)@ == old(self)@.wake_port_waiters(port, NR_PROCS as int),
    {
        let ghost m = self@;
        let mut i: usize = 0;
        while i < NR_PROCS
            invariant
                i <= NR_PROCS,
                self.wf(),
                self@ == m.wake_port_waiters(port, i as int),
            decreases NR_PROCS - i,
        {
            let waits: bool = match self.at(i).port_wait {
                Some(s) => s == port,
                None => false,
            };
            if waits {
                self.stop_port_wait(i);
            }
            i = i + 1;
        }
    }

    /// Wake everyone who waits on any port to look again.
    pub(crate) fn wake_all_port_waiters(&mut self)
        requires
            old(self).wf(),
        ensures
            final(self).wf(),
            final(self)@ == old(self)@.wake_all_port_waiters(NR_PROCS as int),
    {
        let ghost m = self@;
        let mut i: usize = 0;
        while i < NR_PROCS
            invariant
                i <= NR_PROCS,
                self.wf(),
                self@ == m.wake_all_port_waiters(i as int),
            decreases NR_PROCS - i,
        {
            if self.at(i).rts_flags & rts::PORT_WAIT != 0 {
                self.stop_port_wait(i);
            }
            i = i + 1;
        }
    }

    /// Empty port slot `port`, and wake everyone who waits on a port.
    pub(crate) fn delete_port_slot(&mut self, port: usize)
        requires
            old(self).wf(),
            port < NR_PORTS,
        ensures
            final(self).wf(),
            final(self)@ == old(self)@.delete_port_slot(port as int),
    {
        proof {
            crate::proc::soundness::total_bytes_update(self@.ports, port as int, None);
            crate::proc::soundness::ports_sound(
                self@,
                self@.with_port(port as int, None),
                Set::empty(),
            );
        }
        self.drop_port(port);
        self.wake_all_port_waiters();
    }

    /// Delete semaphore `id`, waking everyone in its line.
    pub(crate) fn delete_sem(&mut self, id: usize)
        requires
            old(self).wf(),
            id < NR_SEMS,
        ensures
            final(self).wf(),
            final(self)@ == old(self)@.delete_sem(id),
    {
        let ghost m = self@;
        let mut i: usize = 0;
        while i < NR_PROCS
            invariant
                i <= NR_PROCS,
                self.wf(),
                id < NR_SEMS,
                self@ == m.let_all_go(id, i as int),
                forall|j: int|
                    #![trigger self@.procs[j]]
                    0 <= j < i && self@.procs[j].sem_wait is Some ==> (self@.procs[j].sem_wait->0).0
                        != id,
            decreases NR_PROCS - i,
        {
            let ghost before = self@;
            let mut p = self.at(i);
            let waits: bool = match p.sem_wait {
                Some(w) => w.0 == id,
                None => false,
            };
            if waits {
                proof {
                    rts::lower(p.rts_flags, rts::SEM_WAIT);
                    rts::only(rts::RESERVED);
                    rts::only(rts::SLOT_FREE);
                    holding(p, i as int, self@.sem_seq);
                }
                p.sem_wait = None;
                self.unblock_with(i, p, rts::SEM_WAIT, Ghost(Set::empty()));
            }
            assert forall|j: int| 0 <= j < i implies #[trigger] self@.procs[j] == before.procs[j] by {
            }
            i = i + 1;
        }
        proof {
            set_sem_sound(self@, Set::empty(), id as int, crate::proc::model::free_sem());
        }
        self.set_sem(id, Sem { in_use: false, count: 0, owner_team: com::NONE });
    }

    /// End every member of `team`, the leader last; a member with a call
    /// open is doomed instead. The team's semaphores and ports go too.
    /// Returns the address space to free, if nothing runs in it any more.
    pub(crate) fn end_team(&mut self, team: i32, status: i32, crashed: bool) -> (r: Option<u64>)
        requires
            old(self).wf(),
            in_table(team),
        ensures
            final(self).wf(),
            final(self)@ == old(self)@.end_team(team, status, crashed),
            r == old(self)@.team_space(team, status, crashed),
    {
        let ghost none = Set::<int>::empty();
        let ghost m = self@;
        let leader: usize = slot(team);
        let mut freed: Option<u64> = None;
        let mut i: usize = 0;
        while i < NR_PROCS
            invariant
                i <= NR_PROCS,
                self.wf(),
                leader == slot_of(team),
                self@ == m.end_members(i as int, team, status, crashed),
                freed == m.members_space(i as int, team, status, crashed),
            decreases NR_PROCS - i,
        {
            let p = self.at(i);
            if i != leader && self.is_member(i, team) && p.doomed.is_none() {
                if self.must_linger(i) {
                    self.doom(i, status, crashed);
                } else {
                    let space = self.finish_thread(i);
                    if space.is_some() {
                        freed = space;
                    }
                }
            }
            i = i + 1;
        }
        let ghost m1 = self@;
        let mut id: usize = 0;
        while id < NR_SEMS
            invariant
                id <= NR_SEMS,
                self.wf(),
                self@ == m1.delete_team_sems(team, id as int),
            decreases NR_SEMS - id,
        {
            let s = self.sem_at(id);
            if s.in_use && s.owner_team == team {
                self.delete_sem(id);
            }
            id = id + 1;
        }
        let ghost m2 = self@;
        let mut port: usize = 0;
        while port < NR_PORTS
            invariant
                port <= NR_PORTS,
                self.wf(),
                self@ == m2.delete_team_ports(team, port as int),
            decreases NR_PORTS - port,
        {
            let owned: bool = match self.port_owner(port) {
                Some(owner) => owner == team,
                None => false,
            };
            if owned {
                self.delete_port_slot(port);
            }
            port = port + 1;
        }
        let ghost m3 = self@;
        assert(m3 == m.end_followers(team, status, crashed));
        if self.is_member(leader, team) && self.at(leader).doomed.is_none() {
            if self.must_linger(leader) {
                self.doom(leader, status, crashed);
            } else {
                proof {
                    sound_mono(m3, none, none.insert(leader as int));
                }
                let space = self.finish_leader(leader, status, crashed, Ghost(none));
                if space.is_some() {
                    freed = space;
                }
            }
        }
        freed
    }

    /// Mark member `idx` to end when the call it is blocked in returns.
    fn doom(&mut self, idx: usize, status: i32, crashed: bool)
        requires
            old(self).wf(),
            idx < NR_PROCS,
            holds_process(old(self)@.procs[idx as int]),
        ensures
            final(self).wf(),
            final(self)@ == old(self)@.put(
                idx as int,
                (Proc { doomed: Some((status, crashed)), ..old(self)@.procs[idx as int] }),
            ),
    {
        let mut p = self.at(idx);
        p.doomed = Some((status, crashed));
        proof {
            crate::proc::soundness::put_same_sound(self@, Set::empty(), idx as int, p);
        }
        self.put(idx, p);
    }
}

/// Clearing a bit that says nothing but that the process waits keeps an
/// entry sound.
pub proof fn lower_keeps(p: Proc, i: int, seq: u64, bit: u16)
    requires
        slot_ok(p, i, seq),
        flagged(p.rts_flags, bit),
        bit == rts::RECEIVING || bit == rts::WAITING || bit == rts::JOINING || bit == rts::DRAINING
            || bit == rts::SENDING,
    ensures
        slot_ok(Proc { rts_flags: p.rts_flags & !bit, ..p }, i, seq),
        holds_process(p),
        holds_process(Proc { rts_flags: p.rts_flags & !bit, ..p }),
{
    rts::lower(p.rts_flags, bit);
    rts::only(rts::RESERVED);
    rts::only(rts::SLOT_FREE);
    holding(p, i, seq);
}

/// Setting a bit that says nothing but that the process waits keeps an entry
/// that holds a process sound.
pub proof fn raise_keeps(p: Proc, i: int, seq: u64, bit: u16)
    requires
        slot_ok(p, i, seq),
        holds_process(p),
        bit == rts::RECEIVING || bit == rts::WAITING || bit == rts::JOINING || bit == rts::DEAD || (bit
            == rts::DRAINING && !flagged(p.rts_flags, rts::SENDING)),
    ensures
        slot_ok(Proc { rts_flags: p.rts_flags | bit, ..p }, i, seq),
        holds_process(Proc { rts_flags: p.rts_flags | bit, ..p }),
{
    rts::raise(p.rts_flags, bit);
    rts::only(rts::RESERVED);
    rts::only(rts::SLOT_FREE);
    holding(p, i, seq);
}

} // verus!
