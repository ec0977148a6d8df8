//! What holds of the process table between any two operations, and why the
//! basic steps keep it.
use vstd::prelude::*;

use crate::com;
use crate::com::slot_of;
use crate::memory::map::MemMap;
use crate::proc::lists::{distinct, listed};
use crate::proc::model::{
    charged, empty_proc, in_table, port_bytes, total_bytes, PortModel, Proc, SchedModel, B_OS_NAME_LENGTH, HEAP_BASE,
    HEAP_MAX, NR_PORTS,
    NR_PROCS, NR_SCHED_QUEUES, NR_SEMS, PORT_GENERATIONS, PORT_MAX_CAPACITY, PORT_MAX_MESSAGE,
    PORT_QUEUE_BYTES,
};
use crate::proc::rts;
use crate::proc::rts::flagged;

verus! {

/// Whether an entry holds a process, rather than nothing or a claim.
pub open spec fn holds_process(p: Proc) -> bool {
    !flagged(p.rts_flags, rts::SLOT_FREE) && p.rts_flags != rts::RESERVED
}

/// What holds of the entry `p` of slot `i` by itself.
pub open spec fn slot_ok(p: Proc, i: int, sem_seq: u64) -> bool {
    &&& p.priority < NR_SCHED_QUEUES
    &&& p.max_priority < NR_SCHED_QUEUES
    &&& p.mem_map.wf()
    &&& HEAP_BASE <= p.brk <= HEAP_BASE + HEAP_MAX
    // A blocked process says what it is blocked on, and only then.
    &&& flagged(p.rts_flags, rts::SEM_WAIT) <==> p.sem_wait is Some
    &&& p.sem_wait matches Some(w) ==> w.0 < NR_SEMS && w.1 < sem_seq
    &&& p.sem_granted matches Some(id) ==> id < NR_SEMS
    // Whoever is in line has not been handed a unit.
    &&& p.sem_wait is Some ==> p.sem_granted is None
    &&& flagged(p.rts_flags, rts::PORT_WAIT) <==> p.port_wait is Some
    &&& p.port_wait matches Some(s) ==> s < NR_PORTS
    &&& flagged(p.rts_flags, rts::SENDING) ==> in_table(p.send_to)
    // A zombie is exactly a slot with a status to collect.
    &&& flagged(p.rts_flags, rts::ZOMBIE) <==> p.exit_status is Some
    &&& flagged(p.rts_flags, rts::ZOMBIE) ==> !flagged(p.rts_flags, rts::SENDING)
    &&& flagged(p.rts_flags, rts::DRAINING) ==> !flagged(p.rts_flags, rts::SENDING)
    // An empty or claimed slot is nothing else.
    &&& flagged(p.rts_flags, rts::SLOT_FREE) ==> p.rts_flags == rts::SLOT_FREE
    &&& flagged(p.rts_flags, rts::RESERVED) ==> p.rts_flags == rts::RESERVED
    // A process carries the number of its slot.
    &&& holds_process(p) ==> p.proc_nr == i - com::NR_TASKS && in_table(p.team)
    &&& !holds_process(p) ==> p.team == com::NONE && p.doomed is None && p.parent == com::NONE
    &&& p.parent == com::NONE || in_table(p.parent)
    &&& p.parent != i - com::NR_TASKS
}

/// Every table has its size.
pub open spec fn shaped(m: SchedModel) -> bool {
    &&& m.procs.len() == NR_PROCS
    &&& m.queues.len() == NR_SCHED_QUEUES
    &&& m.callers.len() == NR_PROCS
    &&& 0 <= m.current < NR_PROCS
    &&& m.generations.len() == NR_PROCS
    &&& m.sems.len() == NR_SEMS
    &&& m.ports.len() == NR_PORTS
    &&& m.port_generations.len() == NR_PORTS
    &&& m.pending.len() == NR_PROCS
}

/// Every entry of a ready queue is runnable, at that queue's priority, and
/// is in no queue twice.
pub open spec fn queues_ok(m: SchedModel) -> bool {
    &&& distinct(m.queues)
    &&& forall|q: int, k: int|
        #![trigger m.queues[q][k]]
        0 <= q < m.queues.len() && 0 <= k < m.queues[q].len() ==> {
            &&& 0 <= m.queues[q][k] < NR_PROCS
            &&& m.flags(m.queues[q][k]) == 0
            &&& m.procs[m.queues[q][k]].priority == q
        }
}

/// Every runnable process is in the queue of its priority, but for `xs`.
pub open spec fn ready_but(m: SchedModel, xs: Set<int>) -> bool {
    forall|i: int|
        #![trigger m.procs[i]]
        0 <= i < NR_PROCS && !xs.contains(i) && m.flags(i) == 0
            ==> m.queues[m.procs[i].priority as int].contains(i)
}

/// Every process in the line of senders to slot `d` is blocked sending to
/// it, and is in no line twice.
pub open spec fn callers_ok(m: SchedModel) -> bool {
    &&& distinct(m.callers)
    &&& forall|d: int, k: int|
        #![trigger m.callers[d][k]]
        0 <= d < m.callers.len() && 0 <= k < m.callers[d].len() ==> {
            &&& 0 <= m.callers[d][k] < NR_PROCS
            &&& flagged(m.flags(m.callers[d][k]), rts::SENDING)
            &&& slot_of(m.procs[m.callers[d][k]].send_to) == d
        }
}

/// A semaphore somebody waits for exists and has no unit left, and no two
/// waiters have the same place in line.
pub open spec fn sems_ok(m: SchedModel) -> bool {
    &&& forall|id: int| 0 <= id < NR_SEMS ==> (#[trigger] m.sems[id]).count >= 0
    &&& forall|i: int|
        #![trigger m.procs[i]]
        0 <= i < NR_PROCS && m.procs[i].sem_wait is Some ==> {
            let id = (m.procs[i].sem_wait->0).0 as int;
            m.sems[id].in_use && m.sems[id].count == 0
        }
    &&& forall|i: int, j: int|
        #![trigger m.procs[i], m.procs[j]]
        0 <= i < NR_PROCS && 0 <= j < NR_PROCS && i != j && m.procs[i].sem_wait is Some
            && m.procs[j].sem_wait is Some ==> (m.procs[i].sem_wait->0).1 != (
        m.procs[j].sem_wait->0).1
}

/// What holds of a port by itself.
pub open spec fn port_ok(p: PortModel) -> bool {
    &&& 0 < p.capacity <= PORT_MAX_CAPACITY
    &&& p.queue.len() <= p.capacity
    &&& forall|k: int| 0 <= k < p.queue.len() ==> (#[trigger] p.queue[k]).1.len() <= PORT_MAX_MESSAGE
    &&& p.total_read >= 0
    &&& p.name.len() == B_OS_NAME_LENGTH
    &&& p.name[B_OS_NAME_LENGTH - 1] == 0
}

/// What holds of the ports.
pub open spec fn ports_ok(m: SchedModel) -> bool {
    &&& forall|s: int| 0 <= s < NR_PORTS && (#[trigger] m.ports[s]) is Some ==> port_ok(m.ports[s]->0)
    &&& forall|s: int| 0 <= s < NR_PORTS ==> #[trigger] m.port_generations[s] < PORT_GENERATIONS
    &&& total_bytes(m.ports) <= PORT_QUEUE_BYTES
    &&& forall|i: int|
        0 <= i < NR_PROCS && (#[trigger] m.pending[i]) is Some ==> (m.pending[i]->0).1.len()
            <= PORT_MAX_MESSAGE
}

/// Whether the leader of the team of slot `j` is there, and has not ended
/// unless it is alone.
pub open spec fn led(procs: Seq<Proc>, j: int) -> bool {
    procs[j].team != com::NONE ==> {
        let l = slot_of(procs[j].team);
        &&& procs[l].team == procs[j].team
        &&& l != j ==> !flagged(procs[l].rts_flags, rts::ZOMBIE)
    }
}

/// Every process has a leader.
pub open spec fn teams_ok(m: SchedModel) -> bool {
    forall|j: int| 0 <= j < NR_PROCS ==> #[trigger] led(m.procs, j)
}

/// Whether no other process is of the team that slot `i` leads or would
/// lead.
pub open spec fn alone(m: SchedModel, i: int) -> bool {
    forall|j: int|
        #![trigger m.procs[j]]
        0 <= j < NR_PROCS && j != i && m.procs[j].team != com::NONE ==> slot_of(m.procs[j].team)
            != i
}

/// Whether a process of `team` may be put into slot `i`: one of the same
/// team as before, or nobody is led from there and the team, if any, has a
/// leader.
pub open spec fn fits_team(m: SchedModel, i: int, team: i32) -> bool {
    ||| team == m.procs[i].team
    ||| alone(m, i) && {
        ||| team == com::NONE
        ||| slot_of(team) == i
        ||| m.procs[slot_of(team)].team == team && !flagged(m.flags(slot_of(team)), rts::ZOMBIE)
    }
}

/// What holds between two operations, but that the runnable processes of
/// `xs` need not be in a queue.
pub open spec fn sound_but(m: SchedModel, xs: Set<int>) -> bool {
    &&& shaped(m)
    &&& forall|i: int| 0 <= i < NR_PROCS ==> slot_ok(#[trigger] m.procs[i], i, m.sem_seq)
    &&& queues_ok(m)
    &&& ready_but(m, xs)
    &&& callers_ok(m)
    &&& sems_ok(m)
    &&& ports_ok(m)
    &&& teams_ok(m)
}

/// What holds of the process table between any two operations.
pub open spec fn sound(m: SchedModel) -> bool {
    sound_but(m, Set::empty())
}

pub proof fn sound_mono(m: SchedModel, xs: Set<int>, ys: Set<int>)
    requires
        sound_but(m, xs),
        xs.subset_of(ys),
    ensures
        sound_but(m, ys),
{
}

/// A slot in a ready queue is runnable.
pub proof fn queued_is_runnable(m: SchedModel, xs: Set<int>, i: int)
    requires
        sound_but(m, xs),
        m.flags(i) != 0,
    ensures
        !listed(m.queues, i),
{
}

/// A slot that is not blocked sending is in no line of senders.
pub proof fn lined_up_is_sending(m: SchedModel, xs: Set<int>, i: int)
    requires
        sound_but(m, xs),
        !flagged(m.flags(i), rts::SENDING),
    ensures
        !listed(m.callers, i),
{
}

/// Nobody is led from a slot that leads no team.
pub proof fn follower_is_alone(m: SchedModel, xs: Set<int>, i: int)
    requires
        sound_but(m, xs),
        0 <= i < NR_PROCS,
        m.procs[i].team == com::NONE || slot_of(m.procs[i].team) != i,
    ensures
        alone(m, i),
{
    assert forall|j: int|
        #![trigger m.procs[j]]
        0 <= j < NR_PROCS && j != i && m.procs[j].team != com::NONE implies slot_of(
        m.procs[j].team,
    ) != i by {
        assert(led(m.procs, j));
        assert(slot_ok(m.procs[j], j, m.sem_seq));
    }
}

/// Nobody is led by a leader whose team has no other members.
pub proof fn lone_leader_is_alone(m: SchedModel, xs: Set<int>, i: int, team: i32)
    requires
        sound_but(m, xs),
        0 <= i < NR_PROCS,
        in_table(team),
        slot_of(team) == i,
        !m.has_other_members(team),
    ensures
        alone(m, i),
{
    assert forall|j: int|
        #![trigger m.procs[j]]
        0 <= j < NR_PROCS && j != i && m.procs[j].team != com::NONE implies slot_of(
        m.procs[j].team,
    ) != i by {
        assert(slot_ok(m.procs[j], j, m.sem_seq));
        assert(!m.is_member(j, team));
    }
}

/// A leader fits any slot.
pub proof fn leader_fits(m: SchedModel, xs: Set<int>, i: int)
    requires
        sound_but(m, xs),
        0 <= i < NR_PROCS,
    ensures
        fits_team(m, i, (i - com::NR_TASKS) as i32),
{
    assert(slot_ok(m.procs[i], i, m.sem_seq));
    if m.procs[i].team == com::NONE || slot_of(m.procs[i].team) != i {
        follower_is_alone(m, xs, i);
    }
}

/// Replacing one entry keeps everything, if the entry is sound by itself and
/// agrees with the queues and lines it is in and with its team.
pub proof fn put_sound(m: SchedModel, xs: Set<int>, i: int, p: Proc)
    requires
        sound_but(m, xs),
        0 <= i < NR_PROCS,
        slot_ok(p, i, m.sem_seq),
        listed(m.queues, i) ==> p.rts_flags == 0 && p.priority == m.procs[i].priority,
        p.rts_flags == 0 && !xs.contains(i) ==> m.flags(i) == 0 && p.priority
            == m.procs[i].priority,
        listed(m.callers, i) ==> flagged(p.rts_flags, rts::SENDING) && p.send_to
            == m.procs[i].send_to,
        p.sem_wait is Some ==> p.sem_wait == m.procs[i].sem_wait,
        fits_team(m, i, p.team),
        flagged(p.rts_flags, rts::ZOMBIE) ==> flagged(m.flags(i), rts::ZOMBIE) || alone(m, i),
    ensures
        sound_but(m.put(i, p), xs),
{
    let n = m.put(i, p);
    assert forall|j: int| 0 <= j < NR_PROCS implies #[trigger] led(n.procs, j) by {
        assert(led(m.procs, j));
        assert(led(m.procs, i));
        assert(slot_ok(m.procs[j], j, m.sem_seq));
    }
    assert forall|q: int, k: int|
        #![trigger n.queues[q][k]]
        0 <= q < n.queues.len() && 0 <= k < n.queues[q].len() implies {
        &&& 0 <= n.queues[q][k] < NR_PROCS
        &&& n.flags(n.queues[q][k]) == 0
        &&& n.procs[n.queues[q][k]].priority == q
    } by {
        assert(m.queues[q][k] == n.queues[q][k]);
    }
    assert forall|d: int, k: int|
        #![trigger n.callers[d][k]]
        0 <= d < n.callers.len() && 0 <= k < n.callers[d].len() implies {
        &&& 0 <= n.callers[d][k] < NR_PROCS
        &&& flagged(n.flags(n.callers[d][k]), rts::SENDING)
        &&& slot_of(n.procs[n.callers[d][k]].send_to) == d
    } by {
        assert(m.callers[d][k] == n.callers[d][k]);
    }
    assert forall|j: int|
        #![trigger n.procs[j]]
        0 <= j < NR_PROCS && !xs.contains(j) && n.flags(j) == 0
            implies n.queues[n.procs[j].priority as int].contains(j) by {
        assert(m.procs[j].priority == n.procs[j].priority);
        assert(m.flags(j) == 0);
    }
    assert forall|j: int| 0 <= j < NR_PROCS && #[trigger] n.procs[j].sem_wait is Some implies {
        let id = (n.procs[j].sem_wait->0).0 as int;
        n.sems[id].in_use && n.sems[id].count == 0
    } by {
        assert(m.procs[j].sem_wait == n.procs[j].sem_wait);
    }
    assert forall|a: int, b: int|
        #![trigger n.procs[a], n.procs[b]]
        0 <= a < NR_PROCS && 0 <= b < NR_PROCS && a != b && n.procs[a].sem_wait is Some
            && n.procs[b].sem_wait is Some implies (n.procs[a].sem_wait->0).1 != (
    n.procs[b].sem_wait->0).1 by {
        assert(m.procs[a].sem_wait == n.procs[a].sem_wait);
        assert(m.procs[b].sem_wait == n.procs[b].sem_wait);
    }
}

/// Replacing an entry by one with the same state bits, priority, destination
/// and place in line keeps everything.
pub proof fn put_same_sound(m: SchedModel, xs: Set<int>, i: int, p: Proc)
    requires
        sound_but(m, xs),
        0 <= i < NR_PROCS,
        slot_ok(p, i, m.sem_seq),
        p.rts_flags == m.flags(i),
        p.priority == m.procs[i].priority,
        p.send_to == m.procs[i].send_to,
        p.sem_wait == m.procs[i].sem_wait,
        p.team == m.procs[i].team,
    ensures
        sound_but(m.put(i, p), xs),
{
    if listed(m.queues, i) {
        let (l, k) = choose|l: int, k: int|
            0 <= l < m.queues.len() && 0 <= k < m.queues[l].len() && #[trigger] m.queues[l][k] == i;
        assert(m.flags(m.queues[l][k]) == 0);
    }
    if listed(m.callers, i) {
        let (l, k) = choose|l: int, k: int|
            0 <= l < m.callers.len() && 0 <= k < m.callers[l].len() && #[trigger] m.callers[l][k]
                == i;
        assert(flagged(m.flags(m.callers[l][k]), rts::SENDING));
    }
    put_sound(m, xs, i, p);
}

/// What joining a queue does to an entry keeps it sound.
pub proof fn charged_ok(p: Proc, i: int, again: bool, sem_seq: u64)
    requires
        slot_ok(p, i, sem_seq),
    ensures
        slot_ok(charged(p, i, again), i, sem_seq),
        charged(p, i, again).rts_flags == p.rts_flags,
        charged(p, i, again).sem_wait == p.sem_wait,
        charged(p, i, again).send_to == p.send_to,
        charged(p, i, again).team == p.team,
{
}

/// A runnable slot in no queue that joins its queue is no exception any more.
pub proof fn enqueue_sound(m: SchedModel, xs: Set<int>, i: int)
    requires
        sound_but(m, xs),
        0 <= i < NR_PROCS,
        m.flags(i) == 0,
        !listed(m.queues, i),
    ensures
        sound_but(m.enqueue(i), xs.remove(i)),
{
    let again = m.last_expired == Some(i);
    let p = charged(m.procs[i], i, again);
    let q = p.priority as int;
    charged_ok(m.procs[i], i, again, m.sem_seq);
    rts::none_set();
    lined_up_is_sending(m, xs, i);
    let n = m.enqueue(i);
    let top = m.procs[i].ticks_left > 0;
    assert forall|j: int| 0 <= j < NR_PROCS implies #[trigger] led(n.procs, j) by {
        assert(led(m.procs, j));
        assert(slot_ok(m.procs[j], j, m.sem_seq));
    }
    assert forall|a: int, b: int|
        #![trigger n.queues[a][b]]
        0 <= a < n.queues.len() && 0 <= b < n.queues[a].len() implies {
        &&& 0 <= n.queues[a][b] < NR_PROCS
        &&& n.flags(n.queues[a][b]) == 0
        &&& n.procs[n.queues[a][b]].priority == a
    } by {
        let b0 = if a == q && top { b - 1 } else { b };
        if a == q && ((top && b == 0) || (!top && b == m.queues[q].len())) {
            assert(n.queues[a][b] == i);
        } else {
            assert(n.queues[a][b] == m.queues[a][b0]);
        }
    }
    assert(distinct(n.queues)) by {
        assert forall|a: int, b: int, c: int, d: int|
            #![trigger n.queues[a][b], n.queues[c][d]]
            0 <= a < n.queues.len() && 0 <= b < n.queues[a].len() && 0 <= c < n.queues.len() && 0
                <= d < n.queues[c].len() && n.queues[a][b] == n.queues[c][d] implies a == c && b
            == d by {
            let b0 = if a == q && top { b - 1 } else { b };
            let d0 = if c == q && top { d - 1 } else { d };
            if 0 <= b0 < m.queues[a].len() {
                assert(n.queues[a][b] == m.queues[a][b0]);
            }
            if 0 <= d0 < m.queues[c].len() {
                assert(n.queues[c][d] == m.queues[c][d0]);
            }
        }
    }
    assert forall|j: int|
        #![trigger n.procs[j]]
        0 <= j < NR_PROCS && !xs.remove(i).contains(j) && n.flags(j) == 0
            implies n.queues[n.procs[j].priority as int].contains(j) by {
        if j == i {
            let at = if top { 0 } else { m.queues[q].len() as int };
            assert(n.queues[q][at] == i);
        } else {
            assert(m.procs[j] == n.procs[j]);
            let a = m.procs[j].priority as int;
            assert(m.queues[a].contains(j));
            let k = choose|k: int| 0 <= k < m.queues[a].len() && m.queues[a][k] == j;
            let k1 = if a == q && top { k + 1 } else { k };
            assert(n.queues[a][k1] == j);
        }
    }
    assert forall|d: int, k: int|
        #![trigger n.callers[d][k]]
        0 <= d < n.callers.len() && 0 <= k < n.callers[d].len() implies {
        &&& 0 <= n.callers[d][k] < NR_PROCS
        &&& flagged(n.flags(n.callers[d][k]), rts::SENDING)
        &&& slot_of(n.procs[n.callers[d][k]].send_to) == d
    } by {
        assert(m.callers[d][k] == n.callers[d][k]);
    }
    assert forall|j: int| 0 <= j < NR_PROCS && #[trigger] n.procs[j].sem_wait is Some implies {
        let id = (n.procs[j].sem_wait->0).0 as int;
        n.sems[id].in_use && n.sems[id].count == 0
    } by {
        assert(m.procs[j].sem_wait == n.procs[j].sem_wait);
    }
    assert forall|a: int, b: int|
        #![trigger n.procs[a], n.procs[b]]
        0 <= a < NR_PROCS && 0 <= b < NR_PROCS && a != b && n.procs[a].sem_wait is Some
            && n.procs[b].sem_wait is Some implies (n.procs[a].sem_wait->0).1 != (
    n.procs[b].sem_wait->0).1 by {
        assert(m.procs[a].sem_wait == n.procs[a].sem_wait);
        assert(m.procs[b].sem_wait == n.procs[b].sem_wait);
    }
}

/// A slot that leaves its queue is in none, and the only new exception.
pub proof fn dequeue_sound(m: SchedModel, xs: Set<int>, i: int)
    requires
        sound_but(m, xs),
        0 <= i < NR_PROCS,
    ensures
        sound_but(m.dequeue(i), xs.insert(i)),
        !listed(m.dequeue(i).queues, i),
{
    let n = m.dequeue(i);
    let q = m.procs[i].priority as int;
    let old_q = m.queues[q];
    let has_it = old_q.contains(i);
    let at = old_q.index_of(i);
    if has_it {
        assert(0 <= at < old_q.len() && old_q[at] == i);
    }
    assert forall|a: int, b: int|
        #![trigger n.queues[a][b]]
        0 <= a < n.queues.len() && 0 <= b < n.queues[a].len() implies n.queues[a][b]
        == m.queues[a][if a == q && has_it && b >= at { b + 1 } else { b }] && n.queues[a][b] != i by {
        let b0 = if a == q && has_it && b >= at { b + 1 } else { b };
        assert(n.queues[a][b] == m.queues[a][b0]);
        if m.queues[a][b0] == i {
            assert(m.procs[m.queues[a][b0]].priority == a);
            assert(m.queues[q].contains(i));
            assert(m.queues[q][at] == m.queues[a][b0]);
        }
    }
    assert forall|a: int, b: int, c: int, d: int|
        #![trigger n.queues[a][b], n.queues[c][d]]
        0 <= a < n.queues.len() && 0 <= b < n.queues[a].len() && 0 <= c < n.queues.len() && 0 <= d
            < n.queues[c].len() && n.queues[a][b] == n.queues[c][d] implies a == c && b == d by {
        let b0 = if a == q && has_it && b >= at { b + 1 } else { b };
        let d0 = if c == q && has_it && d >= at { d + 1 } else { d };
        assert(n.queues[a][b] == m.queues[a][b0]);
        assert(n.queues[c][d] == m.queues[c][d0]);
    }
    assert forall|a: int, b: int|
        #![trigger n.queues[a][b]]
        0 <= a < n.queues.len() && 0 <= b < n.queues[a].len() implies {
        &&& 0 <= n.queues[a][b] < NR_PROCS
        &&& n.flags(n.queues[a][b]) == 0
        &&& n.procs[n.queues[a][b]].priority == a
    } by {
        let b0 = if a == q && has_it && b >= at { b + 1 } else { b };
        assert(n.queues[a][b] == m.queues[a][b0]);
    }
    assert forall|j: int|
        #![trigger n.procs[j]]
        0 <= j < NR_PROCS && !xs.insert(i).contains(j) && n.flags(j) == 0
            implies n.queues[n.procs[j].priority as int].contains(j) by {
        assert(m.procs[j] == n.procs[j]);
        let a = m.procs[j].priority as int;
        let k = choose|k: int| 0 <= k < m.queues[a].len() && m.queues[a][k] == j;
        assert(m.queues[a][k] == j);
        let k1 = if a == q && has_it && k > at { k - 1 } else { k };
        assert(n.queues[a][k1] == j);
    }
    assert forall|d: int, k: int|
        #![trigger n.callers[d][k]]
        0 <= d < n.callers.len() && 0 <= k < n.callers[d].len() implies {
        &&& 0 <= n.callers[d][k] < NR_PROCS
        &&& flagged(n.flags(n.callers[d][k]), rts::SENDING)
        &&& slot_of(n.procs[n.callers[d][k]].send_to) == d
    } by {
        assert(m.callers[d][k] == n.callers[d][k]);
    }
}

/// After `pause`, slot `i` is in no queue and at most one more exception.
pub proof fn pause_sound(m: SchedModel, xs: Set<int>, i: int)
    requires
        sound_but(m, xs),
        0 <= i < NR_PROCS,
    ensures
        sound_but(m.pause(i), xs.insert(i)),
        !listed(m.pause(i).queues, i),
        m.pause(i).procs == m.procs,
{
    if m.flags(i) == 0 {
        dequeue_sound(m, xs, i);
    } else {
        sound_mono(m, xs, xs.insert(i));
        queued_is_runnable(m, xs, i);
    }
}

/// Giving a slot a new entry and clearing a bit that was set keeps
/// everything, if the entry is sound by itself afterwards.
pub proof fn change_unblock_sound(m: SchedModel, xs: Set<int>, i: int, p: Proc, bit: u16)
    requires
        sound_but(m, xs),
        0 <= i < NR_PROCS,
        rts::is_bit(bit),
        p.rts_flags == m.flags(i),
        p.team == m.procs[i].team,
        p.send_to == m.procs[i].send_to,
        p.sem_wait is Some ==> p.sem_wait == m.procs[i].sem_wait,
        bit == rts::SENDING ==> !listed(m.callers, i),
        flagged(p.rts_flags, bit),
        slot_ok(Proc { rts_flags: p.rts_flags & !bit, ..p }, i, m.sem_seq),
    ensures
        sound_but(m.put(i, p).unblock(i, bit), xs),
        m.put(i, p).unblock(i, bit).flags(i) == p.rts_flags & !bit,
        ({
            let n = m.put(i, Proc { rts_flags: p.rts_flags & !bit, ..p });
            &&& sound_but(n, xs.insert(i))
            &&& !listed(n.queues, i)
            &&& m.put(i, p).unblock(i, bit) == (if n.flags(i) == 0 {
                n.enqueue(i)
            } else {
                n
            })
        }),
        forall|j: int|
            j != i && !listed(m.queues, j) ==> !#[trigger] listed(
                m.put(i, p).unblock(i, bit).queues,
                j,
            ),
        m.put(i, p).unblock(i, bit).callers == m.callers,
        xs.insert(i).remove(i).subset_of(xs),
{
    let q = Proc { rts_flags: p.rts_flags & !bit, ..p };
    let n = m.put(i, q);
    assert(m.procs.update(i, p).update(i, q) =~= m.procs.update(i, q));
    assert(m.flags(i) != 0) by {
        rts::none_set();
    }
    queued_is_runnable(m, xs, i);
    rts::lower(p.rts_flags, bit);
    sound_mono(m, xs, xs.insert(i));
    put_sound(m, xs.insert(i), i, q);
    let r = m.put(i, p).unblock(i, bit);
    if q.rts_flags == 0 {
        enqueue_sound(n, xs.insert(i), i);
        sound_mono(n.enqueue(i), xs.insert(i).remove(i), xs);
        assert forall|j: int| j != i && !listed(m.queues, j) implies !#[trigger] listed(
            r.queues,
            j,
        ) by {
            enqueue_lists(n, i, j);
        }
    } else {
        drop_exception(n, xs, i);
        assert(r == n);
    }
}

/// A slot that joins a queue puts no other slot into one.
proof fn enqueue_lists(m: SchedModel, i: int, j: int)
    requires
        m.queues.len() == NR_SCHED_QUEUES,
        slot_ok(m.procs[i], i, m.sem_seq),
        j != i,
        !listed(m.queues, j),
    ensures
        !listed(m.enqueue(i).queues, j),
{
    let n = m.enqueue(i);
    let q = charged(m.procs[i], i, m.last_expired == Some(i)).priority as int;
    let top = m.procs[i].ticks_left > 0;
    assert forall|a: int, b: int|
        0 <= a < n.queues.len() && 0 <= b < n.queues[a].len() implies #[trigger] n.queues[a][b]
        != j by {
        let b0 = if a == q && top { b - 1 } else { b };
        if 0 <= b0 < m.queues[a].len() {
            assert(n.queues[a][b] == m.queues[a][b0]);
        }
    }
}

/// An entry that is not runnable is no exception.
pub proof fn drop_exception(m: SchedModel, xs: Set<int>, i: int)
    requires
        sound_but(m, xs.insert(i)),
        m.flags(i) != 0,
    ensures
        sound_but(m, xs),
{
    assert forall|j: int|
        #![trigger m.procs[j]]
        0 <= j < NR_PROCS && !xs.contains(j) && m.flags(j) == 0
            implies m.queues[m.procs[j].priority as int].contains(j) by {
        assert(!xs.insert(i).contains(j));
    }
}

/// Setting a bit keeps everything, if the entry stays sound.
pub proof fn block_sound(m: SchedModel, xs: Set<int>, i: int, bit: u16)
    requires
        sound_but(m, xs),
        0 <= i < NR_PROCS,
        rts::is_bit(bit),
        bit != rts::ZOMBIE,
        slot_ok(Proc { rts_flags: m.flags(i) | bit, ..m.procs[i] }, i, m.sem_seq),
    ensures
        sound_but(m.block(i, bit), xs),
        m.block(i, bit).flags(i) == m.flags(i) | bit,
        m.flags(i) | bit != 0,
        !listed(m.block(i, bit).queues, i),
{
    let n = m.pause(i);
    let p = Proc { rts_flags: m.flags(i) | bit, ..m.procs[i] };
    pause_sound(m, xs, i);
    rts::raise(m.flags(i), bit);
    put_sound(n, xs.insert(i), i, p);
    drop_exception(n.put(i, p), xs, i);
}

/// An empty entry is sound.
pub proof fn empty_ok(i: int, sem_seq: u64)
    requires
        0 <= i < NR_PROCS,
    ensures
        slot_ok(empty_proc(), i, sem_seq),
        !holds_process(empty_proc()),
        empty_proc().rts_flags != 0,
{
    rts::only(rts::SLOT_FREE);
    MemMap::none_is_empty();
}

/// Filling a slot that is in no queue and no line anew keeps everything.
pub proof fn refill_sound(m: SchedModel, xs: Set<int>, i: int, p: Proc)
    requires
        sound_but(m, xs),
        xs.contains(i),
        0 <= i < NR_PROCS,
        !listed(m.queues, i),
        !listed(m.callers, i),
        slot_ok(p, i, m.sem_seq),
        p.sem_wait is None,
        fits_team(m, i, p.team),
        !flagged(p.rts_flags, rts::ZOMBIE),
    ensures
        sound_but(m.refill(i, p), xs),
{
    let n1 = m.put(i, p);
    let n = m.refill(i, p);
    put_sound(m, xs, i, p);
    assert forall|j: int| 0 <= j < NR_PROCS implies #[trigger] led(n.procs, j) by {
        assert(led(n1.procs, j));
    }
    assert forall|a: int, b: int|
        #![trigger n.callers[a][b]]
        0 <= a < n.callers.len() && 0 <= b < n.callers[a].len() implies n.callers[a][b]
        == m.callers[a][b] by {
    }
    assert forall|a: int, b: int, c: int, d: int|
        #![trigger n.callers[a][b], n.callers[c][d]]
        0 <= a < n.callers.len() && 0 <= b < n.callers[a].len() && 0 <= c < n.callers.len() && 0 <= d
            < n.callers[c].len() && n.callers[a][b] == n.callers[c][d] implies a == c && b == d by {
        assert(n.callers[a][b] == m.callers[a][b]);
        assert(n.callers[c][d] == m.callers[c][d]);
    }
    assert forall|d: int, k: int|
        #![trigger n.callers[d][k]]
        0 <= d < n.callers.len() && 0 <= k < n.callers[d].len() implies {
        &&& 0 <= n.callers[d][k] < NR_PROCS
        &&& flagged(n.flags(n.callers[d][k]), rts::SENDING)
        &&& slot_of(n.procs[n.callers[d][k]].send_to) == d
    } by {
        assert(n1.callers[d][k] == n.callers[d][k]);
    }
    assert(n.procs == n1.procs);
    assert forall|j: int|
        #![trigger n.procs[j]]
        0 <= j < NR_PROCS && !xs.contains(j) && n.flags(j) == 0
            implies n.queues[n.procs[j].priority as int].contains(j) by {
        assert(n1.procs[j] == n.procs[j]);
    }
}

/// Emptying a slot that is in no queue and no line, and from which nobody is
/// led, keeps everything.
pub proof fn free_slot_sound(m: SchedModel, xs: Set<int>, i: int)
    requires
        sound_but(m, xs.insert(i)),
        0 <= i < NR_PROCS,
        !listed(m.queues, i),
        !listed(m.callers, i),
        alone(m, i),
    ensures
        sound_but(m.free_slot(i), xs),
{
    empty_ok(i, m.sem_seq);
    rts::only(rts::SLOT_FREE);
    refill_sound(m, xs.insert(i), i, empty_proc());
    drop_exception(m.free_slot(i), xs, i);
}

/// What the ports hold concerns nothing else.
pub proof fn ports_sound(m: SchedModel, n: SchedModel, xs: Set<int>)
    requires
        sound_but(m, xs),
        n == (SchedModel {
            ports: n.ports,
            port_generations: n.port_generations,
            pending: n.pending,
            ..m
        }),
        n.ports.len() == NR_PORTS,
        n.port_generations.len() == NR_PORTS,
        n.pending.len() == NR_PROCS,
        ports_ok(n),
    ensures
        sound_but(n, xs),
{
    assert forall|q: int, k: int|
        #![trigger n.queues[q][k]]
        0 <= q < n.queues.len() && 0 <= k < n.queues[q].len() implies {
        &&& 0 <= n.queues[q][k] < NR_PROCS
        &&& n.flags(n.queues[q][k]) == 0
        &&& n.procs[n.queues[q][k]].priority == q
    } by {
        assert(m.queues[q][k] == n.queues[q][k]);
    }
    assert forall|d: int, k: int|
        #![trigger n.callers[d][k]]
        0 <= d < n.callers.len() && 0 <= k < n.callers[d].len() implies {
        &&& 0 <= n.callers[d][k] < NR_PROCS
        &&& flagged(n.flags(n.callers[d][k]), rts::SENDING)
        &&& slot_of(n.procs[n.callers[d][k]].send_to) == d
    } by {
        assert(m.callers[d][k] == n.callers[d][k]);
    }
}

/// What one port slot counts for in the total.
pub proof fn total_bytes_update(ports: Seq<Option<PortModel>>, s: int, port: Option<PortModel>)
    requires
        0 <= s < ports.len(),
    ensures
        total_bytes(ports.update(s, port)) == total_bytes(ports) - port_bytes(ports[s])
            + port_bytes(port),
    decreases ports.len(),
{
    let now = ports.update(s, port);
    if s == ports.len() - 1 {
        assert(now.drop_last() =~= ports.drop_last());
    } else {
        assert(now.drop_last() =~= ports.drop_last().update(s, port));
        assert(now.last() == ports.last());
        total_bytes_update(ports.drop_last(), s, port);
    }
}

/// What holds of the queues holds whatever the clock, the running slot, the
/// generations and the kernel's page table are.
pub proof fn frame_sound(m: SchedModel, n: SchedModel, xs: Set<int>)
    requires
        sound_but(m, xs),
        n == (SchedModel {
            current: n.current,
            ticks: n.ticks,
            kernel_cr3: n.kernel_cr3,
            generations: n.generations,
            sem_seq: n.sem_seq,
            ..m
        }),
        0 <= n.current < NR_PROCS,
        n.generations.len() == NR_PROCS,
        m.sem_seq <= n.sem_seq,
    ensures
        sound_but(n, xs),
{
    assert forall|q: int, k: int|
        #![trigger n.queues[q][k]]
        0 <= q < n.queues.len() && 0 <= k < n.queues[q].len() implies {
        &&& 0 <= n.queues[q][k] < NR_PROCS
        &&& n.flags(n.queues[q][k]) == 0
        &&& n.procs[n.queues[q][k]].priority == q
    } by {
        assert(m.queues[q][k] == n.queues[q][k]);
    }
    assert forall|d: int, k: int|
        #![trigger n.callers[d][k]]
        0 <= d < n.callers.len() && 0 <= k < n.callers[d].len() implies {
        &&& 0 <= n.callers[d][k] < NR_PROCS
        &&& flagged(n.flags(n.callers[d][k]), rts::SENDING)
        &&& slot_of(n.procs[n.callers[d][k]].send_to) == d
    } by {
        assert(m.callers[d][k] == n.callers[d][k]);
    }
    assert forall|i: int| 0 <= i < NR_PROCS implies slot_ok(#[trigger] n.procs[i], i, n.sem_seq) by {
        assert(slot_ok(m.procs[i], i, m.sem_seq));
    }
}

/// A sender that joins the line of its destination keeps everything.
pub proof fn line_up_sound(m: SchedModel, xs: Set<int>, d: int, c: int)
    requires
        sound_but(m, xs),
        0 <= d < NR_PROCS,
        0 <= c < NR_PROCS,
        !listed(m.callers, c),
        flagged(m.flags(c), rts::SENDING),
        slot_of(m.procs[c].send_to) == d,
    ensures
        sound_but(
            SchedModel { callers: m.callers.update(d, m.callers[d].push(c)), ..m },
            xs,
        ),
{
    let n = SchedModel { callers: m.callers.update(d, m.callers[d].push(c)), ..m };
    assert forall|a: int, b: int|
        #![trigger n.callers[a][b]]
        0 <= a < n.callers.len() && 0 <= b < n.callers[a].len() implies {
        &&& 0 <= n.callers[a][b] < NR_PROCS
        &&& flagged(n.flags(n.callers[a][b]), rts::SENDING)
        &&& slot_of(n.procs[n.callers[a][b]].send_to) == a
    } by {
        if b < m.callers[a].len() {
            assert(n.callers[a][b] == m.callers[a][b]);
        }
    }
    assert forall|a: int, b: int, e: int, f: int|
        #![trigger n.callers[a][b], n.callers[e][f]]
        0 <= a < n.callers.len() && 0 <= b < n.callers[a].len() && 0 <= e < n.callers.len() && 0 <= f
            < n.callers[e].len() && n.callers[a][b] == n.callers[e][f] implies a == e && b == f by {
        if b < m.callers[a].len() {
            assert(n.callers[a][b] == m.callers[a][b]);
        }
        if f < m.callers[e].len() {
            assert(n.callers[e][f] == m.callers[e][f]);
        }
    }
    assert forall|q: int, k: int|
        #![trigger n.queues[q][k]]
        0 <= q < n.queues.len() && 0 <= k < n.queues[q].len() implies {
        &&& 0 <= n.queues[q][k] < NR_PROCS
        &&& n.flags(n.queues[q][k]) == 0
        &&& n.procs[n.queues[q][k]].priority == q
    } by {
        assert(m.queues[q][k] == n.queues[q][k]);
    }
}

/// A sender that leaves the line of its destination is in no line, and
/// everything else stays.
pub proof fn leave_line_sound(m: SchedModel, xs: Set<int>, d: int, k: int)
    requires
        sound_but(m, xs),
        0 <= d < NR_PROCS,
        0 <= k < m.callers[d].len(),
    ensures
        sound_but(SchedModel { callers: m.callers.update(d, m.callers[d].remove(k)), ..m }, xs),
        !listed(m.callers.update(d, m.callers[d].remove(k)), m.callers[d][k]),
{
    let n = SchedModel { callers: m.callers.update(d, m.callers[d].remove(k)), ..m };
    assert forall|a: int, b: int|
        #![trigger n.callers[a][b]]
        0 <= a < n.callers.len() && 0 <= b < n.callers[a].len() implies {
        &&& 0 <= n.callers[a][b] < NR_PROCS
        &&& flagged(n.flags(n.callers[a][b]), rts::SENDING)
        &&& slot_of(n.procs[n.callers[a][b]].send_to) == a
        &&& n.callers[a][b] != m.callers[d][k]
    } by {
        let b0 = if a == d && b >= k { b + 1 } else { b };
        assert(n.callers[a][b] == m.callers[a][b0]);
    }
    assert forall|a: int, b: int, e: int, f: int|
        #![trigger n.callers[a][b], n.callers[e][f]]
        0 <= a < n.callers.len() && 0 <= b < n.callers[a].len() && 0 <= e < n.callers.len() && 0 <= f
            < n.callers[e].len() && n.callers[a][b] == n.callers[e][f] implies a == e && b == f by {
        let b0 = if a == d && b >= k { b + 1 } else { b };
        let f0 = if e == d && f >= k { f + 1 } else { f };
        assert(n.callers[a][b] == m.callers[a][b0]);
        assert(n.callers[e][f] == m.callers[e][f0]);
    }
    assert forall|q: int, j: int|
        #![trigger n.queues[q][j]]
        0 <= q < n.queues.len() && 0 <= j < n.queues[q].len() implies {
        &&& 0 <= n.queues[q][j] < NR_PROCS
        &&& n.flags(n.queues[q][j]) == 0
        &&& n.procs[n.queues[q][j]].priority == q
    } by {
        assert(m.queues[q][j] == n.queues[q][j]);
    }
}

} // verus!
