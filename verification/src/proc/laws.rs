//! What the scheduler, the messages, the semaphores and the ports promise
//! across operations.
use vstd::prelude::*;

use crate::com;
use crate::com::slot_of;
use crate::ipc::Message;
use crate::proc::births::first_holds;
use crate::proc::endings::Step;
use crate::proc::haiku;
use crate::proc::lifecycle::longest_waiter_waits;
use crate::proc::lists::front_from;
use crate::proc::model::{
    next_port_generation, PortModel, Proc, SchedModel, NR_PORTS, NR_PROCS, NR_SCHED_QUEUES,
    NR_SEMS, PORT_GENERATIONS,
};
use crate::proc::ports::port_id;
use crate::proc::rts;
use crate::proc::rts::flagged;
use crate::proc::sems::BadSem;
use crate::proc::soundness::{lined_up_is_sending, slot_ok, sound, sound_but};

verus! {

/// The head of the first non-empty list at or after `from`, and where.
proof fn front_place(lists: Seq<Seq<int>>, from: int) -> (l: int)
    requires
        0 <= from,
    ensures
        match front_from(lists, from) {
            Some(x) => {
                &&& from <= l < lists.len()
                &&& lists[l].len() > 0
                &&& lists[l][0] == x
                &&& forall|k: int| from <= k < l ==> (#[trigger] lists[k]).len() == 0
            },
            None => forall|k: int| from <= k < lists.len() ==> (#[trigger] lists[k]).len() == 0,
        },
    decreases lists.len() - from,
{
    if from < lists.len() {
        if lists[from].len() > 0 {
            from
        } else {
            front_place(lists, from + 1)
        }
    } else {
        from
    }
}

/// Whoever runs next can run, and no process that can run has a better
/// priority; if nobody runs next, nobody can.
pub proof fn next_is_best(m: SchedModel, i: int)
    requires
        sound(m),
        0 <= i < NR_PROCS,
        m.flags(i) == 0,
    ensures
        m.next() is Some,
        0 <= m.next()->0 < NR_PROCS,
        m.flags(m.next()->0) == 0,
        m.procs[m.next()->0].priority <= m.procs[i].priority,
{
    let l = front_place(m.queues, 0);
    let q = m.procs[i].priority as int;
    assert(slot_ok(m.procs[i], i, m.sem_seq));
    assert(m.queues[q].contains(i));
    assert(m.queues[q].len() > 0);
    if m.next() is Some {
        assert(m.queues[l][0] == m.next()->0);
    }
}

/// A process whose quantum is used up goes behind everyone of its new
/// priority; one with time left goes before them.
pub proof fn ready_queue_order(m: SchedModel, i: int)
    requires
        sound(m),
        0 <= i < NR_PROCS,
    ensures
        ({
            let q = m.enqueue(i).procs[i].priority as int;
            if m.procs[i].ticks_left > 0 {
                m.enqueue(i).queues[q] == seq![i] + m.queues[q]
            } else {
                m.enqueue(i).queues[q] == m.queues[q].push(i)
            }
        }),
        forall|q: int|
            0 <= q < NR_SCHED_QUEUES && q != m.enqueue(i).procs[i].priority ==> m.enqueue(i).queues[q]
                == #[trigger] m.queues[q],
{
    assert(slot_ok(m.procs[i], i, m.sem_seq));
    crate::proc::soundness::charged_ok(m.procs[i], i, m.last_expired == Some(i), m.sem_seq);
}

/// A slot names a new process each time it is filled: its generation
/// changes.
pub proof fn generation_changes(m: SchedModel, i: int, p: Proc)
    requires
        sound(m),
        0 <= i < NR_PROCS,
    ensures
        m.install(i, p).generations[i] != m.generations[i],
{
}

/// A message that is sent reaches whoever waits for it, word for word, and
/// the receiver no longer waits.
pub proof fn awaited_message_arrives(m: SchedModel, dst: i32, msg: Message)
    requires
        sound(m),
        crate::proc::model::in_table(dst),
        m.awaits_current(slot_of(dst)),
    ensures
        m.send(dst, msg).procs[slot_of(dst)].messbuf == msg,
        !flagged(m.send(dst, msg).flags(slot_of(dst)), rts::RECEIVING),
{
    rts::lower(m.flags(slot_of(dst)), rts::RECEIVING);
}

/// A message whose receiver does not wait yet is kept: when the receiver
/// asks for a message of that sender, it gets it word for word, and the
/// sender is blocked no more than before.
pub proof fn queued_message_arrives(m: SchedModel, dst: i32, msg: Message)
    requires
        sound(m),
        crate::proc::model::in_table(dst),
        m.flags(m.current) == 0,
        !m.awaits_current(slot_of(dst)),
        slot_of(dst) != m.current,
    ensures
        ({
            let n = m.send(dst, msg);
            let at_dst = SchedModel { current: slot_of(dst), ..n };
            let (after, r) = at_dst.receive_step(m.procs[m.current].proc_nr);
            &&& flagged(n.flags(m.current), rts::SENDING)
            &&& r == Step::Done(msg)
            &&& after.flags(m.current) == 0
            &&& after.callers == m.callers
        }),
{
    let c = m.current;
    let d = slot_of(dst);
    let n = m.send(dst, msg);
    let at_dst = SchedModel { current: d, ..n };
    let line = n.callers[d];
    let nr = m.procs[c].proc_nr;
    rts::none_set();
    rts::raise(0, rts::SENDING);
    assert(0u16 | rts::SENDING == rts::SENDING) by (bit_vector);
    assert(rts::SENDING & !rts::SENDING == 0) by (bit_vector);
    rts::only(rts::SENDING);
    lined_up_is_sending(m, Set::empty(), c);
    assert(n.callers[d] == m.callers[d].push(c));
    let k = m.callers[d].len() as int;
    let f = |k: int| nr == com::ANY || nr == at_dst.procs[line[k]].proc_nr;
    assert(slot_ok(m.procs[c], c, m.sem_seq));
    assert(nr != com::ANY);
    assert forall|j: int| 0 <= j < k implies !#[trigger] f(j) by {
        let s = m.callers[d][j];
        assert(line[j] == s);
        assert(flagged(m.flags(s), rts::SENDING));
        assert(slot_ok(m.procs[s], s, m.sem_seq));
        rts::only(rts::SLOT_FREE);
        rts::only(rts::RESERVED);
        assert(s != c);
    }
    assert(f(k));
    first_holds(0, line.len() as int, f);
    assert(at_dst.sender_for(nr) == Some(k));
    assert(line.remove(k) =~= m.callers[d]);
    assert(at_dst.accept(k).callers =~= m.callers);
}

/// A unit of a semaphore goes to the process that began to wait first, and
/// everyone else keeps the place in line.
pub proof fn first_come_first_served(m: SchedModel, id: usize, w: int)
    requires
        sound(m),
        id < NR_SEMS,
        m.longest_waiter(id, NR_PROCS as int) == Some(w),
    ensures
        m.release_unit(id).procs[w].sem_granted == Some(id),
        m.release_unit(id).procs[w].sem_wait is None,
        forall|j: int|
            #![trigger m.procs[j]]
            0 <= j < NR_PROCS && j != w && m.procs[j].sem_wait is Some && (m.procs[j].sem_wait->0).0
                == id ==> (m.procs[w].sem_wait->0).1 < (m.procs[j].sem_wait->0).1,
        forall|j: int| 0 <= j < NR_PROCS && j != w ==> m.release_unit(id).procs[j] == #[trigger] m.procs[j],
        m.release_unit(id).sems == m.sems,
{
    longest_waiter_waits(m, id, NR_PROCS as int);
    assert forall|j: int|
        #![trigger m.procs[j]]
        0 <= j < NR_PROCS && j != w && m.procs[j].sem_wait is Some && (m.procs[j].sem_wait->0).0
            == id implies (m.procs[w].sem_wait->0).1 < (m.procs[j].sem_wait->0).1 by {
        assert((m.procs[w].sem_wait->0).1 != (m.procs[j].sem_wait->0).1);
    }
}

/// A process that joins the line at a semaphore is behind everyone there.
pub proof fn joins_at_the_end(m: SchedModel, id: usize, j: int)
    requires
        sound(m),
        0 <= j < NR_PROCS,
        j != m.current,
        m.procs[j].sem_wait is Some,
        m.sem_seq < u64::MAX,
    ensures
        ({
            let n = m.join_line(id);
            (n.procs[j].sem_wait->0).1 < (n.procs[m.current].sem_wait->0).1
        }),
{
    assert(slot_ok(m.procs[j], j, m.sem_seq));
}

/// A unit that is released while nobody waits can be taken again, which
/// leaves everything as it was.
pub proof fn release_then_acquire(m: SchedModel, id: usize)
    requires
        sound(m),
        m.sem_exists(id),
        m.longest_waiter(id, NR_PROCS as int) is None,
        m.sems[id as int].count < i32::MAX,
        m.procs[m.current].sem_granted is None,
        m.procs[m.current].sem_wait is None,
    ensures
        m.release_unit(id).acquire_step(id) == (m, Step::<Result<(), BadSem>>::Done(Ok(()))),
{
    let n = m.release_unit(id).acquire_step(id).0;
    assert(n.sems =~= m.sems);
    assert(n =~= m);
}

/// A released unit that was handed to a waiter is taken by it when it asks,
/// and the count does not change.
pub proof fn handed_unit_is_taken(m: SchedModel, id: usize)
    requires
        sound(m),
        m.procs[m.current].sem_granted == Some(id),
    ensures
        m.acquire_step(id).1 == Step::<Result<(), BadSem>>::Done(Ok(())),
        m.acquire_step(id).0.sems == m.sems,
        m.acquire_step(id).0.procs[m.current].sem_granted is None,
{
}

/// Ending a port wait touches neither ports nor messages.
proof fn stop_keeps_ports(m: SchedModel, i: int)
    ensures
        m.stop_port_wait(i).ports == m.ports,
        m.stop_port_wait(i).port_generations == m.port_generations,
        m.stop_port_wait(i).pending == m.pending,
        m.stop_port_wait(i).ticks == m.ticks,
        m.stop_port_wait(i).current == m.current,
{
}

/// Waking those who wait on a port touches neither ports nor messages.
pub proof fn wake_keeps_ports(m: SchedModel, port: usize, n: int)
    ensures
        m.wake_port_waiters(port, n).ports == m.ports,
        m.wake_port_waiters(port, n).port_generations == m.port_generations,
        m.wake_port_waiters(port, n).pending == m.pending,
        m.wake_port_waiters(port, n).ticks == m.ticks,
        m.wake_port_waiters(port, n).current == m.current,
    decreases n,
{
    if n > 0 {
        wake_keeps_ports(m, port, n - 1);
        stop_keeps_ports(m.wake_port_waiters(port, n - 1), n - 1);
    }
}

/// Waking everyone who waits on a port touches neither ports nor messages.
pub proof fn wake_all_keeps_ports(m: SchedModel, n: int)
    ensures
        m.wake_all_port_waiters(n).ports == m.ports,
        m.wake_all_port_waiters(n).port_generations == m.port_generations,
        m.wake_all_port_waiters(n).pending == m.pending,
        m.wake_all_port_waiters(n).ticks == m.ticks,
        m.wake_all_port_waiters(n).current == m.current,
    decreases n,
{
    if n > 0 {
        wake_all_keeps_ports(m, n - 1);
        stop_keeps_ports(m.wake_all_port_waiters(n - 1), n - 1);
    }
}

/// What is written to a port with room is queued behind what is there, and
/// a read takes what was written first: from an empty port, exactly the
/// message that was written, leaving the port empty again.
pub proof fn port_is_a_queue(
    m: SchedModel,
    id: i32,
    s: int,
    w: Result<Option<u64>, i32>,
    r: Result<Option<u64>, i32>,
)
    requires
        sound(m),
        m.port_slot(id) == Some(s),
        !(m.ports[s]->0).closed,
        m.pending[m.current] is Some,
        m.room_in(s),
    ensures
        ({
            let (n, status) = m.write_step(id, w);
            let (after, got) = n.read_step(id, r, true);
            let before = (m.ports[s]->0).queue;
            let written = before.push(m.pending[m.current]->0);
            &&& status == Step::Done(haiku::B_OK)
            &&& n.port_slot(id) == Some(s)
            &&& (n.ports[s]->0).queue == written
            &&& got == Step::<Result<(i32, Seq<u8>), i32>>::Done(Ok(written[0]))
            &&& (after.ports[s]->0).queue == written.subrange(1, written.len() as int)
            &&& before.len() == 0 ==> written[0] == m.pending[m.current]->0 && (
            after.ports[s]->0).queue.len() == 0
        }),
{
    let p = m.ports[s]->0;
    let m1 = m.with_port(
        s,
        Some(PortModel { queue: p.queue.push(m.pending[m.current]->0), ..p }),
    ).give_up_write();
    wake_keeps_ports(m1, s as usize, NR_PROCS as int);
    let n = m1.wake_port_waiters(s as usize, NR_PROCS as int);
    let q = n.ports[s]->0;
    wake_all_keeps_ports(n.with_port(s, Some(q.read_one())), NR_PROCS as int);
}

/// A port that was deleted is not found by its id, and neither is the next
/// port in its slot.
pub proof fn stale_id_finds_nothing(m: SchedModel, id: i32, s: int, capacity: i32, name: Seq<u8>)
    requires
        sound(m),
        m.port_slot(id) == Some(s),
    ensures
        m.delete_port_slot(s).port_slot(id) is None,
        m.delete_port_slot(s).open_port(s, capacity, name).port_slot(id) is None,
        m.delete_port_slot(s).open_port(s, capacity, name).port_slot(
            port_id(next_port_generation(m.port_generations[s]), s),
        ) == Some(s),
{
    wake_all_keeps_ports(m.with_port(s, None), NR_PROCS as int);
    let g = m.port_generations[s];
    assert(g < PORT_GENERATIONS);
    assert(next_port_generation(g) != g);
    assert(next_port_generation(g) < PORT_GENERATIONS);
}

/// Every id of a live port is positive or zero and names that port alone.
pub proof fn port_ids_differ(m: SchedModel, s: int, t: int)
    requires
        sound(m),
        0 <= s < NR_PORTS,
        0 <= t < NR_PORTS,
        m.ports[s] is Some,
        m.ports[t] is Some,
    ensures
        port_id(m.port_generations[s], s) >= 0,
        m.port_slot(port_id(m.port_generations[s], s)) == Some(s),
        s != t ==> port_id(m.port_generations[s], s) != port_id(m.port_generations[t], t),
{
    assert(m.port_generations[s] < PORT_GENERATIONS);
    assert(m.port_generations[t] < PORT_GENERATIONS);
}

/// A closed port takes no more writes, and reads until it is empty; then it
/// is as if it were gone.
pub proof fn closed_port_drains(m: SchedModel, id: i32, s: int, d: Result<Option<u64>, i32>)
    requires
        sound(m),
        m.port_slot(id) == Some(s),
        (m.ports[s]->0).closed,
    ensures
        m.write_step(id, d).1 == Step::Done(haiku::B_BAD_PORT_ID),
        (m.ports[s]->0).queue.len() > 0 ==> m.read_step(id, d, true).1 == Step::<
            Result<(i32, Seq<u8>), i32>,
        >::Done(Ok((m.ports[s]->0).queue[0])),
        (m.ports[s]->0).queue.len() == 0 ==> m.read_step(id, d, true) == (
            m,
            Step::<Result<(i32, Seq<u8>), i32>>::Done(Err(haiku::B_BAD_PORT_ID)),
        ),
{
}

/// The status of a process that ends is not lost while its parent lives: a
/// thread of the parent's team that waits has it at once, or the slot keeps
/// it until one asks.
pub proof fn status_reaches_parent(m: SchedModel, i: int, status: i32)
    requires
        sound_but(m, Set::empty().insert(i)),
        0 <= i < NR_PROCS,
        m.parent_lives(m.procs[i].parent),
        m.child_waiter(m.procs[i].parent) != Some(i),
    ensures
        ({
            let n = m.bury(i, status);
            let nr = m.procs[i].proc_nr;
            match m.child_waiter(m.procs[i].parent) {
                Some(w) => n.procs[w].wait_result == Some((nr, status)) && !flagged(
                    n.flags(w),
                    rts::WAITING,
                ),
                None => n.procs[i].exit_status == Some(status) && n.procs[i].parent
                    == m.procs[i].parent && n.procs[i].proc_nr == nr && flagged(
                    n.flags(i),
                    rts::ZOMBIE,
                ),
            }
        }),
{
    let parent = m.procs[i].parent;
    let team = m.procs[slot_of(parent)].team;
    let f = |j: int| m.is_member(j, team) && flagged(m.flags(j), rts::WAITING);
    first_holds(0, NR_PROCS as int, f);
    rts::raise(m.flags(i), rts::ZOMBIE);
    match m.child_waiter(parent) {
        Some(w) => {
            rts::lower(m.flags(w), rts::WAITING);
        },
        None => {},
    }
}

/// A zombie child is collected once: the parent gets its number and status,
/// and the slot is free.
pub proof fn zombie_is_collected(m: SchedModel, z: int)
    requires
        sound(m),
        m.procs[m.current].wait_result is None,
        m.zombie_of(m.procs[m.current].team) == Some(z),
    ensures
        ({
            let (n, r) = m.wait_step();
            &&& r == Step::Done(Some((m.procs[z].proc_nr, m.procs[z].exit_status->0)))
            &&& n.flags(z) == rts::SLOT_FREE
            &&& n.zombie_of(m.procs[m.current].team) != Some(z)
        }),
{
    let me = m.procs[m.current].team;
    let f = |j: int| m.procs[j].parent == me && m.procs[j].exit_status is Some;
    first_holds(0, NR_PROCS as int, f);
    let n = m.wait_step().0;
    let g = |j: int| n.procs[j].parent == me && n.procs[j].exit_status is Some;
    first_holds(0, NR_PROCS as int, g);
    assert(!g(z));
}

} // verus!
