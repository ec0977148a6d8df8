//! What being blocked and woken means, and how messages find their way.
use vstd::prelude::*;

use crate::com;
use crate::com::slot_of;
use crate::ipc::Message;
use crate::proc::births::first_holds;
use crate::proc::endings::Step;
use crate::proc::lists::listed;
use crate::proc::model::{in_table, SchedModel, NR_PROCS, NR_SEMS};
use crate::proc::rts;
use crate::proc::rts::flagged;
use crate::proc::sems::BadSem;
use crate::proc::soundness::{dequeue_sound, slot_ok, sound};

verus! {

/// A process that is blocked has that reason from then on, along with those
/// it had, and is in no ready queue.
pub proof fn blocked_process_is_not_ready(m: SchedModel, i: int, bit: u16)
    requires
        sound(m),
        0 <= i < NR_PROCS,
        rts::is_bit(bit),
    ensures
        flagged(m.block(i, bit).flags(i), bit),
        forall|c: u16|
            rts::is_bit(c) && c != bit ==> #[trigger] flagged(m.block(i, bit).flags(i), c) == flagged(
                m.flags(i),
                c,
            ),
        !listed(m.block(i, bit).queues, i),
        m.block(i, bit).flags(i) != 0,
{
    rts::raise(m.flags(i), bit);
    if m.flags(i) == 0 {
        dequeue_sound(m, Set::empty(), i);
    } else {
        crate::proc::soundness::queued_is_runnable(m, Set::empty(), i);
    }
}

/// Taking a reason away leaves the others; a process that has none left is
/// in the queue of its priority.
pub proof fn woken_process_is_ready(m: SchedModel, i: int, bit: u16)
    requires
        sound(m),
        0 <= i < NR_PROCS,
        rts::is_bit(bit),
    ensures
        !flagged(m.unblock(i, bit).flags(i), bit),
        forall|c: u16|
            rts::is_bit(c) && c != bit ==> #[trigger] flagged(m.unblock(i, bit).flags(i), c)
                == flagged(m.flags(i), c),
        m.flags(i) == bit ==> {
            let n = m.unblock(i, bit);
            n.flags(i) == 0 && n.queues[n.procs[i].priority as int].contains(i)
        },
{
    rts::lower(m.flags(i), bit);
    assert(slot_ok(m.procs[i], i, m.sem_seq));
    if m.flags(i) == bit {
        assert(bit & !bit == 0) by (bit_vector);
        let a = m.with_flags(i, 0);
        let n = m.unblock(i, bit);
        assert(n == a.enqueue(i));
        let q = n.procs[i].priority as int;
        if a.procs[i].ticks_left > 0 {
            assert(n.queues[q][0] == i);
        } else {
            assert(n.queues[q][a.queues[q].len() as int] == i);
        }
    }
}

/// A notification reaches whoever is blocked receiving, from anybody or from
/// that sender, and is not itself in line to send: it has the sender, the
/// kind, and nothing else in it, and wakes the receiver. To anybody else it
/// is lost.
pub proof fn notification_reaches_who_listens(m: SchedModel, dst: int, src: i32, m_type: i32)
    requires
        sound(m),
        0 <= dst < NR_PROCS,
    ensures
        ({
            let p = m.procs[dst];
            let n = m.notify(dst, src, m_type);
            if flagged(p.rts_flags, rts::RECEIVING) && !flagged(p.rts_flags, rts::SENDING) && (
            p.get_from == com::ANY || p.get_from == src) {
                &&& n.procs[dst].messbuf.source == src
                &&& n.procs[dst].messbuf.m_type == m_type
                &&& n.procs[dst].messbuf.args == [0i64, 0i64, 0i64, 0i64]
                &&& !flagged(n.flags(dst), rts::RECEIVING)
            } else {
                n == m
            }
        }),
        forall|j: int| 0 <= j < NR_PROCS && j != dst ==> m.notify(dst, src, m_type).procs[j]
            == #[trigger] m.procs[j],
{
    rts::lower(m.flags(dst), rts::RECEIVING);
}

/// Whoever receives from anybody gets the message of the one that has been
/// in line longest, who is blocked on it no more, and the others keep their
/// order.
pub proof fn senders_are_served_in_order(m: SchedModel)
    requires
        sound(m),
        m.callers[m.current].len() > 0,
    ensures
        ({
            let line = m.callers[m.current];
            let (n, r) = m.receive_step(com::ANY);
            &&& r == Step::Done(m.procs[line[0]].messbuf)
            &&& n.callers[m.current] == line.subrange(1, line.len() as int)
            &&& !flagged(n.flags(line[0]), rts::SENDING)
        }),
{
    let line = m.callers[m.current];
    let f = |k: int| com::ANY == com::ANY || com::ANY == m.procs[line[k]].proc_nr;
    first_holds(0, line.len() as int, f);
    assert(f(0));
    assert(m.sender_for(com::ANY) == Some(0int));
    assert(line.remove(0) =~= line.subrange(1, line.len() as int));
    assert(flagged(m.flags(m.callers[m.current][0]), rts::SENDING));
    rts::lower(m.flags(line[0]), rts::SENDING);
}

/// Whoever receives from one process gets its message, if it is in line,
/// whoever else is; otherwise the receiver blocks until that one sends.
pub proof fn receiver_is_choosy(m: SchedModel, src: i32)
    requires
        sound(m),
        src != com::ANY,
    ensures
        ({
            let line = m.callers[m.current];
            let (n, r) = m.receive_step(src);
            match r {
                Step::Done(msg) => exists|k: int|
                    0 <= k < line.len() && m.procs[#[trigger] line[k]].proc_nr == src && msg
                        == m.procs[line[k]].messbuf && !flagged(n.flags(line[k]), rts::SENDING)
                        && n.callers[m.current] == line.remove(k),
                Step::Blocked => {
                    &&& forall|k: int|
                        0 <= k < line.len() ==> m.procs[#[trigger] line[k]].proc_nr != src
                    &&& flagged(n.flags(m.current), rts::RECEIVING)
                    &&& n.procs[m.current].get_from == src
                    &&& n.callers == m.callers
                },
            }
        }),
{
    let line = m.callers[m.current];
    let f = |k: int| src == com::ANY || src == m.procs[line[k]].proc_nr;
    first_holds(0, line.len() as int, f);
    rts::raise(m.flags(m.current), rts::RECEIVING);
    match m.sender_for(src) {
        Some(k) => {
            assert(f(k));
            assert(flagged(m.flags(m.callers[m.current][k]), rts::SENDING));
            rts::lower(m.flags(line[k]), rts::SENDING);
        },
        None => {
            assert forall|k: int| 0 <= k < line.len() implies m.procs[#[trigger] line[k]].proc_nr
                != src by {
                assert(!f(k));
            }
        },
    }
}

/// A sender whose receiver does not wait for it blocks at the end of the
/// line with its message, and the receiver is left alone.
pub proof fn sender_waits_in_line(m: SchedModel, dst: i32, msg: Message)
    requires
        sound(m),
        in_table(dst),
        slot_of(dst) != m.current,
        !m.awaits_current(slot_of(dst)),
    ensures
        ({
            let n = m.send(dst, msg);
            let c = m.current;
            let d = slot_of(dst);
            &&& flagged(n.flags(c), rts::SENDING)
            &&& n.procs[c].messbuf == msg
            &&& n.procs[c].send_to == dst
            &&& n.callers[d].last() == c
            &&& n.callers[d].drop_last() == m.callers[d]
            &&& n.procs[d] == m.procs[d]
        }),
{
    rts::raise(m.flags(m.current), rts::SENDING);
    let d = slot_of(dst);
    assert(m.callers[d].push(m.current).drop_last() =~= m.callers[d]);
}

/// A receiver is waited for exactly if it is blocked receiving, from anybody
/// or from the running process, and not in line to send itself.
pub proof fn who_waits_for_the_running_process(m: SchedModel, d: int)
    ensures
        m.awaits_current(d) <==> flagged(m.procs[d].rts_flags, rts::RECEIVING) && !flagged(
            m.procs[d].rts_flags,
            rts::SENDING,
        ) && (m.procs[d].get_from == com::ANY || m.procs[d].get_from == m.procs[m.current].proc_nr),
{
}

/// Slots each of which is blocked sending to the next.
pub open spec fn senders(m: SchedModel, path: Seq<int>) -> bool {
    forall|k: int|
        0 <= k < path.len() - 1 ==> flagged(m.flags(#[trigger] path[k]), rts::SENDING) && slot_of(
            m.procs[path[k]].send_to,
        ) == path[k + 1]
}

/// A send that would close a circle of senders is refused: one to a process
/// that sends to another, and so on, back to the sender.
pub proof fn circle_of_senders_is_refused(m: SchedModel, dst: i32, path: Seq<int>)
    requires
        path.len() >= 2,
        senders(m, path),
        path[0] == slot_of(dst),
        path.last() == m.current,
    ensures
        !m.may_send(dst),
{
    assert forall|n: nat| !#[trigger] m.chain_clear(slot_of(dst), m.current, n) by {
        circle_is_met(m, path, n);
    }
}

proof fn circle_is_met(m: SchedModel, path: Seq<int>, n: nat)
    requires
        path.len() >= 2,
        senders(m, path),
        path.last() == m.current,
    ensures
        !m.chain_clear(path[0], m.current, n),
    decreases path.len(),
{
    assert(flagged(m.flags(path[0]), rts::SENDING));
    assert(slot_of(m.procs[path[0]].send_to) == path[1]);
    if path[1] != m.current && n > 0 {
        let rest = path.skip(1);
        assert forall|k: int| 0 <= k < rest.len() - 1 implies flagged(
            m.flags(#[trigger] rest[k]),
            rts::SENDING,
        ) && slot_of(m.procs[rest[k]].send_to) == rest[k + 1] by {
            assert(rest[k] == path[k + 1]);
        }
        if path.len() > 2 {
            assert(rest.last() == path.last());
            circle_is_met(m, rest, (n - 1) as nat);
            assert(rest[0] == path[1]);
        } else {
            assert(path.last() == path[1]);
        }
    }
}

/// Any other send is not: one whose chain of senders ends with a process
/// that sends to nobody, before it comes back to the sender.
pub proof fn chain_that_ends_is_no_circle(m: SchedModel, dst: i32, path: Seq<int>)
    requires
        path.len() >= 1,
        senders(m, path),
        path[0] == slot_of(dst),
        !flagged(m.flags(path.last()), rts::SENDING),
        forall|k: int| 1 <= k < path.len() ==> #[trigger] path[k] != m.current,
    ensures
        m.may_send(dst),
{
    end_is_reached(m, path);
    assert(m.chain_clear(slot_of(dst), m.current, path.len()));
}

proof fn end_is_reached(m: SchedModel, path: Seq<int>)
    requires
        path.len() >= 1,
        senders(m, path),
        !flagged(m.flags(path.last()), rts::SENDING),
        forall|k: int| 1 <= k < path.len() ==> #[trigger] path[k] != m.current,
    ensures
        m.chain_clear(path[0], m.current, path.len()),
    decreases path.len(),
{
    if path.len() > 1 {
        assert(flagged(m.flags(path[0]), rts::SENDING));
        let rest = path.skip(1);
        assert forall|k: int| 0 <= k < rest.len() - 1 implies flagged(
            m.flags(#[trigger] rest[k]),
            rts::SENDING,
        ) && slot_of(m.procs[rest[k]].send_to) == rest[k + 1] by {
            assert(rest[k] == path[k + 1]);
        }
        assert forall|k: int| 1 <= k < rest.len() implies #[trigger] rest[k] != m.current by {
            assert(rest[k] == path[k + 1]);
        }
        assert(rest.last() == path.last());
        end_is_reached(m, rest);
        assert(rest[0] == path[1]);
        assert(path[1] != m.current);
    }
}

/// A semaphore that is deleted is free to be made anew, no other semaphore
/// changes, and nobody waits for it any more.
pub proof fn deleted_semaphore_is_gone(m: SchedModel, id: usize, other: usize, i: int)
    requires
        sound(m),
        m.sem_exists(id),
        other < NR_SEMS,
        other != id,
        0 <= i < NR_PROCS,
    ensures
        !m.delete_sem(id).sem_exists(id),
        m.delete_sem(id).sems[other as int] == m.sems[other as int],
        m.delete_sem(id).procs[i].sem_wait matches Some(w) ==> w.0 != id,
        m.procs[i].sem_wait is Some && (m.procs[i].sem_wait->0).0 == id ==> !flagged(
            m.delete_sem(id).flags(i),
            rts::SEM_WAIT,
        ),
        !(m.procs[i].sem_wait is Some && (m.procs[i].sem_wait->0).0 == id) ==> m.delete_sem(
            id,
        ).procs[i] == m.procs[i],
{
    letting_go(m, id, NR_PROCS as int, i);
}

proof fn letting_go(m: SchedModel, id: usize, n: int, i: int)
    requires
        0 <= i < m.procs.len(),
        n <= m.procs.len(),
    ensures
        ({
            let waits = m.procs[i].sem_wait is Some && (m.procs[i].sem_wait->0).0 == id;
            let a = m.let_all_go(id, n);
            &&& a.procs.len() == m.procs.len()
            &&& a.sems == m.sems
            &&& !waits || n <= i ==> a.procs[i] == m.procs[i]
            &&& waits && n > i ==> a.procs[i].sem_wait is None && !flagged(a.flags(i), rts::SEM_WAIT)
        }),
    decreases n,
{
    if n > 0 {
        letting_go(m, id, n - 1, i);
        if n - 1 == i {
            rts::lower(m.flags(i), rts::SEM_WAIT);
        }
    }
}

/// Taking a unit of a semaphore that has some takes exactly one and blocks
/// nobody; releasing one that nobody waits for adds exactly one.
pub proof fn units_are_counted(m: SchedModel, id: usize)
    requires
        sound(m),
        m.sem_exists(id),
        m.procs[m.current].sem_granted is None,
        m.procs[m.current].sem_wait is None,
    ensures
        m.sems[id as int].count > 0 ==> {
            let (n, r) = m.acquire_step(id);
            &&& r == Step::<Result<(), BadSem>>::Done(Ok(()))
            &&& n.sems[id as int].count == m.sems[id as int].count - 1
            &&& n.procs == m.procs
            &&& n.queues == m.queues
        },
        m.sems[id as int].count == 0 ==> {
            let (n, r) = m.acquire_step(id);
            &&& r == Step::<Result<(), BadSem>>::Blocked
            &&& n.sems == m.sems
            &&& n.procs[m.current].sem_wait is Some
            &&& (n.procs[m.current].sem_wait->0).0 == id
            &&& flagged(n.flags(m.current), rts::SEM_WAIT)
        },
        (forall|j: int|
            0 <= j < NR_PROCS ==> !((#[trigger] m.procs[j]).sem_wait is Some && (
            m.procs[j].sem_wait->0).0 == id)) && m.sems[id as int].count < i32::MAX
            ==> m.release_unit(id).sems[id as int].count == m.sems[id as int].count + 1
            && m.release_unit(id).procs == m.procs,
{
    rts::raise(m.flags(m.current), rts::SEM_WAIT);
    crate::proc::lifecycle::longest_waiter_waits(m, id, NR_PROCS as int);
}

} // verus!
