//! Messages by rendezvous: a sender waits until its destination receives,
//! a receiver until somebody sends.
use vstd::prelude::*;

use crate::com;
use crate::com::{slot, slot_of};
use crate::ipc::Message;
use crate::proc::endings::Step;
use crate::proc::lifecycle::{holding, lower_keeps, raise_keeps};
use crate::proc::lists::listed;
use crate::proc::model::{first_from, in_table, Proc, SchedModel, NR_PROCS};
use crate::proc::rts;
use crate::proc::rts::flagged;
use crate::proc::scheduler::Scheduler;
use crate::proc::soundness::{
    holds_process, leave_line_sound, line_up_sound, lined_up_is_sending, put_same_sound, put_sound,
    queued_is_runnable, slot_ok,
};

verus! {

impl SchedModel {
    /// Whether following who sends to whom from slot `x` comes to an end
    /// within `n` steps without meeting slot `caller`.
    pub open spec fn chain_clear(self, x: int, caller: int, n: nat) -> bool
        decreases n,
    {
        if !flagged(self.flags(x), rts::SENDING) {
            true
        } else {
            let y = slot_of(self.procs[x].send_to);
            n > 0 && y != caller && self.chain_clear(y, caller, (n - 1) as nat)
        }
    }

    /// Whether a send from the running process to `dst` closes no circle of
    /// senders.
    pub open spec fn may_send(self, dst: i32) -> bool {
        exists|n: nat| #[trigger] self.chain_clear(slot_of(dst), self.current, n)
    }

    /// Whether slot `dst` is blocked waiting for a message from the running
    /// process.
    pub open spec fn awaits_current(self, dst: int) -> bool {
        self.hears(dst, self.procs[self.current].proc_nr)
    }

    /// The running process blocks at the end of the line of senders to
    /// `dst`.
    pub open spec fn queue_sender(self, dst: i32, msg: Message) -> SchedModel {
        let c = self.current;
        let d = slot_of(dst);
        let m = self.put(c, Proc { messbuf: msg, send_to: dst, ..self.procs[c] }).block(
            c,
            rts::SENDING,
        );
        SchedModel { callers: m.callers.update(d, m.callers[d].push(c)), ..m }
    }

    /// The running process sends `msg` to `dst`: handed over at once if the
    /// destination waits for it, else the sender blocks in line.
    pub open spec fn send(self, dst: i32, msg: Message) -> SchedModel {
        if self.awaits_current(slot_of(dst)) {
            self.hand_over(slot_of(dst), msg)
        } else {
            self.queue_sender(dst, msg)
        }
    }

    /// The place of the first sender in the running process's line that
    /// `src` admits.
    pub open spec fn sender_for(self, src: i32) -> Option<int> {
        let line = self.callers[self.current];
        first_from(
            0,
            line.len() as int,
            |k: int| src == com::ANY || src == self.procs[line[k]].proc_nr,
        )
    }

    /// The running process takes the message of number `k` in its line, who
    /// goes on.
    pub open spec fn accept(self, k: int) -> SchedModel {
        let d = self.current;
        SchedModel { callers: self.callers.update(d, self.callers[d].remove(k)), ..self }.unblock(
            self.callers[d][k],
            rts::SENDING,
        )
    }

    /// The running process blocks until a message from `src` arrives.
    pub open spec fn await_message(self, src: i32) -> SchedModel {
        let i = self.current;
        self.put(i, Proc { messbuf: Message::zero(), get_from: src, ..self.procs[i] }).block(
            i,
            rts::RECEIVING,
        )
    }

    /// What the running process finds when it receives from `src`.
    pub open spec fn receive_step(self, src: i32) -> (SchedModel, Step<Message>) {
        match self.sender_for(src) {
            Some(k) => (
                self.accept(k),
                Step::Done(self.procs[self.callers[self.current][k]].messbuf),
            ),
            None => (self.await_message(src), Step::Blocked),
        }
    }
}

/// Whether a send from the running process to `dst` ends in a circle of
/// senders, which would block all of them for ever.
pub fn send_would_deadlock(sched: &Scheduler, dst: i32) -> (r: bool)
    requires
        sched.wf(),
        in_table(dst),
    ensures
        !r <==> sched@.chain_clear(slot_of(dst), sched@.current, NR_PROCS as nat),
        !r ==> sched@.may_send(dst),
{
    let caller: usize = sched.current_slot();
    let mut xp: usize = slot(dst);
    let mut left: usize = NR_PROCS;
    while left > 0
        invariant
            sched.wf(),
            caller == sched@.current,
            xp < NR_PROCS,
            left <= NR_PROCS,
            sched@.chain_clear(slot_of(dst), caller as int, NR_PROCS as nat) == sched@.chain_clear(
                xp as int,
                caller as int,
                left as nat,
            ),
        decreases left,
    {
        let p = sched.at(xp);
        if p.rts_flags & rts::SENDING == 0 {
            return false;
        }
        assert(slot_ok(sched@.procs[xp as int], xp as int, sched@.sem_seq));
        xp = slot(p.send_to);
        if xp == caller {
            return true;
        }
        left = left - 1;
    }
    sched.at(xp).rts_flags & rts::SENDING != 0
}

/// Send `m` from the running process to `dst`. If `dst` is blocked waiting
/// for it, it is handed over at once; otherwise the sender blocks in line
/// until `dst` picks it up.
pub fn mini_send(sched: &mut Scheduler, dst: i32, m: &Message)
    requires
        old(sched).wf(),
        in_table(dst),
        holds_process(old(sched)@.procs[old(sched)@.current]),
        !flagged(old(sched)@.flags(old(sched)@.current), rts::SENDING),
        !flagged(old(sched)@.flags(old(sched)@.current), rts::ZOMBIE),
        !flagged(old(sched)@.flags(old(sched)@.current), rts::DRAINING),
        old(sched)@.may_send(dst),
    ensures
        final(sched).wf(),
        final(sched)@ == old(sched)@.send(dst, *m),
{
    let ghost m0 = sched@;
    let ghost none = Set::<int>::empty();
    let dst_idx: usize = slot(dst);
    let caller: usize = sched.current_slot();
    let ghost c = caller as int;
    let mut p = sched.at(caller);
    let mut d = sched.at(dst_idx);
    let accepted: bool = d.rts_flags & rts::RECEIVING != 0 && d.rts_flags & rts::SENDING == 0 && (
    d.get_from == com::ANY || d.get_from == p.proc_nr);
    if accepted {
        proof {
            lower_keeps(d, dst_idx as int, m0.sem_seq, rts::RECEIVING);
        }
        d.messbuf = *m;
        sched.unblock_with(dst_idx, d, rts::RECEIVING, Ghost(none));
        return ;
    }
    proof {
        lined_up_is_sending(m0, none, c);
        if p.rts_flags != 0 {
            queued_is_runnable(m0, none, c);
        }
    }
    p.messbuf = *m;
    p.send_to = dst;
    proof {
        if listed(m0.queues, c) {
            let (l, k) = choose|l: int, k: int|
                0 <= l < m0.queues.len() && 0 <= k < m0.queues[l].len() && #[trigger] m0.queues[l][k]
                    == c;
            assert(m0.flags(m0.queues[l][k]) == 0);
        }
        put_sound(m0, none, c, p);
        rts::raise(p.rts_flags, rts::SENDING);
        rts::only(rts::RESERVED);
        rts::only(rts::SLOT_FREE);
        holding(p, c, m0.sem_seq);
    }
    sched.put(caller, p);
    sched.block(caller, rts::SENDING, Ghost(none));
    proof {
        line_up_sound(sched@, none, dst_idx as int, c);
    }
    sched.line_up(dst_idx, caller);
}

/// Receive a message from `src`, or from anyone. If a sender the running
/// process admits is in its line, its message is taken at once; otherwise
/// the process blocks, and finds the message with `received` when it next
/// runs.
pub fn mini_receive(sched: &mut Scheduler, src: i32) -> (r: Step<Message>)
    requires
        old(sched).wf(),
        holds_process(old(sched)@.procs[old(sched)@.current]),
    ensures
        final(sched).wf(),
        (final(sched)@, r) == old(sched)@.receive_step(src),
{
    let ghost m = sched@;
    let ghost none = Set::<int>::empty();
    let caller: usize = sched.current_slot();
    let ghost d = caller as int;
    let ghost line = m.callers[d];
    let ghost f = |k: int| src == com::ANY || src == m.procs[line[k]].proc_nr;
    let mut cursor: Option<usize> = sched.first_caller(caller);
    let ghost mut k: int = 0;
    while cursor.is_some()
        invariant
            sched.wf(),
            sched@ == m,
            m == old(sched)@,
            caller == m.current,
            d == m.current,
            none == Set::<int>::empty(),
            line == m.callers[d],
            0 <= k <= line.len(),
            crate::proc::lists::as_int(cursor) == (if k < line.len() {
                Some(line[k])
            } else {
                None
            }),
            f == (|k: int| src == com::ANY || src == m.procs[line[k]].proc_nr),
            first_from(0, line.len() as int, f) == first_from(k, line.len() as int, f),
        decreases line.len() - k,
    {
        let cur: usize = cursor.unwrap();
        assert(m.callers[d][k] == cur);
        let p = sched.at(cur);
        if src == com::ANY || src == p.proc_nr {
            let msg = p.messbuf;
            proof {
                leave_line_sound(m, none, d, k);
                lower_keeps(p, cur as int, m.sem_seq, rts::SENDING);
            }
            sched.leave_line(caller, cur, Ghost(k));
            proof {
                assert(sched@.put(cur as int, p) =~= sched@);
            }
            sched.unblock_with(cur, p, rts::SENDING, Ghost(none));
            return Step::Done(msg);
        }
        cursor = sched.caller_after(cur, Ghost(d), Ghost(k));
        proof {
            k = k + 1;
        }
    }
    let mut p = sched.at(caller);
    p.messbuf = Message::empty();
    p.get_from = src;
    proof {
        put_same_sound(m, none, d, p);
        raise_keeps(p, d, m.sem_seq, rts::RECEIVING);
    }
    sched.put(caller, p);
    sched.block(caller, rts::RECEIVING, Ghost(none));
    Step::Blocked
}

/// The message that was delivered to the running process while it was
/// blocked receiving.
pub fn received(sched: &Scheduler) -> (m: Message)
    requires
        sched.wf(),
    ensures
        m == sched@.procs[sched@.current].messbuf,
{
    sched.at(sched.current_slot()).messbuf
}

/// A lightweight send that never blocks: `dst` gets the notification if it
/// is blocked waiting for one, else it is lost.
pub fn mini_notify(sched: &mut Scheduler, dst: i32, m_type: i32) -> (delivered: bool)
    requires
        old(sched).wf(),
        in_table(dst),
    ensures
        final(sched).wf(),
        delivered == old(sched)@.awaits_current(slot_of(dst)),
        final(sched)@ == old(sched)@.notify(
            slot_of(dst),
            old(sched)@.procs[old(sched)@.current].proc_nr,
            m_type,
        ),
{
    let caller: usize = sched.current_slot();
    let src: i32 = sched.at(caller).proc_nr;
    sched.try_deliver_notification(slot(dst), src, m_type, Ghost(Set::empty()))
}

} // verus!
