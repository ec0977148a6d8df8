//! Messages, and the calls that pass them.
use crate::com::slot_of;
use crate::proc::endings::Step;
use crate::proc::model::in_table;
use crate::proc::rendezvous::{mini_notify, mini_receive, mini_send};
use crate::proc::rts;
use crate::proc::rts::flagged;
use crate::proc::scheduler::Scheduler;
use crate::proc::soundness::holds_process;
use vstd::prelude::*;

verus! {

/// Fixed-size message body.
#[derive(Clone, Copy, Debug)]
pub struct Message {
    /// Who sent the message.
    pub source: i32,
    /// What kind of message this is: a call number or notification type.
    pub m_type: i32,
    pub args: [i64; 4],
}

impl Message {
    /// The message with every field zero.
    pub open spec fn zero() -> Message {
        Message { source: 0, m_type: 0, args: [0i64, 0i64, 0i64, 0i64] }
    }

    /// A message with every field zero.
    pub fn empty() -> (m: Message)
        ensures
            m == Message::zero(),
    {
        Message { source: 0, m_type: 0, args: [0, 0, 0, 0] }
    }
}

impl Default for Message {
    fn default() -> (m: Message)
        ensures
            m == Message::zero(),
    {
        Message::empty()
    }
}

/// Send `msg` to `dst`. The running process is blocked afterwards unless
/// `dst` was waiting for it.
pub fn send(sched: &mut Scheduler, dst: i32, msg: Message)
    requires
        old(sched).wf(),
        in_table(dst),
        holds_process(old(sched)@.procs[old(sched)@.current]),
        !flagged(old(sched)@.flags(old(sched)@.current), rts::SENDING),
        !flagged(old(sched)@.flags(old(sched)@.current), rts::ZOMBIE),
        !flagged(old(sched)@.flags(old(sched)@.current), rts::DRAINING),
        old(sched)@.may_send(dst),
    ensures
        final(sched).wf(),
        final(sched)@ == old(sched)@.send(dst, msg),
{
    mini_send(sched, dst, &msg);
}

/// Receive a message from `src`, or from anyone. The running process is
/// blocked if none has been sent yet.
pub fn receive(sched: &mut Scheduler, src: i32) -> (r: Step<Message>)
    requires
        old(sched).wf(),
        holds_process(old(sched)@.procs[old(sched)@.current]),
    ensures
        final(sched).wf(),
        (final(sched)@, r) == old(sched)@.receive_step(src),
{
    mini_receive(sched, src)
}

/// Send a notification that never blocks, and is lost unless `dst` is
/// waiting for it.
pub fn notify(sched: &mut Scheduler, dst: i32, m_type: i32) -> (delivered: bool)
    requires
        old(sched).wf(),
        in_table(dst),
    ensures
        final(sched).wf(),
        delivered == old(sched)@.awaits_current(slot_of(dst)),
        final(sched)@ == old(sched)@.notify(
            slot_of(dst),
            old(sched)@.procs[old(sched)@.current].proc_nr,
            m_type,
        ),
{
    mini_notify(sched, dst, m_type)
}

} // verus!
