//! Time: ticks, quanta, alarms, and who runs when.
use vstd::prelude::*;

use crate::com;
use crate::pit;
use crate::proc::lists::listed;
use crate::proc::model::{Proc, SchedModel, BOOTSTRAP, NR_PROCS};
use crate::proc::rts;
use crate::proc::rts::flagged;
use crate::proc::scheduler::Scheduler;
use crate::proc::soundness::{frame_sound, put_same_sound, slot_ok};

verus! {

/// A tick less of a quantum.
pub open spec fn one_less(ticks: i32) -> i32 {
    if ticks == i32::MIN {
        ticks
    } else {
        (ticks - 1) as i32
    }
}

impl SchedModel {
    /// Whether the clock counts the running process's quantum down.
    pub open spec fn counts_down(self) -> bool {
        self.current != BOOTSTRAP && self.procs[self.current].preemptible
    }

    /// One tick of the running process's quantum is gone; one that has used
    /// it up and can still run joins its queue anew.
    pub open spec fn charge(self) -> SchedModel {
        let i = self.current;
        let p = self.procs[i];
        if !self.counts_down() {
            self
        } else {
            let m = self.put(i, Proc { ticks_left: one_less(p.ticks_left), ..p });
            if p.ticks_left <= 1 && p.rts_flags == 0 {
                m.dequeue(i).enqueue(i)
            } else {
                m
            }
        }
    }

    /// The alarm of slot `i` goes off if its time has come.
    pub open spec fn ring(self, i: int) -> SchedModel {
        let p = self.procs[i];
        if p.alarm is Some && self.ticks >= p.alarm->0 {
            self.put(i, Proc { alarm: None, ..p }).notify(i, com::CLOCK, com::SYN_ALARM)
        } else {
            self
        }
    }

    /// The wait of slot `i` for a port ends if its time has come.
    pub open spec fn expire(self, i: int) -> SchedModel {
        let p = self.procs[i];
        if flagged(p.rts_flags, rts::PORT_WAIT) && p.wait_deadline is Some && self.ticks
            >= p.wait_deadline->0 {
            self.put(i, Proc { timed_out: true, ..p }).stop_port_wait(i)
        } else {
            self
        }
    }

    /// The alarms and timed waits of the first `n` slots.
    pub open spec fn timers(self, n: int) -> SchedModel
        decreases n,
    {
        if n <= 0 {
            self
        } else {
            self.timers(n - 1).ring(n - 1).expire(n - 1)
        }
    }

    /// One tick of the clock.
    pub open spec fn tick(self) -> SchedModel {
        SchedModel { ticks: (self.ticks + 1) as u64, ..self }.charge().timers(NR_PROCS as int)
    }

    /// Page table and flags that slot `i` runs with.
    pub open spec fn space_of(self, i: int) -> (u64, u64) {
        match self.procs[i].cr3 {
            Some(frame) => (frame, self.kernel_cr3.1),
            None => self.kernel_cr3,
        }
    }
}

/// A switch from one process to another: the slots, and what to load for
/// the new one.
#[derive(Clone, Copy)]
pub struct Switch {
    pub prev: usize,
    pub next: usize,
    pub entry: u64,
    pub rsp: u64,
    pub cr3: u64,
    pub cr3_flags: u64,
}

/// Whether `s` is the switch of `m` from its running slot to slot `n`.
pub open spec fn switches(m: SchedModel, n: int, s: Switch) -> bool {
    &&& s.prev == m.current
    &&& s.next == n
    &&& s.entry == m.procs[n].entry
    &&& s.rsp == m.procs[n].rsp
    &&& (s.cr3, s.cr3_flags) == m.space_of(n)
}

impl Scheduler {
    /// Page table and flags that slot `idx` runs with: its own, or the
    /// kernel's.
    pub(crate) fn cr3_for(&self, idx: usize) -> (r: (u64, u64))
        requires
            idx < self@.procs.len(),
        ensures
            r == self@.space_of(idx as int),
    {
        let kernel = self.kernel_space();
        match self.at(idx).cr3 {
            Some(frame) => (frame, kernel.1),
            None => kernel,
        }
    }
}

/// One tick of the clock: the running process is charged for it, alarms
/// whose time has come are delivered, and port waits whose time has come
/// end.
pub fn clock_tick(sched: &mut Scheduler)
    requires
        old(sched).wf(),
        old(sched)@.ticks < u64::MAX,
    ensures
        final(sched).wf(),
        final(sched)@ == old(sched)@.tick(),
{
    let ghost none = Set::<int>::empty();
    let ghost m0 = sched@;
    let now: u64 = sched.clock() + 1;
    sched.set_clock(now);
    let ghost m1 = sched@;
    proof {
        frame_sound(m0, m1, none);
    }
    let idx: usize = sched.current_slot();
    let mut p = sched.at(idx);
    if idx != BOOTSTRAP && p.preemptible {
        let requeued: bool = p.ticks_left <= 1 && p.rts_flags == 0;
        proof {
            assert(slot_ok(m1.procs[idx as int], idx as int, m1.sem_seq));
        }
        if p.ticks_left > i32::MIN {
            p.ticks_left = p.ticks_left - 1;
        }
        if requeued {
            requeue(sched, p);
        } else {
            proof {
                put_same_sound(m1, none, idx as int, p);
            }
            sched.put(idx, p);
        }
    }
    let ghost m2 = sched@;
    assert(m2 == m1.charge());
    let mut i: usize = 0;
    while i < NR_PROCS
        invariant
            i <= NR_PROCS,
            sched.wf(),
            sched@ == m2.timers(i as int),
            sched@.ticks == now,
        decreases NR_PROCS - i,
    {
        let ghost a = sched@;
        let mut p = sched.at(i);
        let rings: bool = match p.alarm {
            Some(target) => now >= target,
            None => false,
        };
        if rings {
            p.alarm = None;
            proof {
                put_same_sound(a, Set::empty(), i as int, p);
            }
            sched.put(i, p);
            let _heard: bool = sched.try_deliver_notification(
                i,
                com::CLOCK,
                com::SYN_ALARM,
                Ghost(Set::empty()),
            );
        }
        assert(sched@ == a.ring(i as int));
        let ghost b = sched@;
        let mut q = sched.at(i);
        let expired: bool = match q.wait_deadline {
            Some(d) => now >= d,
            None => false,
        };
        if q.rts_flags & rts::PORT_WAIT != 0 && expired {
            q.timed_out = true;
            proof {
                put_same_sound(b, Set::empty(), i as int, q);
            }
            sched.put(i, q);
            sched.stop_port_wait(i);
        }
        assert(sched@ == b.expire(i as int));
        i = i + 1;
    }
}

/// Give the running process the entry `p`, whose quantum is used up, and let
/// it join its queue anew.
fn requeue(sched: &mut Scheduler, p: Proc)
    requires
        old(sched).wf(),
        old(sched)@.flags(old(sched)@.current) == 0,
        p.ticks_left <= 0,
        p.ticks_left < i32::MAX,
        p == (Proc { ticks_left: p.ticks_left, ..old(sched)@.procs[old(sched)@.current] }),
    ensures
        final(sched).wf(),
        final(sched)@ == old(sched)@.put(old(sched)@.current, p).dequeue(
            old(sched)@.current,
        ).enqueue(old(sched)@.current),
{
    let ghost none = Set::<int>::empty();
    let ghost m = sched@;
    let idx: usize = sched.current_slot();
    let ghost i = idx as int;
    // Taking the slot out of its queue and changing its quantum commute.
    sched.dequeue(idx, Ghost(none));
    proof {
        rts::none_set();
        crate::proc::soundness::lined_up_is_sending(sched@, none.insert(i), i);
        assert(slot_ok(m.procs[i], i, m.sem_seq));
    }
    let ghost m1 = sched@;
    sched.put_and_enqueue(idx, p);
    proof {
        assert(m1.put(i, p) == m.put(i, p).dequeue(i));
    }
}

impl Scheduler {
    /// Give slot `idx`, runnable and in no queue, the entry `p`, whose
    /// quantum is used up, and let it join its queue.
    fn put_and_enqueue(&mut self, idx: usize, p: Proc)
        requires
            old(self).linked(),
            crate::proc::soundness::sound_but(old(self)@, Set::empty().insert(idx as int)),
            idx < NR_PROCS,
            old(self)@.flags(idx as int) == 0,
            !listed(old(self)@.queues, idx as int),
            !listed(old(self)@.callers, idx as int),
            p.ticks_left <= 0,
            p == (Proc { ticks_left: p.ticks_left, ..old(self)@.procs[idx as int] }),
        ensures
            final(self).wf(),
            final(self)@ == old(self)@.put(idx as int, p).enqueue(idx as int),
    {
        let ghost i = idx as int;
        let ghost xs = Set::<int>::empty().insert(i);
        let ghost m = self@;
        // What is left of a used-up quantum does not matter.
        let mut q = p;
        q.ticks_left = 0;
        proof {
            assert(slot_ok(m.procs[i], i, m.sem_seq));
            put_same_sound(m, xs, i, q);
        }
        self.put(idx, q);
        self.enqueue(idx, Ghost(xs));
        proof {
            assert(xs.remove(i) =~= Set::<int>::empty());
            let again = m.last_expired == Some(i);
            assert(crate::proc::model::charged(q, i, again) == crate::proc::model::charged(
                p,
                i,
                again,
            ));
            assert(m.put(i, p).enqueue(i).procs =~= m.put(i, q).enqueue(i).procs);
            assert(m.put(i, p).enqueue(i).queues =~= m.put(i, q).enqueue(i).queues);
            assert(m.put(i, p).enqueue(i) =~= m.put(i, q).enqueue(i));
        }
    }
}

/// Give up the rest of the quantum and go to the back of the ready queue.
pub fn yield_now(sched: &mut Scheduler)
    requires
        old(sched).wf(),
        old(sched)@.flags(old(sched)@.current) == 0,
    ensures
        final(sched).wf(),
        ({
            let m = old(sched)@;
            let i = m.current;
            final(sched)@ == m.put(i, (Proc { ticks_left: 0, ..m.procs[i] })).dequeue(i).enqueue(i)
        }),
{
    let idx: usize = sched.current_slot();
    let mut p = sched.at(idx);
    p.ticks_left = 0;
    requeue(sched, p);
}

/// Ask for an alarm notification once `delay_ticks` have passed; it
/// replaces any pending one.
pub fn set_alarm(sched: &mut Scheduler, delay_ticks: u64)
    requires
        old(sched).wf(),
        old(sched)@.ticks + delay_ticks <= u64::MAX,
    ensures
        final(sched).wf(),
        ({
            let m = old(sched)@;
            final(sched)@ == m.put(
                m.current,
                (Proc { alarm: Some((m.ticks + delay_ticks) as u64), ..m.procs[m.current] }),
            )
        }),
{
    let idx: usize = sched.current_slot();
    let mut p = sched.at(idx);
    p.alarm = Some(sched.clock() + delay_ticks);
    proof {
        put_same_sound(sched@, Set::empty(), idx as int, p);
    }
    sched.put(idx, p);
}

/// Switch to whoever should run now: `None` if that is the running process.
pub fn reschedule(sched: &mut Scheduler) -> (r: Option<Switch>)
    requires
        old(sched).wf(),
        old(sched)@.next() is Some,
    ensures
        final(sched).wf(),
        ({
            let m = old(sched)@;
            let n = m.next()->0;
            if n == m.current {
                r is None && final(sched)@ == m
            } else {
                &&& r matches Some(s) && switches(m, n, s)
                &&& final(sched)@ == (SchedModel { current: n, ..m })
            }
        }),
{
    let ghost m = sched@;
    let next: usize = sched.next_slot().unwrap();
    let prev: usize = sched.current_slot();
    if next == prev {
        return None;
    }
    let p = sched.at(next);
    let (cr3, cr3_flags) = sched.cr3_for(next);
    sched.set_current(next);
    proof {
        frame_sound(m, sched@, Set::empty());
    }
    Some(Switch { prev, next, entry: p.entry, rsp: p.rsp, cr3, cr3_flags })
}

/// Hand off from the bootstrap context to the first ready process.
pub fn start(sched: &mut Scheduler) -> (s: Switch)
    requires
        old(sched).wf(),
        old(sched)@.next() is Some,
    ensures
        final(sched).wf(),
        switches(old(sched)@, old(sched)@.next()->0, s),
        final(sched)@ == (SchedModel { current: old(sched)@.next()->0, ..old(sched)@ }),
{
    let ghost m = sched@;
    let next: usize = sched.next_slot().unwrap();
    let prev: usize = sched.current_slot();
    let p = sched.at(next);
    let (cr3, cr3_flags) = sched.cr3_for(next);
    sched.set_current(next);
    proof {
        frame_sound(m, sched@, Set::empty());
    }
    Switch { prev, next, entry: p.entry, rsp: p.rsp, cr3, cr3_flags }
}

/// Ticks since the timer was programmed.
pub fn uptime_ticks(sched: &Scheduler) -> (r: u64)
    ensures
        r == sched@.ticks,
{
    sched.clock()
}

/// Microseconds since the timer was programmed, at its resolution.
pub fn system_time_us(sched: &Scheduler) -> (r: i64)
    requires
        sched@.ticks * 1000000 <= i64::MAX,
    ensures
        r == sched@.ticks * 1000000 / (pit::HZ as int),
{
    sched.clock() as i64 * 1000000 / pit::HZ as i64
}

} // verus!
