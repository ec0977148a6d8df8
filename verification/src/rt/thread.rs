//! Threads and semaphores of a program.
use crate::proc::endings::{thread_join, JoinError, Step};
use crate::proc::model::{Sem, SchedModel};
use crate::proc::scheduler::Scheduler;
use crate::proc::sems::{sem_acquire, sem_create, sem_delete, sem_release, BadSem};
use crate::proc::soundness::holds_process;
use crate::rt::sys::ERR_BAD_ARG_PTR;
use vstd::prelude::*;

verus! {

/// Bytes of a thread's function and argument.
pub const START_BYTES: u64 = 16;

/// Least room a thread needs below them.
pub const MIN_STACK: u64 = 256;

/// Where a thread's function and argument go on its stack, and its first
/// stack pointer.
#[derive(Clone, Copy, Debug, PartialEq, Eq, Structural)]
pub struct ThreadStack {
    pub start: u64,
    pub rsp: u64,
}

/// The largest multiple of sixteen that is at most `a`.
pub open spec fn aligned(a: int) -> int {
    a - a % 16
}

/// Lay out the stack of a new thread in `len` bytes at `base`: its function
/// and argument at the top, and below them the word that stands where a
/// caller's return address would. Memory that is too small is refused.
pub fn thread_stack(base: u64, len: u64) -> (r: Result<ThreadStack, i64>)
    requires
        base + len <= u64::MAX,
        base + MIN_STACK <= u64::MAX,
        base + len >= START_BYTES,
    ensures
        ({
            let start = aligned(aligned(base + len) - START_BYTES);
            if start < base + MIN_STACK {
                r == Err::<ThreadStack, i64>(ERR_BAD_ARG_PTR)
            } else {
                r == Ok::<ThreadStack, i64>(
                    (ThreadStack { start: start as u64, rsp: (start - 8) as u64 }),
                )
            }
        }),
        r matches Ok(s) ==> {
            &&& s.start % 16 == 0
            &&& base <= s.rsp
            &&& s.rsp + 8 == s.start
            &&& s.start + START_BYTES <= base + len
        },
{
    let end: u64 = base + len;
    let top: u64 = end - end % 16;
    let below: u64 = top - START_BYTES;
    let start: u64 = below - below % 16;
    if start < base + MIN_STACK {
        return Err(ERR_BAD_ARG_PTR);
    }
    Ok(ThreadStack { start, rsp: start - 8 })
}

/// A running thread.
pub struct Thread {
    pub id: i32,
}

impl Thread {
    /// The thread's number.
    pub fn id(&self) -> (id: i32)
        ensures
            id == self.id,
    {
        self.id
    }

    /// Wait for the thread to finish, and take what its function returned.
    pub fn join(self, sched: &mut Scheduler) -> (r: Step<Result<i32, JoinError>>)
        requires
            old(sched).wf(),
            holds_process(old(sched)@.procs[old(sched)@.current]),
        ensures
            final(sched).wf(),
            (final(sched)@, r) == old(sched)@.join_step(self.id),
    {
        thread_join(sched, self.id)
    }
}

/// A counting semaphore.
pub struct Semaphore {
    pub id: usize,
}

impl Semaphore {
    /// A semaphore with `count` units, none of them if that is negative.
    /// `None` if there are too many semaphores already.
    pub fn new(sched: &mut Scheduler, count: i32) -> (r: Option<Semaphore>)
        requires
            old(sched).wf(),
        ensures
            final(sched).wf(),
            match old(sched)@.free_sem_slot() {
                Some(id) => r matches Some(s) && s.id == id && final(sched)@ == (SchedModel {
                    sems: old(sched)@.sems.update(
                        id,
                        Sem {
                            in_use: true,
                            count: if count < 0 {
                                0
                            } else {
                                count
                            },
                            owner_team: old(sched)@.procs[old(sched)@.current].team,
                        },
                    ),
                    ..old(sched)@
                }),
                None => r is None && final(sched)@ == old(sched)@,
            },
    {
        match sem_create(sched, count) {
            Some(id) => Some(Semaphore { id }),
            None => None,
        }
    }

    /// Take a unit, waiting for one if there is none.
    pub fn acquire(&self, sched: &mut Scheduler) -> (r: Step<Result<(), BadSem>>)
        requires
            old(sched).wf(),
            holds_process(old(sched)@.procs[old(sched)@.current]),
            old(sched)@.sem_seq < u64::MAX,
        ensures
            final(sched).wf(),
            (final(sched)@, r) == old(sched)@.acquire_step(self.id),
    {
        sem_acquire(sched, self.id)
    }

    /// Give a unit back.
    pub fn release(&self, sched: &mut Scheduler) -> (r: Result<(), BadSem>)
        requires
            old(sched).wf(),
        ensures
            final(sched).wf(),
            r is Ok <==> old(sched)@.sem_exists(self.id),
            final(sched)@ == (if r is Ok {
                old(sched)@.release_unit(self.id)
            } else {
                old(sched)@
            }),
    {
        sem_release(sched, self.id)
    }

    /// The semaphore's number.
    pub fn id(&self) -> (id: usize)
        ensures
            id == self.id,
    {
        self.id
    }

    /// Delete the semaphore; nothing happens unless it is the team's own.
    pub fn delete(self, sched: &mut Scheduler)
        requires
            old(sched).wf(),
        ensures
            final(sched).wf(),
            final(sched)@ == (if old(sched)@.sem_exists(self.id) && old(
                sched,
            )@.sems[self.id as int].owner_team == old(sched)@.procs[old(sched)@.current].team {
                old(sched)@.delete_sem(self.id)
            } else {
                old(sched)@
            }),
    {
        let _ = sem_delete(sched, self.id);
    }
}

} // verus!
