//! What the process table and the scheduler are, and what each operation
//! does to them, with the linked lists read as sequences.
use vstd::prelude::*;

use crate::com;
use crate::com::slot_of;
use crate::ipc::Message;
use crate::memory::map::MemMap;
use crate::proc::lists::{front, without};
use crate::proc::rts;
use crate::proc::rts::flagged;

verus! {

pub const NR_SCHED_QUEUES: usize = 16;
pub const TASK_Q: u8 = 0;
pub const IDLE_Q: u8 = 15;

/// One slot per schedulable process, plus one for the bootstrap context,
/// which is abandoned once the first process runs.
pub const NR_PROCS: usize = 34;
pub const BOOTSTRAP: usize = 33;

/// How many semaphores exist system-wide.
pub const NR_SEMS: usize = 32;

/// How many ports exist system-wide.
pub const NR_PORTS: usize = 64;
/// Longest message a port takes.
pub const PORT_MAX_MESSAGE: usize = 4096;
/// Most messages one port may queue.
pub const PORT_MAX_CAPACITY: i32 = 4096;
/// Bytes all ports together may hold queued.
pub const PORT_QUEUE_BYTES: usize = 262144;
/// A port's name, terminating NUL counted.
pub const B_OS_NAME_LENGTH: usize = 32;
/// How many generations a port slot goes through before ids repeat.
pub const PORT_GENERATIONS: u32 = 33554431;

/// Where every program's heap starts.
pub const HEAP_BASE: u64 = 0x3800_0000_0000;
/// Largest a heap may grow: 16 MiB.
pub const HEAP_MAX: u64 = 16777216;

/// The status a process that was killed by a fault leaves behind.
pub const STATUS_KILLED: i32 = -1;

/// The entry point of a slot that has none.
pub const NEVER_SPAWNED: u64 = 0;

/// A process's own address space: the physical address of its top-level
/// page table, and the memory map that says which pages in it are the
/// process's own.
#[derive(Clone, Copy)]
pub struct AddressSpace {
    pub pml4: u64,
    pub map: MemMap,
}

/// A process-table entry.
#[derive(Clone, Copy)]
pub struct Proc {
    pub proc_nr: i32,
    pub name: &'static str,
    /// Bits of `rts`; the process is runnable iff this is zero.
    pub rts_flags: u16,
    pub priority: u8,
    pub max_priority: u8,
    pub ticks_left: i32,
    pub quantum_size: i32,
    /// Whether the clock counts this process's quantum down.
    pub preemptible: bool,
    /// Saved kernel stack pointer, while the process is not running.
    pub rsp: u64,
    /// Whom this process wants to receive from, while it is blocked.
    pub get_from: i32,
    /// Whom this process is sending to, while it is blocked.
    pub send_to: i32,
    /// The message a blocked sender offers, or the one a receiver was given.
    pub messbuf: Message,
    /// Address of the code this process starts in.
    pub entry: u64,
    /// Top-level page table of its own address space, if it has one.
    pub cr3: Option<u64>,
    pub mem_map: MemMap,
    /// The process that forked this one, or `com::NONE`.
    pub parent: i32,
    /// The status it terminated with, until somebody collects it.
    pub exit_status: Option<i32>,
    /// A terminated child's or thread's number and status, handed over while
    /// this process was blocked waiting for it.
    pub wait_result: Option<(i32, i32)>,
    /// The tick at which its alarm fires.
    pub alarm: Option<u64>,
    /// Number of its team's leader: itself, unless it is a thread.
    pub team: i32,
    /// What its team ended with, if that happened while this member was
    /// still inside a call.
    pub doomed: Option<(i32, bool)>,
    /// With `JOINING`: the thread waited for.
    pub join_target: i32,
    /// With `SEM_WAIT`: which semaphore, and the place in line.
    pub sem_wait: Option<(usize, u64)>,
    /// A unit of this semaphore was handed over and not taken yet.
    pub sem_granted: Option<usize>,
    /// The team's program break; only the leader's counts.
    pub brk: u64,
    /// With `PORT_WAIT`: the port slot waited on.
    pub port_wait: Option<usize>,
    /// The tick at which a timed wait gives up.
    pub wait_deadline: Option<u64>,
    pub timed_out: bool,
}

/// A counting semaphore, owned by the team that created it.
#[derive(Clone, Copy)]
pub struct Sem {
    pub in_use: bool,
    pub count: i32,
    pub owner_team: i32,
}

/// A port: a named, bounded queue of messages, each a code and bytes.
pub struct PortModel {
    pub name: Seq<u8>,
    pub capacity: i32,
    pub owner_team: i32,
    pub closed: bool,
    pub queue: Seq<(i32, Seq<u8>)>,
    pub total_read: i32,
}

/// The whole state. `queues[q]` lists the slots ready at priority `q` and
/// `callers[d]` those blocked sending to slot `d`, first in line first.
#[verifier::ext_equal]
pub struct SchedModel {
    pub procs: Seq<Proc>,
    pub queues: Seq<Seq<int>>,
    pub callers: Seq<Seq<int>>,
    pub current: int,
    /// The slot whose quantum was the last to run out.
    pub last_expired: Option<int>,
    pub ticks: u64,
    /// Page table and flags of the kernel's own address space.
    pub kernel_cr3: (u64, u64),
    /// How many processes each slot has held.
    pub generations: Seq<u32>,
    pub sems: Seq<Sem>,
    /// The next place in line at a semaphore.
    pub sem_seq: u64,
    pub ports: Seq<Option<PortModel>>,
    pub port_generations: Seq<u32>,
    /// A message that waits for room in a port, by the slot of its writer.
    pub pending: Seq<Option<(i32, Seq<u8>)>>,
}

/// The entry of a slot that holds no process.
pub open spec fn empty_proc() -> Proc {
    Proc {
        proc_nr: com::NONE,
        name: "",
        rts_flags: rts::SLOT_FREE,
        priority: IDLE_Q,
        max_priority: IDLE_Q,
        ticks_left: 0,
        quantum_size: 0,
        preemptible: false,
        rsp: 0,
        get_from: com::NONE,
        send_to: com::NONE,
        messbuf: Message::zero(),
        entry: NEVER_SPAWNED,
        cr3: None,
        mem_map: MemMap::none(),
        parent: com::NONE,
        exit_status: None,
        wait_result: None,
        alarm: None,
        team: com::NONE,
        doomed: None,
        join_target: com::NONE,
        sem_wait: None,
        sem_granted: None,
        brk: HEAP_BASE,
        port_wait: None,
        wait_deadline: None,
        timed_out: false,
    }
}

/// A free semaphore.
pub open spec fn free_sem() -> Sem {
    Sem { in_use: false, count: 0, owner_team: com::NONE }
}

/// The first slot at or after `i` for which `f` holds, among `n` slots.
pub open spec fn first_from(i: int, n: int, f: spec_fn(int) -> bool) -> Option<int>
    decreases n - i,
{
    if i >= n {
        None
    } else if f(i) {
        Some(i)
    } else {
        first_from(i + 1, n, f)
    }
}

/// How many of the slots below `n` have property `f`.
pub open spec fn count_below(n: int, f: spec_fn(int) -> bool) -> nat
    decreases n,
{
    if n <= 0 {
        0
    } else {
        count_below(n - 1, f) + (if f(n - 1) {
            1nat
        } else {
            0nat
        })
    }
}

/// Whether `proc_nr` has a place in the table.
pub open spec fn in_table(proc_nr: i32) -> bool {
    -com::NR_TASKS <= proc_nr && proc_nr + com::NR_TASKS < NR_PROCS
}

/// Bytes queued in one port.
pub open spec fn bytes_in(queue: Seq<(i32, Seq<u8>)>) -> nat
    decreases queue.len(),
{
    if queue.len() == 0 {
        0
    } else {
        bytes_in(queue.drop_last()) + queue.last().1.len()
    }
}

/// Bytes queued in one port slot.
pub open spec fn port_bytes(port: Option<PortModel>) -> nat {
    match port {
        Some(p) => bytes_in(p.queue),
        None => 0,
    }
}

/// Bytes queued in all ports together.
pub open spec fn total_bytes(ports: Seq<Option<PortModel>>) -> nat
    decreases ports.len(),
{
    if ports.len() == 0 {
        0
    } else {
        total_bytes(ports.drop_last()) + port_bytes(ports.last())
    }
}

/// The generation of a port slot after `g`.
pub open spec fn next_port_generation(g: u32) -> u32 {
    ((g + 1) % (PORT_GENERATIONS as int)) as u32
}

impl PortModel {
    /// The port with its first message read.
    pub open spec fn read_one(self) -> PortModel {
        PortModel {
            queue: self.queue.subrange(1, self.queue.len() as int),
            total_read: if self.total_read == i32::MAX {
                self.total_read
            } else {
                (self.total_read + 1) as i32
            },
            ..self
        }
    }
}

/// The entry of slot `i` when it joins a ready queue: one whose quantum is
/// used up gets a fresh one, and, unless it is a kernel task, a priority one
/// lower if it used up two in a row and one higher otherwise, between its
/// own best priority and the one above the idle queue.
pub open spec fn charged(p: Proc, i: int, again: bool) -> Proc {
    if p.ticks_left > 0 {
        p
    } else {
        let wanted = if again {
            p.priority + 1
        } else {
            p.priority - 1
        };
        let kept = if wanted < p.max_priority {
            p.max_priority as int
        } else {
            wanted
        };
        let priority = if kept > IDLE_Q - 1 {
            IDLE_Q - 1
        } else {
            kept
        };
        Proc {
            ticks_left: p.quantum_size,
            priority: if i >= com::NR_TASKS {
                priority as u8
            } else {
                p.priority
            },
            ..p
        }
    }
}

impl SchedModel {
    /// Who runs next: the head of the first non-empty queue.
    pub open spec fn next(self) -> Option<int> {
        front(self.queues)
    }

    pub open spec fn flags(self, i: int) -> u16 {
        self.procs[i].rts_flags
    }

    /// Replace the entry of slot `i`.
    pub open spec fn put(self, i: int, p: Proc) -> SchedModel {
        SchedModel { procs: self.procs.update(i, p), ..self }
    }

    pub open spec fn with_flags(self, i: int, f: u16) -> SchedModel {
        self.put(i, Proc { rts_flags: f, ..self.procs[i] })
    }

    /// The saved stack pointer of slot `i` is `v`.
    pub open spec fn with_rsp(self, i: int, v: u64) -> SchedModel {
        self.put(i, Proc { rsp: v, ..self.procs[i] })
    }

    /// Replace port slot `s`.
    pub open spec fn with_port(self, s: int, port: Option<PortModel>) -> SchedModel {
        SchedModel { ports: self.ports.update(s, port), ..self }
    }

    /// Replace the message of slot `i` that waits for room.
    pub open spec fn with_pending(self, i: int, message: Option<(i32, Seq<u8>)>) -> SchedModel {
        SchedModel { pending: self.pending.update(i, message), ..self }
    }

    /// Slot `i` joins its ready queue: at the front if its quantum is not
    /// used up, else at the back.
    pub open spec fn enqueue(self, i: int) -> SchedModel {
        let p = charged(self.procs[i], i, self.last_expired == Some(i));
        let q = p.priority as int;
        let front = self.procs[i].ticks_left > 0;
        SchedModel {
            procs: self.procs.update(i, p),
            last_expired: if front {
                self.last_expired
            } else {
                Some(i)
            },
            queues: self.queues.update(
                q,
                if front {
                    seq![i] + self.queues[q]
                } else {
                    self.queues[q].push(i)
                },
            ),
            ..self
        }
    }

    /// Slot `i` leaves its ready queue.
    pub open spec fn dequeue(self, i: int) -> SchedModel {
        let q = self.procs[i].priority as int;
        SchedModel { queues: self.queues.update(q, without(self.queues[q], i)), ..self }
    }

    /// Clear `bit` of slot `i`, which becomes ready if that was the last.
    pub open spec fn unblock(self, i: int, bit: u16) -> SchedModel {
        let m = self.with_flags(i, self.flags(i) & !bit);
        if m.flags(i) == 0 {
            m.enqueue(i)
        } else {
            m
        }
    }

    /// Slot `i` leaves its ready queue, if it was runnable.
    pub open spec fn pause(self, i: int) -> SchedModel {
        if self.flags(i) == 0 {
            self.dequeue(i)
        } else {
            self
        }
    }

    /// Set `bit` of slot `i`, which stops being ready.
    pub open spec fn block(self, i: int, bit: u16) -> SchedModel {
        self.pause(i).with_flags(i, self.flags(i) | bit)
    }

    /// Slot `i` holds `p` in place of what it held: nobody is in line to
    /// send to it, and no message of it waits.
    pub open spec fn refill(self, i: int, p: Proc) -> SchedModel {
        SchedModel {
            procs: self.procs.update(i, p),
            callers: self.callers.update(i, Seq::empty()),
            pending: self.pending.update(i, None),
            ..self
        }
    }

    /// Slot `i` holds no process any more.
    pub open spec fn free_slot(self, i: int) -> SchedModel {
        self.refill(i, empty_proc())
    }

    /// Whether slot `i` holds a member of `team`.
    pub open spec fn is_member(self, i: int, team: i32) -> bool {
        !flagged(self.flags(i), rts::SLOT_FREE) && self.flags(i) != rts::RESERVED && self.procs[i].team
            == team && team != com::NONE
    }

    /// Whether `team` has a member other than its leader.
    pub open spec fn has_other_members(self, team: i32) -> bool {
        exists|i: int|
            0 <= i < NR_PROCS && i != slot_of(team) && #[trigger] self.is_member(i, team)
    }

    /// Whether slot `i` has a call open that another process will answer.
    pub open spec fn must_linger(self, i: int) -> bool {
        let p = self.procs[i];
        ||| flagged(p.rts_flags, rts::SENDING)
        ||| flagged(p.rts_flags, rts::RECEIVING) && p.get_from != com::ANY && p.get_from != com::CLOCK
        ||| self.callers[i].len() > 0
    }

    /// Whether another slot runs in the address space `pml4`.
    pub open spec fn shares_space(self, i: int, pml4: u64) -> bool {
        exists|j: int|
            0 <= j < NR_PROCS && j != i && !flagged(#[trigger] self.flags(j), rts::SLOT_FREE)
                && self.procs[j].cr3 == Some(pml4)
    }

    /// Slot `i` without its address space.
    pub open spec fn detached(self, i: int) -> SchedModel {
        if self.procs[i].cr3 is Some {
            self.put(i, Proc { cr3: None, mem_map: MemMap::none(), ..self.procs[i] })
        } else {
            self
        }
    }

    /// The address space that slot `i` is the last to run in.
    pub open spec fn last_space(self, i: int) -> Option<u64> {
        match self.procs[i].cr3 {
            Some(pml4) => if self.detached(i).shares_space(i, pml4) {
                None
            } else {
                Some(pml4)
            },
            None => None,
        }
    }

    /// Of the first `n` slots, the one that waits longest for semaphore `id`.
    pub open spec fn longest_waiter(self, id: usize, n: int) -> Option<int>
        decreases n,
    {
        if n <= 0 {
            None
        } else {
            let best = self.longest_waiter(id, n - 1);
            match self.procs[n - 1].sem_wait {
                Some(w) => if w.0 == id && (best is None || w.1
                    < (self.procs[best->0].sem_wait->0).1) {
                    Some(n - 1)
                } else {
                    best
                },
                None => best,
            }
        }
    }

    /// One unit of semaphore `id` goes to the one that waits longest, or
    /// back to the count.
    pub open spec fn release_unit(self, id: usize) -> SchedModel {
        match self.longest_waiter(id, NR_PROCS as int) {
            Some(w) => self.put(
                w,
                Proc { sem_wait: None, sem_granted: Some(id), ..self.procs[w] },
            ).unblock(w, rts::SEM_WAIT),
            None => {
                let s = self.sems[id as int];
                let count = if s.count == i32::MAX {
                    s.count
                } else {
                    (s.count + 1) as i32
                };
                SchedModel { sems: self.sems.update(id as int, Sem { count, ..s }), ..self }
            },
        }
    }

    /// A unit that slot `i` was handed and will not take is released again.
    pub open spec fn forfeit_grant(self, i: int) -> SchedModel {
        match self.procs[i].sem_granted {
            Some(id) => {
                let m = self.put(i, Proc { sem_granted: None, ..self.procs[i] });
                if m.sems[id as int].in_use {
                    m.release_unit(id)
                } else {
                    m
                }
            },
            None => self,
        }
    }

    /// Whether a notification from `src` reaches slot `dst`.
    pub open spec fn hears(self, dst: int, src: i32) -> bool {
        let p = self.procs[dst];
        flagged(p.rts_flags, rts::RECEIVING) && !flagged(p.rts_flags, rts::SENDING) && (p.get_from
            == com::ANY || p.get_from == src)
    }

    /// Message `msg` reaches the blocked receiver in slot `dst`.
    pub open spec fn hand_over(self, dst: int, msg: Message) -> SchedModel {
        self.put(dst, Proc { messbuf: msg, ..self.procs[dst] }).unblock(dst, rts::RECEIVING)
    }

    /// A notification goes to slot `dst` if it is waiting for one, and is
    /// lost otherwise.
    pub open spec fn notify(self, dst: int, src: i32, m_type: i32) -> SchedModel {
        if self.hears(dst, src) {
            self.hand_over(dst, Message { source: src, m_type, args: [0, 0, 0, 0] })
        } else {
            self
        }
    }

    /// The thread of the team of `parent` that waits for a child.
    pub open spec fn child_waiter(self, parent: i32) -> Option<int> {
        let team = self.procs[slot_of(parent)].team;
        first_from(
            0,
            NR_PROCS as int,
            |i: int| self.is_member(i, team) && flagged(self.flags(i), rts::WAITING),
        )
    }

    /// Whether the number in a parent field names a slot in use.
    pub open spec fn parent_lives(self, parent: i32) -> bool {
        parent != com::NONE && !flagged(self.flags(slot_of(parent)), rts::SLOT_FREE)
    }

    /// What happens to slot `i`, off its queue and detached, and to the
    /// status it ended with: a parent that waits for it is handed the status
    /// and the slot is free; a parent that does not wait yet leaves it a
    /// zombie; without a parent it is free at once.
    pub open spec fn bury(self, i: int, status: i32) -> SchedModel {
        let p = self.procs[i];
        if !self.parent_lives(p.parent) {
            self.free_slot(i)
        } else {
            match self.child_waiter(p.parent) {
                Some(w) => self.put(
                    w,
                    Proc { wait_result: Some((p.proc_nr, status)), ..self.procs[w] },
                ).unblock(w, rts::WAITING).free_slot(i),
                None => self.put(
                    i,
                    Proc { exit_status: Some(status), rts_flags: p.rts_flags | rts::ZOMBIE, ..p },
                ),
            }
        }
    }

    /// Slot `i` off its queue and marked dead if it crashed.
    pub open spec fn stopped(self, i: int, crashed: bool) -> SchedModel {
        let m = self.pause(i);
        if crashed {
            m.with_flags(i, m.flags(i) | rts::DEAD)
        } else {
            m
        }
    }

    /// Slot `i` stops existing with `status`.
    pub open spec fn terminate(self, i: int, status: i32, crashed: bool) -> SchedModel {
        self.stopped(i, crashed).detached(i).bury(i, status)
    }

    /// Slot `i` out of any semaphore's line, without a unit it was handed.
    pub open spec fn out_of_line(self, i: int) -> SchedModel {
        let m = self.forfeit_grant(i);
        m.put(
            i,
            Proc { sem_wait: None, rts_flags: m.flags(i) & !rts::SEM_WAIT, ..m.procs[i] },
        )
    }

    /// A team's leader ends: parked while other members are still finishing
    /// calls, else terminated, and the service manager is told of a crash.
    pub open spec fn finish_leader(self, i: int, status: i32, crashed: bool) -> SchedModel {
        let team = self.procs[i].proc_nr;
        let m = self.out_of_line(i);
        if m.has_other_members(team) {
            let n = m.block(i, rts::DRAINING);
            n.put(i, Proc { doomed: Some((status, crashed)), ..n.procs[i] })
        } else {
            let n = m.terminate(i, status, crashed);
            if crashed {
                n.notify(slot_of(com::RS_PROC_NR), com::KERNEL, com::died_type(team))
            } else {
                n
            }
        }
    }

    /// The address space that is free once the leader in slot `i` has ended.
    pub open spec fn leader_space(self, i: int, crashed: bool) -> Option<u64> {
        let m = self.out_of_line(i);
        if m.has_other_members(self.procs[i].proc_nr) {
            None
        } else {
            m.stopped(i, crashed).last_space(i)
        }
    }

    /// Slot `i` is removed outright: no status, nothing to collect.
    pub open spec fn discard(self, i: int) -> SchedModel {
        self.pause(i).detached(i).free_slot(i)
    }

    /// Whether the leader of `team` waits for the last other member to go.
    pub open spec fn drained(self, team: i32) -> bool {
        self.is_member(slot_of(team), team) && flagged(self.flags(slot_of(team)), rts::DRAINING)
            && !self.has_other_members(team)
    }

    /// The leader of `team`, no longer parked.
    pub open spec fn resume_leader(self, team: i32) -> SchedModel {
        let l = slot_of(team);
        self.put(
            l,
            Proc { doomed: None, rts_flags: self.flags(l) & !rts::DRAINING, ..self.procs[l] },
        )
    }

    /// What the leader in slot `l` was told to end with.
    pub open spec fn verdict(self, l: int) -> (i32, bool) {
        match self.procs[l].doomed {
            Some(v) => v,
            None => (STATUS_KILLED, true),
        }
    }

    /// A member other than the leader ends; if its leader was only waiting
    /// for it, the leader ends too.
    pub open spec fn finish_thread(self, i: int) -> SchedModel {
        let team = self.procs[i].team;
        let m = self.forfeit_grant(i).discard(i);
        if m.drained(team) {
            let l = slot_of(team);
            m.resume_leader(team).finish_leader(l, m.verdict(l).0, m.verdict(l).1)
        } else {
            m
        }
    }

    /// The address space that is free once the member in slot `i` has ended.
    pub open spec fn thread_space(self, i: int) -> Option<u64> {
        let team = self.procs[i].team;
        let own = self.forfeit_grant(i).pause(i).last_space(i);
        let m = self.forfeit_grant(i).discard(i);
        if m.drained(team) {
            let l = slot_of(team);
            let space = m.resume_leader(team).leader_space(l, m.verdict(l).1);
            if space is Some {
                space
            } else {
                own
            }
        } else {
            own
        }
    }

    /// What the end of `team` means for slot `i`, a member other than the
    /// leader: nothing if it is already doomed, a mark if it has a call open,
    /// else its end.
    pub open spec fn end_member(self, i: int, team: i32, status: i32, crashed: bool) -> SchedModel {
        if i == slot_of(team) || !self.is_member(i, team) || self.procs[i].doomed is Some {
            self
        } else if self.must_linger(i) {
            self.put(i, Proc { doomed: Some((status, crashed)), ..self.procs[i] })
        } else {
            self.finish_thread(i)
        }
    }

    /// The address space that is free once `end_member` is done.
    pub open spec fn member_space(self, i: int, team: i32) -> Option<u64> {
        if i == slot_of(team) || !self.is_member(i, team) || self.procs[i].doomed is Some
            || self.must_linger(i) {
            None
        } else {
            self.thread_space(i)
        }
    }

    /// `end_member` for every slot below `n`, in order.
    pub open spec fn end_members(self, n: int, team: i32, status: i32, crashed: bool) -> SchedModel
        decreases n,
    {
        if n <= 0 {
            self
        } else {
            self.end_members(n - 1, team, status, crashed).end_member(n - 1, team, status, crashed)
        }
    }

    /// The last address space that `end_members` frees.
    pub open spec fn members_space(
        self,
        n: int,
        team: i32,
        status: i32,
        crashed: bool,
    ) -> Option<u64>
        decreases n,
    {
        if n <= 0 {
            None
        } else {
            let m = self.end_members(n - 1, team, status, crashed);
            let space = m.member_space(n - 1, team);
            if space is Some {
                space
            } else {
                self.members_space(n - 1, team, status, crashed)
            }
        }
    }

    /// Semaphore `id` no longer holds slot `i` up.
    pub open spec fn let_go(self, id: usize, i: int) -> SchedModel {
        match self.procs[i].sem_wait {
            Some(w) => if w.0 == id {
                self.put(i, Proc { sem_wait: None, ..self.procs[i] }).unblock(i, rts::SEM_WAIT)
            } else {
                self
            },
            None => self,
        }
    }

    /// `let_go` for every slot below `n`, in order.
    pub open spec fn let_all_go(self, id: usize, n: int) -> SchedModel
        decreases n,
    {
        if n <= 0 {
            self
        } else {
            self.let_all_go(id, n - 1).let_go(id, n - 1)
        }
    }

    /// Semaphore `id` is gone, and everyone in its line is awake.
    pub open spec fn delete_sem(self, id: usize) -> SchedModel {
        let m = self.let_all_go(id, NR_PROCS as int);
        SchedModel { sems: m.sems.update(id as int, free_sem()), ..m }
    }

    /// The semaphores of `team` among the first `n` are deleted.
    pub open spec fn delete_team_sems(self, team: i32, n: int) -> SchedModel
        decreases n,
    {
        if n <= 0 {
            self
        } else {
            let m = self.delete_team_sems(team, n - 1);
            if m.sems[n - 1].in_use && m.sems[n - 1].owner_team == team {
                m.delete_sem((n - 1) as usize)
            } else {
                m
            }
        }
    }

    /// Slot `i` ends its wait for a port.
    pub open spec fn stop_port_wait(self, i: int) -> SchedModel {
        self.put(i, Proc { port_wait: None, wait_deadline: None, ..self.procs[i] }).unblock(
            i,
            rts::PORT_WAIT,
        )
    }

    /// Of the first `n` slots, those that wait on port slot `port` look again.
    pub open spec fn wake_port_waiters(self, port: usize, n: int) -> SchedModel
        decreases n,
    {
        if n <= 0 {
            self
        } else {
            let m = self.wake_port_waiters(port, n - 1);
            if m.procs[n - 1].port_wait == Some(port) {
                m.stop_port_wait(n - 1)
            } else {
                m
            }
        }
    }

    /// Of the first `n` slots, those that wait on any port look again.
    pub open spec fn wake_all_port_waiters(self, n: int) -> SchedModel
        decreases n,
    {
        if n <= 0 {
            self
        } else {
            let m = self.wake_all_port_waiters(n - 1);
            if flagged(m.flags(n - 1), rts::PORT_WAIT) {
                m.stop_port_wait(n - 1)
            } else {
                m
            }
        }
    }

    /// Port slot `port` is empty, and everyone who waits on a port looks
    /// again: at a port that is gone, or at the room it left.
    pub open spec fn delete_port_slot(self, port: int) -> SchedModel {
        self.with_port(port, None).wake_all_port_waiters(NR_PROCS as int)
    }

    /// The ports of `team` among the first `n` are deleted.
    pub open spec fn delete_team_ports(self, team: i32, n: int) -> SchedModel
        decreases n,
    {
        if n <= 0 {
            self
        } else {
            let m = self.delete_team_ports(team, n - 1);
            if m.ports[n - 1] is Some && (m.ports[n - 1]->0).owner_team == team {
                m.delete_port_slot(n - 1)
            } else {
                m
            }
        }
    }

    /// Every member of `team` but the leader has ended or is doomed, and its
    /// semaphores and ports are gone.
    pub open spec fn end_followers(self, team: i32, status: i32, crashed: bool) -> SchedModel {
        self.end_members(NR_PROCS as int, team, status, crashed).delete_team_sems(
            team,
            NR_SEMS as int,
        ).delete_team_ports(team, NR_PORTS as int)
    }

    /// Every member of `team` ends, the leader last; one with a call open is
    /// doomed instead and ends when that call returns.
    pub open spec fn end_team(self, team: i32, status: i32, crashed: bool) -> SchedModel {
        let m = self.end_followers(team, status, crashed);
        let l = slot_of(team);
        if !m.is_member(l, team) || m.procs[l].doomed is Some {
            m
        } else if m.must_linger(l) {
            m.put(l, Proc { doomed: Some((status, crashed)), ..m.procs[l] })
        } else {
            m.finish_leader(l, status, crashed)
        }
    }

    /// The address space that nothing runs in once `team` has ended.
    pub open spec fn team_space(self, team: i32, status: i32, crashed: bool) -> Option<u64> {
        let m = self.end_followers(team, status, crashed);
        let l = slot_of(team);
        let space = if !m.is_member(l, team) || m.procs[l].doomed is Some || m.must_linger(l) {
            None
        } else {
            m.leader_space(l, crashed)
        };
        if space is Some {
            space
        } else {
            self.members_space(NR_PROCS as int, team, status, crashed)
        }
    }
}

} // verus!
