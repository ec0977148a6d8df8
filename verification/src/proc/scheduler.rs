//! The scheduler's state and the basic steps that change it.
use vstd::prelude::*;

use std::collections::VecDeque;

use crate::com;
use crate::ipc::Message;
use crate::memory::map::MemMap;
use crate::proc::lists::{as_int, distinct, front, front_from, listed, without, Lists};
use crate::proc::model::{
    bytes_in, charged, empty_proc, free_sem, next_port_generation, total_bytes, PortModel, Proc, SchedModel, Sem,
    B_OS_NAME_LENGTH, BOOTSTRAP, HEAP_BASE, IDLE_Q, NEVER_SPAWNED, NR_PORTS, NR_PROCS,
    NR_SCHED_QUEUES, NR_SEMS, PORT_GENERATIONS,
};
use crate::proc::rts;
use crate::proc::rts::flagged;
use crate::proc::soundness::{
    block_sound, change_unblock_sound, dequeue_sound, empty_ok, enqueue_sound,
    free_slot_sound, refill_sound, pause_sound, put_same_sound, sound, sound_but, total_bytes_update,
};

verus! {

/// A port: a named, bounded queue of messages, each a code and bytes.
pub struct Port {
    pub(crate) name: [u8; B_OS_NAME_LENGTH],
    pub(crate) capacity: i32,
    pub(crate) owner_team: i32,
    pub(crate) closed: bool,
    pub(crate) queue: VecDeque<(i32, Vec<u8>)>,
    pub(crate) total_read: i32,
}

/// A message with its bytes read as a sequence.
pub open spec fn message_view(m: (i32, Vec<u8>)) -> (i32, Seq<u8>) {
    (m.0, m.1@)
}

impl View for Port {
    type V = PortModel;

    closed spec fn view(&self) -> PortModel {
        PortModel {
            name: self.name@,
            capacity: self.capacity,
            owner_team: self.owner_team,
            closed: self.closed,
            queue: self.queue@.map_values(|m: (i32, Vec<u8>)| message_view(m)),
            total_read: self.total_read,
        }
    }
}

impl Port {
    /// An empty port.
    pub(crate) fn new(name: [u8; B_OS_NAME_LENGTH], capacity: i32, owner_team: i32) -> (p: Port)
        ensures
            p@ == (PortModel {
                name: name@,
                capacity,
                owner_team,
                closed: false,
                queue: Seq::empty(),
                total_read: 0,
            }),
    {
        let p = Port {
            name,
            capacity,
            owner_team,
            closed: false,
            queue: VecDeque::new(),
            total_read: 0,
        };
        assert(p@.queue =~= Seq::<(i32, Seq<u8>)>::empty());
        p
    }
}

/// A port slot.
pub open spec fn port_view(p: Option<Port>) -> Option<PortModel> {
    match p {
        Some(p) => Some(p@),
        None => None,
    }
}

/// A message that waits for room.
pub open spec fn pending_view(m: Option<(i32, Vec<u8>)>) -> Option<(i32, Seq<u8>)> {
    match m {
        Some(m) => Some(message_view(m)),
        None => None,
    }
}

/// The process table, the ready queues and everything processes block on.
pub struct Scheduler {
    pub(crate) procs: Vec<Proc>,
    pub(crate) ready: Lists,
    pub(crate) callers: Lists,
    pub(crate) current: usize,
    pub(crate) next_ptr: Option<usize>,
    pub(crate) last_expired: Option<usize>,
    pub(crate) ticks: u64,
    pub(crate) kernel_cr3: (u64, u64),
    pub(crate) generations: Vec<u32>,
    pub(crate) sems: Vec<Sem>,
    pub(crate) sem_seq: u64,
    pub(crate) ports: Vec<Option<Port>>,
    pub(crate) port_generations: Vec<u32>,
    pub(crate) port_bytes: usize,
    pub(crate) pending: Vec<Option<(i32, Vec<u8>)>>,
}

impl View for Scheduler {
    type V = SchedModel;

    closed spec fn view(&self) -> SchedModel {
        SchedModel {
            procs: self.procs@,
            queues: self.ready@,
            callers: self.callers@,
            current: self.current as int,
            last_expired: as_int(self.last_expired),
            ticks: self.ticks,
            kernel_cr3: self.kernel_cr3,
            generations: self.generations@,
            sems: self.sems@,
            sem_seq: self.sem_seq,
            ports: self.ports@.map_values(|p: Option<Port>| port_view(p)),
            port_generations: self.port_generations@,
            pending: self.pending@.map_values(|m: Option<(i32, Vec<u8>)>| pending_view(m)),
        }
    }
}

impl Proc {
    /// The entry of a slot that holds no process.
    pub(crate) fn empty() -> (p: Proc)
        ensures
            p == empty_proc(),
    {
        Proc {
            proc_nr: com::NONE,
            name: "",
            rts_flags: rts::SLOT_FREE,
            priority: IDLE_Q,
            max_priority: IDLE_Q,
            ticks_left: 0,
            quantum_size: 0,
            preemptible: false,
            rsp: 0,
            get_from: com::NONE,
            send_to: com::NONE,
            messbuf: Message::empty(),
            entry: NEVER_SPAWNED,
            cr3: None,
            mem_map: MemMap::empty(),
            parent: com::NONE,
            exit_status: None,
            wait_result: None,
            alarm: None,
            team: com::NONE,
            doomed: None,
            join_target: com::NONE,
            sem_wait: None,
            sem_granted: None,
            brk: HEAP_BASE,
            port_wait: None,
            wait_deadline: None,
            timed_out: false,
        }
    }

    /// Whether the process can run.
    pub fn is_ready(&self) -> (r: bool)
        ensures
            r == (self.rts_flags == 0),
    {
        self.rts_flags == 0
    }
}

/// The state before anything was spawned: empty tables, the bootstrap
/// context running.
pub open spec fn boot_model(kernel_cr3: (u64, u64)) -> SchedModel {
    SchedModel {
        procs: Seq::new(NR_PROCS as nat, |i: int| empty_proc()),
        queues: Seq::new(NR_SCHED_QUEUES as nat, |l: int| Seq::<int>::empty()),
        callers: Seq::new(NR_PROCS as nat, |l: int| Seq::<int>::empty()),
        current: BOOTSTRAP as int,
        last_expired: None,
        ticks: 0,
        kernel_cr3,
        generations: Seq::new(NR_PROCS as nat, |i: int| 0u32),
        sems: Seq::new(NR_SEMS as nat, |i: int| free_sem()),
        sem_seq: 0,
        ports: Seq::new(NR_PORTS as nat, |i: int| None::<PortModel>),
        port_generations: Seq::new(NR_PORTS as nat, |i: int| 0u32),
        pending: Seq::new(NR_PROCS as nat, |i: int| None::<(i32, Seq<u8>)>),
    }
}

proof fn no_ports_no_bytes(ports: Seq<Option<PortModel>>)
    requires
        forall|s: int| 0 <= s < ports.len() ==> (#[trigger] ports[s]) is None,
    ensures
        total_bytes(ports) == 0,
    decreases ports.len(),
{
    if ports.len() > 0 {
        assert(ports[ports.len() - 1] is None);
        no_ports_no_bytes(ports.drop_last());
    }
}

/// The first entry of all lists stays the first when another one goes.
proof fn front_stays(lists: Seq<Seq<int>>, l: int, x: int, from: int)
    requires
        0 <= l < lists.len(),
        0 <= from,
        front_from(lists, from) != Some(x),
        distinct(lists),
    ensures
        front_from(lists.update(l, without(lists[l], x)), from) == front_from(lists, from),
    decreases lists.len() - from,
{
    let now = lists.update(l, without(lists[l], x));
    if from < lists.len() {
        if from == l {
            let list = lists[l];
            if list.contains(x) {
                let at = list.index_of(x);
                assert(list[at] == x);
                assert(at != 0);
                assert(now[l][0] == list[0]);
            }
        }
        if lists[from].len() == 0 {
            assert(!lists[from].contains(x));
            front_stays(lists, l, x, from + 1);
        }
    }
}

impl Scheduler {
    /// The links and counters agree with what the tables hold.
    pub closed spec fn linked(&self) -> bool {
        &&& self.ready.wf()
        &&& self.callers.wf()
        &&& self.ready.nodes() == NR_PROCS
        &&& self.callers.nodes() == NR_PROCS
        &&& as_int(self.next_ptr) == front(self.ready@)
        &&& self.port_bytes == total_bytes(self@.ports)
    }

    /// What holds of a scheduler between any two operations.
    pub open spec fn wf(&self) -> bool {
        self.linked() && sound(self@)
    }

    /// The state before anything was spawned. `kernel_cr3` is the page table
    /// and the flags of the kernel's own address space.
    pub fn new(kernel_cr3: (u64, u64)) -> (s: Scheduler)
        ensures
            s.wf(),
            s@ == boot_model(kernel_cr3),
    {
        let mut procs: Vec<Proc> = Vec::new();
        let mut generations: Vec<u32> = Vec::new();
        let mut pending: Vec<Option<(i32, Vec<u8>)>> = Vec::new();
        let mut i: usize = 0;
        while i < NR_PROCS
            invariant
                i <= NR_PROCS,
                procs@.len() == i,
                generations@.len() == i,
                pending@.len() == i,
                forall|k: int| 0 <= k < i ==> procs@[k] == empty_proc(),
                forall|k: int| 0 <= k < i ==> generations@[k] == 0,
                forall|k: int| 0 <= k < i ==> pending@[k] is None,
            decreases NR_PROCS - i,
        {
            procs.push(Proc::empty());
            generations.push(0);
            pending.push(None);
            i = i + 1;
        }
        let mut sems: Vec<Sem> = Vec::new();
        let mut k: usize = 0;
        while k < NR_SEMS
            invariant
                k <= NR_SEMS,
                sems@.len() == k,
                forall|j: int| 0 <= j < k ==> sems@[j] == free_sem(),
            decreases NR_SEMS - k,
        {
            sems.push(Sem { in_use: false, count: 0, owner_team: com::NONE });
            k = k + 1;
        }
        let mut ports: Vec<Option<Port>> = Vec::new();
        let mut port_generations: Vec<u32> = Vec::new();
        let mut p: usize = 0;
        while p < NR_PORTS
            invariant
                p <= NR_PORTS,
                ports@.len() == p,
                port_generations@.len() == p,
                forall|j: int| 0 <= j < p ==> ports@[j] is None,
                forall|j: int| 0 <= j < p ==> port_generations@[j] == 0,
            decreases NR_PORTS - p,
        {
            ports.push(None);
            port_generations.push(0);
            p = p + 1;
        }
        let s = Scheduler {
            procs,
            ready: Lists::new(NR_SCHED_QUEUES, NR_PROCS),
            callers: Lists::new(NR_PROCS, NR_PROCS),
            current: BOOTSTRAP,
            next_ptr: None,
            last_expired: None,
            ticks: 0,
            kernel_cr3,
            generations,
            sems,
            sem_seq: 0,
            ports,
            port_generations,
            port_bytes: 0,
            pending,
        };
        proof {
            let m = s@;
            assert(m =~= boot_model(kernel_cr3));
            no_ports_no_bytes(m.ports);
            reveal_with_fuel(front_from, 17);
            assert forall|j: int| 0 <= j < NR_PROCS implies crate::proc::soundness::slot_ok(
                #[trigger] m.procs[j],
                j,
                m.sem_seq,
            ) by {
                empty_ok(j, m.sem_seq);
            }
            assert forall|j: int| 0 <= j < NR_PROCS implies #[trigger] crate::proc::soundness::led(
                m.procs,
                j,
            ) by {
                assert(m.procs[j] == empty_proc());
            }
        }
        s
    }

    /// Replace the entry of slot `i`.
    pub(crate) fn put(&mut self, i: usize, p: Proc)
        requires
            i < old(self)@.procs.len(),
        ensures
            old(self).linked() ==> final(self).linked(),
            final(self)@ == old(self)@.put(i as int, p),
    {
        self.procs[i] = p;
    }

    /// Set the flags of slot `i`.
    pub(crate) fn set_flags(&mut self, i: usize, f: u16)
        requires
            i < old(self)@.procs.len(),
        ensures
            old(self).linked() ==> final(self).linked(),
            final(self)@ == old(self)@.with_flags(i as int, f),
    {
        let mut p = self.procs[i];
        p.rts_flags = f;
        self.put(i, p);
    }

    /// The entry of slot `i`.
    pub fn at(&self, i: usize) -> (p: Proc)
        requires
            i < self@.procs.len(),
        ensures
            p == self@.procs[i as int],
    {
        self.procs[i]
    }

    /// Decide which queue a process that becomes ready belongs in, and
    /// whether at the front, because its quantum is not used up.
    fn sched(&mut self, idx: usize) -> (r: (u8, bool))
        requires
            idx < old(self)@.procs.len(),
            old(self)@.procs[idx as int].priority < NR_SCHED_QUEUES,
            old(self)@.procs[idx as int].max_priority < NR_SCHED_QUEUES,
        ensures
            old(self).linked() ==> final(self).linked(),
            r.1 == (old(self)@.procs[idx as int].ticks_left > 0),
            ({
                let p = charged(
                    old(self)@.procs[idx as int],
                    idx as int,
                    old(self)@.last_expired == Some(idx as int),
                );
                &&& r.0 == p.priority
                &&& final(self)@ == SchedModel {
                    procs: old(self)@.procs.update(idx as int, p),
                    last_expired: if r.1 {
                        old(self)@.last_expired
                    } else {
                        Some(idx as int)
                    },
                    ..old(self)@
                }
            }),
    {
        let mut p = self.procs[idx];
        let time_left: bool = p.ticks_left > 0;
        let ghost before = self@;
        if !time_left {
            p.ticks_left = p.quantum_size;
            let again: bool = match self.last_expired {
                Some(last) => last == idx,
                None => false,
            };
            self.last_expired = Some(idx);
            if idx >= com::NR_TASKS {
                let wanted: i8 = if again {
                    p.priority as i8 + 1
                } else {
                    p.priority as i8 - 1
                };
                let kept: i8 = if wanted < p.max_priority as i8 {
                    p.max_priority as i8
                } else {
                    wanted
                };
                p.priority = if kept > IDLE_Q as i8 - 1 {
                    IDLE_Q - 1
                } else {
                    kept as u8
                };
            }
        }
        self.procs[idx] = p;
        assert(self@.procs =~= before.procs.update(idx as int, p));
        (p.priority, time_left)
    }

    /// Choose who runs next: the head of the first non-empty queue.
    fn pick_proc(&mut self)
        requires
            old(self).ready.wf(),
            old(self).ready.nodes() == NR_PROCS,
            old(self).callers.wf(),
            old(self).callers.nodes() == NR_PROCS,
            old(self).port_bytes == total_bytes(old(self)@.ports),
        ensures
            final(self).linked(),
            final(self)@ == old(self)@,
    {
        self.next_ptr = self.ready.pick();
    }

    /// Add `idx` to its ready queue, then choose anew who runs next.
    pub(crate) fn enqueue(&mut self, idx: usize, Ghost(xs): Ghost<Set<int>>)
        requires
            old(self).linked(),
            sound_but(old(self)@, xs),
            idx < NR_PROCS,
            old(self)@.flags(idx as int) == 0,
            !listed(old(self)@.queues, idx as int),
        ensures
            final(self).linked(),
            final(self)@ == old(self)@.enqueue(idx as int),
            sound_but(final(self)@, xs.remove(idx as int)),
    {
        proof {
            enqueue_sound(self@, xs, idx as int);
            crate::proc::soundness::charged_ok(
                self@.procs[idx as int],
                idx as int,
                self@.last_expired == Some(idx as int),
                self@.sem_seq,
            );
        }
        let (queue, front) = self.sched(idx);
        let q: usize = queue as usize;
        if front {
            self.ready.push_front(q, idx);
        } else {
            self.ready.push_back(q, idx);
        }
        self.pick_proc();
    }

    /// Take `idx` out of its ready queue; if it was running or next, choose
    /// anew who runs next.
    pub(crate) fn dequeue(&mut self, idx: usize, Ghost(xs): Ghost<Set<int>>)
        requires
            old(self).linked(),
            sound_but(old(self)@, xs),
            idx < NR_PROCS,
        ensures
            final(self).linked(),
            final(self)@ == old(self)@.dequeue(idx as int),
            sound_but(final(self)@, xs.insert(idx as int)),
            !listed(final(self)@.queues, idx as int),
    {
        proof {
            dequeue_sound(self@, xs, idx as int);
        }
        let q: usize = self.procs[idx].priority as usize;
        self.ready.remove(q, idx);
        let was_next: bool = match self.next_ptr {
            Some(n) => n == idx,
            None => false,
        };
        if self.current == idx || was_next {
            self.pick_proc();
        } else {
            proof {
                front_stays(old(self)@.queues, q as int, idx as int, 0);
            }
        }
    }

    /// Take `idx` out of its ready queue, if it is runnable.
    pub(crate) fn pause(&mut self, idx: usize, Ghost(xs): Ghost<Set<int>>)
        requires
            old(self).linked(),
            sound_but(old(self)@, xs),
            idx < NR_PROCS,
        ensures
            final(self).linked(),
            final(self)@ == old(self)@.pause(idx as int),
            sound_but(final(self)@, xs.insert(idx as int)),
            !listed(final(self)@.queues, idx as int),
    {
        proof {
            pause_sound(self@, xs, idx as int);
        }
        if self.procs[idx].rts_flags == 0 {
            self.dequeue(idx, Ghost(xs));
        }
    }

    /// Set `bit` of slot `idx`, which stops being ready.
    pub(crate) fn block(&mut self, idx: usize, bit: u16, Ghost(xs): Ghost<Set<int>>)
        requires
            old(self).linked(),
            sound_but(old(self)@, xs),
            idx < NR_PROCS,
            rts::is_bit(bit),
            bit != rts::ZOMBIE,
            crate::proc::soundness::slot_ok(
                (Proc {
                    rts_flags: old(self)@.flags(idx as int) | bit,
                    ..old(self)@.procs[idx as int]
                }),
                idx as int,
                old(self)@.sem_seq,
            ),
        ensures
            final(self).linked(),
            final(self)@ == old(self)@.block(idx as int, bit),
            sound_but(final(self)@, xs),
            final(self)@.flags(idx as int) == old(self)@.flags(idx as int) | bit,
            final(self)@.flags(idx as int) != 0,
            !listed(final(self)@.queues, idx as int),
    {
        proof {
            block_sound(self@, xs, idx as int, bit);
        }
        self.pause(idx, Ghost(xs));
        let f: u16 = self.procs[idx].rts_flags;
        self.set_flags(idx, f | bit);
    }

    /// Give slot `idx` the entry `p` and clear `bit`, which makes it ready if
    /// that was the last.
    pub(crate) fn unblock_with(&mut self, idx: usize, p: Proc, bit: u16, Ghost(xs): Ghost<Set<int>>)
        requires
            old(self).linked(),
            sound_but(old(self)@, xs),
            idx < NR_PROCS,
            rts::is_bit(bit),
            p.rts_flags == old(self)@.flags(idx as int),
            p.team == old(self)@.procs[idx as int].team,
            p.send_to == old(self)@.procs[idx as int].send_to,
            p.sem_wait is Some ==> p.sem_wait == old(self)@.procs[idx as int].sem_wait,
            bit == rts::SENDING ==> !listed(old(self)@.callers, idx as int),
            flagged(p.rts_flags, bit),
            crate::proc::soundness::slot_ok(
                (Proc { rts_flags: p.rts_flags & !bit, ..p }),
                idx as int,
                old(self)@.sem_seq,
            ),
        ensures
            final(self).linked(),
            final(self)@ == old(self)@.put(idx as int, p).unblock(idx as int, bit),
            sound_but(final(self)@, xs),
            final(self)@.flags(idx as int) == p.rts_flags & !bit,
    {
        proof {
            change_unblock_sound(self@, xs, idx as int, p, bit);
        }
        let mut p2 = p;
        p2.rts_flags = p.rts_flags & !bit;
        let ghost before = self@;
        self.put(idx, p2);
        assert(before.procs.update(idx as int, p).update(idx as int, p2) =~= before.procs.update(
            idx as int,
            p2,
        ));
        if p2.rts_flags == 0 {
            self.enqueue(idx, Ghost(xs.insert(idx as int)));
        }
    }

    /// Put `p` into slot `idx` in place of what is there.
    pub(crate) fn refill(&mut self, idx: usize, p: Proc, Ghost(xs): Ghost<Set<int>>)
        requires
            old(self).linked(),
            sound_but(old(self)@, xs),
            xs.contains(idx as int),
            idx < NR_PROCS,
            !listed(old(self)@.queues, idx as int),
            !listed(old(self)@.callers, idx as int),
            crate::proc::soundness::slot_ok(p, idx as int, old(self)@.sem_seq),
            p.sem_wait is None,
            crate::proc::soundness::fits_team(old(self)@, idx as int, p.team),
            !flagged(p.rts_flags, rts::ZOMBIE),
        ensures
            final(self).linked(),
            final(self)@ == old(self)@.refill(idx as int, p),
            sound_but(final(self)@, xs),
    {
        proof {
            refill_sound(self@, xs, idx as int, p);
        }
        let ghost before = self@;
        self.procs[idx] = p;
        self.callers.clear(idx);
        self.pending[idx] = None;
        assert(self@.pending =~= before.pending.update(idx as int, None));
    }

    /// Hand slot `idx` back: it holds no process.
    pub(crate) fn free_slot(&mut self, idx: usize, Ghost(xs): Ghost<Set<int>>)
        requires
            old(self).linked(),
            sound_but(old(self)@, xs.insert(idx as int)),
            idx < NR_PROCS,
            !listed(old(self)@.queues, idx as int),
            !listed(old(self)@.callers, idx as int),
            crate::proc::soundness::alone(old(self)@, idx as int),
        ensures
            final(self).linked(),
            final(self)@ == old(self)@.free_slot(idx as int),
            sound_but(final(self)@, xs),
    {
        proof {
            free_slot_sound(self@, xs, idx as int);
            empty_ok(idx as int, self@.sem_seq);
            rts::only(rts::SLOT_FREE);
        }
        self.refill(idx, Proc::empty(), Ghost(xs.insert(idx as int)));
    }

    /// The slot of the running process.
    pub(crate) fn current_slot(&self) -> (r: usize)
        requires
            sound(self@),
        ensures
            r == self@.current,
            r < NR_PROCS,
    {
        self.current
    }

    /// Semaphore `id`.
    pub(crate) fn sem_at(&self, id: usize) -> (s: Sem)
        requires
            id < self@.sems.len(),
        ensures
            s == self@.sems[id as int],
    {
        self.sems[id]
    }

    /// Replace semaphore `id`.
    pub(crate) fn set_sem(&mut self, id: usize, s: Sem)
        requires
            id < old(self)@.sems.len(),
        ensures
            old(self).linked() ==> final(self).linked(),
            final(self)@ == (SchedModel {
                sems: old(self)@.sems.update(id as int, s),
                ..old(self)@
            }),
    {
        self.sems[id] = s;
    }

    /// Whether somebody is in line to send to slot `i`.
    pub(crate) fn has_callers(&self, i: usize) -> (r: bool)
        requires
            self.linked(),
            i < self@.callers.len(),
        ensures
            r == (self@.callers[i as int].len() > 0),
    {
        self.callers.first(i).is_some()
    }

    /// Put slot `c` at the end of the line of senders to slot `d`.
    pub(crate) fn line_up(&mut self, d: usize, c: usize)
        requires
            old(self).linked(),
            d < old(self)@.callers.len(),
            c < NR_PROCS,
            !listed(old(self)@.callers, c as int),
        ensures
            final(self).linked(),
            final(self)@ == (SchedModel {
                callers: old(self)@.callers.update(
                    d as int,
                    old(self)@.callers[d as int].push(c as int),
                ),
                ..old(self)@
            }),
    {
        self.callers.push_back(d, c);
    }

    /// Take slot `c`, number `k` in the line of senders to slot `d`, out.
    pub(crate) fn leave_line(&mut self, d: usize, c: usize, Ghost(k): Ghost<int>)
        requires
            old(self).linked(),
            d < old(self)@.callers.len(),
            0 <= k < old(self)@.callers[d as int].len(),
            old(self)@.callers[d as int][k] == c,
        ensures
            final(self).linked(),
            final(self)@ == (SchedModel {
                callers: old(self)@.callers.update(
                    d as int,
                    old(self)@.callers[d as int].remove(k),
                ),
                ..old(self)@
            }),
    {
        proof {
            self.callers.entries_are_nodes();
            let line = self.callers@[d as int];
            assert(line.contains(c as int));
            let at = line.index_of(c as int);
            assert(self.callers@[d as int][at] == self.callers@[d as int][k]);
        }
        self.callers.remove(d, c);
    }

    /// The first slot in the line of senders to slot `d`.
    pub(crate) fn first_caller(&self, d: usize) -> (r: Option<usize>)
        requires
            self.linked(),
            d < self@.callers.len(),
        ensures
            as_int(r) == (if self@.callers[d as int].len() > 0 {
                Some(self@.callers[d as int][0])
            } else {
                None
            }),
            r matches Some(i) ==> i < NR_PROCS,
    {
        self.callers.first(d)
    }

    /// The slot after `c`, number `k` in the line of senders to slot `d`.
    pub(crate) fn caller_after(&self, c: usize, Ghost(d): Ghost<int>, Ghost(k): Ghost<int>) -> (r:
        Option<usize>)
        requires
            self.linked(),
            0 <= d < self@.callers.len(),
            0 <= k < self@.callers[d].len(),
            self@.callers[d][k] == c,
        ensures
            as_int(r) == (if k + 1 < self@.callers[d].len() {
                Some(self@.callers[d][k + 1])
            } else {
                None
            }),
            r matches Some(i) ==> i < NR_PROCS,
    {
        self.callers.following(c, Ghost(d), Ghost(k))
    }

    /// The clock.
    pub(crate) fn clock(&self) -> (r: u64)
        ensures
            r == self@.ticks,
    {
        self.ticks
    }

    /// Set the clock.
    pub(crate) fn set_clock(&mut self, ticks: u64)
        ensures
            old(self).linked() ==> final(self).linked(),
            final(self)@ == (SchedModel { ticks, ..old(self)@ }),
    {
        self.ticks = ticks;
    }

    /// Who runs next.
    pub(crate) fn next_slot(&self) -> (r: Option<usize>)
        requires
            self.wf(),
        ensures
            as_int(r) == self@.next(),
            r matches Some(i) ==> i < NR_PROCS && self@.flags(i as int) == 0,
    {
        proof {
            front_is_listed(self@.queues, 0);
        }
        self.next_ptr
    }

    /// Make slot `i` the running one.
    pub(crate) fn set_current(&mut self, i: usize)
        ensures
            old(self).linked() ==> final(self).linked(),
            final(self)@ == (SchedModel { current: i as int, ..old(self)@ }),
    {
        self.current = i;
    }

    /// Page table and flags of the kernel's own address space.
    pub(crate) fn kernel_space(&self) -> (r: (u64, u64))
        ensures
            r == self@.kernel_cr3,
    {
        self.kernel_cr3
    }

    /// How many processes slot `i` has held.
    pub(crate) fn generation(&self, i: usize) -> (r: u32)
        requires
            i < self@.generations.len(),
        ensures
            r == self@.generations[i as int],
    {
        self.generations[i]
    }

    /// Count one more process in slot `i`.
    pub(crate) fn bump_generation(&mut self, i: usize)
        requires
            i < old(self)@.generations.len(),
        ensures
            old(self).linked() ==> final(self).linked(),
            final(self)@ == (SchedModel {
                generations: old(self)@.generations.update(
                    i as int,
                    next_generation(old(self)@.generations[i as int]),
                ),
                ..old(self)@
            }),
    {
        let g: u32 = self.generations[i];
        self.generations[i] = if g == u32::MAX {
            0
        } else {
            g + 1
        };
    }

    /// Hand out the next place in line at a semaphore.
    pub(crate) fn take_ticket(&mut self) -> (r: u64)
        requires
            old(self)@.sem_seq < u64::MAX,
        ensures
            old(self).linked() ==> final(self).linked(),
            r == old(self)@.sem_seq,
            final(self)@ == (SchedModel { sem_seq: (r + 1) as u64, ..old(self)@ }),
    {
        let ticket: u64 = self.sem_seq;
        self.sem_seq = ticket + 1;
        ticket
    }

    /// Where the saved stack pointer of slot `i` is kept, for the switch
    /// that leaves its process to fill in.
    pub fn saved_rsp(&mut self, i: usize) -> (r: &mut u64)
        requires
            old(self).wf(),
            i < NR_PROCS,
        ensures
            *r == old(self)@.procs[i as int].rsp,
            final(self).wf(),
            final(self)@ == old(self)@.with_rsp(i as int, *final(r)),
    {
        proof {
            assert forall|v: u64| sound(#[trigger] self@.with_rsp(i as int, v)) by {
                put_same_sound(self@, Set::empty(), i as int, Proc { rsp: v, ..self@.procs[i as int] });
            }
        }
        &mut self.procs[i].rsp
    }

    /// The team that owns the port in slot `s`.
    pub(crate) fn port_owner(&self, s: usize) -> (r: Option<i32>)
        requires
            s < self@.ports.len(),
        ensures
            r == (match self@.ports[s as int] {
                Some(p) => Some(p.owner_team),
                None => None,
            }),
    {
        match &self.ports[s] {
            Some(p) => Some(p.owner_team),
            None => None,
        }
    }

    /// What is known of the port in slot `s`, but for what is queued.
    pub(crate) fn port_facts(&self, s: usize) -> (r: Option<PortFacts>)
        requires
            s < self@.ports.len(),
        ensures
            match self@.ports[s as int] {
                Some(p) => r matches Some(f) && f.name@ == p.name && f.capacity == p.capacity
                    && f.owner_team == p.owner_team && f.closed == p.closed && f.queued
                    == p.queue.len() && f.total_read == p.total_read,
                None => r is None,
            },
    {
        match &self.ports[s] {
            Some(p) => Some(
                PortFacts {
                    name: p.name,
                    capacity: p.capacity,
                    owner_team: p.owner_team,
                    closed: p.closed,
                    queued: p.queue.len(),
                    total_read: p.total_read,
                },
            ),
            None => None,
        }
    }

    /// Length of the first message queued in port slot `s`.
    pub(crate) fn head_len(&self, s: usize) -> (r: usize)
        requires
            s < self@.ports.len(),
            self@.ports[s as int] is Some,
            (self@.ports[s as int]->0).queue.len() > 0,
        ensures
            r == (self@.ports[s as int]->0).queue[0].1.len(),
    {
        match &self.ports[s] {
            Some(p) => {
                let message = &p.queue[0];
                message.1.len()
            },
            None => 0,
        }
    }

    /// Bytes queued in all ports together.
    pub(crate) fn queued_bytes(&self) -> (r: usize)
        requires
            self.linked(),
        ensures
            r == total_bytes(self@.ports),
    {
        self.port_bytes
    }

    /// The generation of port slot `s`.
    pub(crate) fn port_generation(&self, s: usize) -> (r: u32)
        requires
            s < self@.port_generations.len(),
        ensures
            r == self@.port_generations[s as int],
    {
        self.port_generations[s]
    }

    /// Put a new port of the next generation into slot `s`, which is empty.
    pub(crate) fn add_port(&mut self, s: usize, port: Port)
        requires
            old(self).linked(),
            s < old(self)@.ports.len(),
            s < old(self)@.port_generations.len(),
            old(self)@.ports[s as int] is None,
            old(self)@.port_generations[s as int] < PORT_GENERATIONS,
            port@.queue.len() == 0,
        ensures
            final(self).linked(),
            final(self)@ == (SchedModel {
                ports: old(self)@.ports.update(s as int, Some(port@)),
                port_generations: old(self)@.port_generations.update(
                    s as int,
                    next_port_generation(old(self)@.port_generations[s as int]),
                ),
                ..old(self)@
            }),
    {
        let ghost m = self@;
        let ghost pm = port@;
        proof {
            total_bytes_update(m.ports, s as int, Some(pm));
        }
        self.ports[s] = Some(port);
        self.port_generations[s] = (self.port_generations[s] + 1) % PORT_GENERATIONS;
        assert(self@.ports =~= m.ports.update(s as int, Some(pm)));
    }

    /// Forbid writes to the port in slot `s`.
    pub(crate) fn close_port(&mut self, s: usize)
        requires
            old(self).linked(),
            s < old(self)@.ports.len(),
            old(self)@.ports[s as int] is Some,
        ensures
            final(self).linked(),
            final(self)@ == old(self)@.with_port(
                s as int,
                Some((PortModel { closed: true, ..old(self)@.ports[s as int]->0 })),
            ),
    {
        let ghost m = self@;
        let ghost pm = PortModel { closed: true, ..m.ports[s as int]->0 };
        proof {
            total_bytes_update(m.ports, s as int, Some(pm));
        }
        match &mut self.ports[s] {
            Some(p) => {
                p.closed = true;
            },
            None => {},
        }
        assert(self@.ports =~= m.ports.update(s as int, Some(pm)));
    }

    /// Hand the port in slot `s` to `team`.
    pub(crate) fn give_port(&mut self, s: usize, team: i32)
        requires
            old(self).linked(),
            s < old(self)@.ports.len(),
            old(self)@.ports[s as int] is Some,
        ensures
            final(self).linked(),
            final(self)@ == old(self)@.with_port(
                s as int,
                Some((PortModel { owner_team: team, ..old(self)@.ports[s as int]->0 })),
            ),
    {
        let ghost m = self@;
        let ghost pm = PortModel { owner_team: team, ..m.ports[s as int]->0 };
        proof {
            total_bytes_update(m.ports, s as int, Some(pm));
        }
        match &mut self.ports[s] {
            Some(p) => {
                p.owner_team = team;
            },
            None => {},
        }
        assert(self@.ports =~= m.ports.update(s as int, Some(pm)));
    }

    /// Keep a message that waits for room, or drop it.
    pub(crate) fn set_pending(&mut self, i: usize, message: Option<(i32, Vec<u8>)>)
        requires
            i < old(self)@.pending.len(),
        ensures
            old(self).linked() ==> final(self).linked(),
            final(self)@ == old(self)@.with_pending(i as int, pending_view(message)),
    {
        let ghost m = self@;
        let ghost v = pending_view(message);
        self.pending[i] = message;
        assert(self@.pending =~= m.pending.update(i as int, v));
    }

    /// Whether a message of slot `i` waits for room.
    pub(crate) fn has_pending(&self, i: usize) -> (r: bool)
        requires
            i < self@.pending.len(),
        ensures
            r == (self@.pending[i as int] is Some),
    {
        self.pending[i].is_some()
    }

    /// Length of the message of slot `i` that waits for room.
    pub(crate) fn pending_len(&self, i: usize) -> (r: usize)
        requires
            i < self@.pending.len(),
        ensures
            r == (match self@.pending[i as int] {
                Some(message) => message.1.len(),
                None => 0,
            }),
    {
        match &self.pending[i] {
            Some(message) => message.1.len(),
            None => 0,
        }
    }

    /// Queue the message of slot `i` that waits for room in port slot `s`.
    pub(crate) fn push_message(&mut self, s: usize, i: usize)
        requires
            old(self).linked(),
            s < old(self)@.ports.len(),
            old(self)@.ports[s as int] is Some,
            i < old(self)@.pending.len(),
            old(self)@.pending[i as int] is Some,
            total_bytes(old(self)@.ports) + (old(self)@.pending[i as int]->0).1.len() <= usize::MAX,
        ensures
            final(self).linked(),
            ({
                let m = old(self)@;
                let p = m.ports[s as int]->0;
                final(self)@ == m.with_port(
                    s as int,
                    Some((PortModel { queue: p.queue.push(m.pending[i as int]->0), ..p })),
                ).with_pending(i as int, None)
            }),
    {
        let ghost m = self@;
        let ghost p = m.ports[s as int]->0;
        let ghost now = PortModel { queue: p.queue.push(m.pending[i as int]->0), ..p };
        proof {
            total_bytes_update(m.ports, s as int, Some(now));
            assert(now.queue.drop_last() =~= p.queue);
        }
        let taken = self.pending[i].take();
        match taken {
            Some(message) => {
                let len: usize = message.1.len();
                self.port_bytes = self.port_bytes + len;
                match &mut self.ports[s] {
                    Some(port) => {
                        port.queue.push_back(message);
                        assert(port@.queue =~= now.queue);
                    },
                    None => {},
                }
            },
            None => {},
        }
        assert(self@.ports =~= m.ports.update(s as int, Some(now)));
        assert(self@.pending =~= m.pending.update(i as int, None));
    }

    /// Take the first message queued in port slot `s`.
    pub(crate) fn pop_message(&mut self, s: usize) -> (r: (i32, Vec<u8>))
        requires
            old(self).linked(),
            s < old(self)@.ports.len(),
            old(self)@.ports[s as int] is Some,
            (old(self)@.ports[s as int]->0).queue.len() > 0,
        ensures
            final(self).linked(),
            ({
                let m = old(self)@;
                let p = m.ports[s as int]->0;
                &&& message_view(r) == p.queue[0]
                &&& final(self)@ == m.with_port(s as int, Some(p.read_one()))
            }),
    {
        let ghost m = self@;
        let ghost p = m.ports[s as int]->0;
        let ghost now = p.read_one();
        proof {
            total_bytes_update(m.ports, s as int, Some(now));
            bytes_in_first(p.queue);
        }
        let mut r: (i32, Vec<u8>) = (0, Vec::new());
        match &mut self.ports[s] {
            Some(port) => {
                let popped = port.queue.pop_front();
                match popped {
                    Some(message) => {
                        r = message;
                    },
                    None => {},
                }
                port.total_read = if port.total_read == i32::MAX {
                    port.total_read
                } else {
                    port.total_read + 1
                };
                assert(port@.queue =~= now.queue);
            },
            None => {},
        }
        self.port_bytes = self.port_bytes - r.1.len();
        assert(self@.ports =~= m.ports.update(s as int, Some(now)));
        r
    }

    /// Empty port slot `s`, and with it its queue.
    pub(crate) fn drop_port(&mut self, s: usize)
        requires
            old(self).linked(),
            old(self)@.ports.len() == NR_PORTS,
            s < NR_PORTS,
        ensures
            final(self).linked(),
            final(self)@ == old(self)@.with_port(s as int, None),
    {
        let ghost m = self@;
        proof {
            total_bytes_update(m.ports, s as int, None);
        }
        match &self.ports[s] {
            Some(port) => {
                let mut k: usize = 0;
                let mut bytes: usize = 0;
                let ghost queue = port@.queue;
                while k < port.queue.len()
                    invariant
                        k <= queue.len(),
                        queue == port@.queue,
                        queue.len() == port.queue@.len(),
                        bytes == bytes_in(queue.take(k as int)),
                        bytes_in(queue) <= usize::MAX,
                    decreases queue.len() - k,
                {
                    proof {
                        bytes_in_grows(queue, k + 1);
                        assert(queue.take(k + 1).drop_last() =~= queue.take(k as int));
                        assert(queue.take(k + 1).last() == queue[k as int]);
                    }
                    let message = &port.queue[k];
                    bytes = bytes + message.1.len();
                    k = k + 1;
                }
                assert(queue.take(k as int) =~= queue);
                self.port_bytes = self.port_bytes - bytes;
            },
            None => {},
        }
        self.ports[s] = None;
        assert(self@.ports =~= m.ports.update(s as int, None));
    }
}

/// What is known of a port, but for what is queued.
#[derive(Clone, Copy)]
pub(crate) struct PortFacts {
    pub name: [u8; B_OS_NAME_LENGTH],
    pub capacity: i32,
    pub owner_team: i32,
    pub closed: bool,
    pub queued: usize,
    pub total_read: i32,
}

/// The bytes of a queue are those of its first message and of the rest.
pub proof fn bytes_in_first(queue: Seq<(i32, Seq<u8>)>)
    requires
        queue.len() > 0,
    ensures
        bytes_in(queue) == queue[0].1.len() + bytes_in(queue.subrange(1, queue.len() as int)),
    decreases queue.len(),
{
    let rest = queue.subrange(1, queue.len() as int);
    if queue.len() == 1 {
        assert(rest =~= Seq::empty());
        assert(queue.drop_last() =~= Seq::empty());
    } else {
        bytes_in_first(queue.drop_last());
        assert(queue.drop_last().subrange(1, queue.len() - 1) =~= rest.drop_last());
        assert(rest.last() == queue.last());
    }
}

/// The generation after `g`.
pub open spec fn next_generation(g: u32) -> u32 {
    if g == u32::MAX {
        0
    } else {
        (g + 1) as u32
    }
}

/// The first entry of all lists is an entry of one.
proof fn front_is_listed(lists: Seq<Seq<int>>, from: int)
    requires
        0 <= from,
    ensures
        front_from(lists, from) matches Some(i) ==> exists|l: int, k: int|
            0 <= l < lists.len() && 0 <= k < lists[l].len() && #[trigger] lists[l][k] == i,
    decreases lists.len() - from,
{
    if from < lists.len() {
        if lists[from].len() > 0 {
            assert(lists[from][0] == lists[from][0]);
        } else {
            front_is_listed(lists, from + 1);
        }
    }
}

/// The first messages of a queue hold no more bytes than all of them.
proof fn bytes_in_grows(queue: Seq<(i32, Seq<u8>)>, k: int)
    requires
        0 <= k <= queue.len(),
    ensures
        bytes_in(queue.take(k)) <= bytes_in(queue),
    decreases queue.len(),
{
    if k == queue.len() {
        assert(queue.take(k) =~= queue);
    } else {
        assert(queue.drop_last().take(k) =~= queue.take(k));
        bytes_in_grows(queue.drop_last(), k);
    }
}

} // verus!
