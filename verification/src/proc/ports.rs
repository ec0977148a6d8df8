//! Ports: named, bounded queues of messages that any team can write to and
//! read from.
use vstd::prelude::*;

use crate::com::{slot, slot_of};
use crate::pit;
use crate::proc::endings::Step;
use crate::proc::haiku;
use crate::proc::lifecycle::holding;
use crate::proc::model::{
    first_from, next_port_generation, total_bytes, PortModel, Proc, SchedModel, B_OS_NAME_LENGTH,
    NR_PORTS, NR_PROCS, PORT_GENERATIONS, PORT_MAX_CAPACITY, PORT_MAX_MESSAGE, PORT_QUEUE_BYTES,
};
use crate::proc::queries::is_valid_proc_nr;
use crate::proc::rts;
use crate::proc::rts::flagged;
use crate::proc::scheduler::{message_view, Port, Scheduler};
use crate::proc::soundness::{
    drop_exception, holds_process, lined_up_is_sending, port_ok, ports_sound, put_same_sound,
    put_sound, slot_ok, total_bytes_update,
};

verus! {

/// What a port is, for whoever asks.
#[derive(Clone, Copy)]
pub struct PortInfo {
    pub port: i32,
    pub team: i32,
    pub name: [u8; B_OS_NAME_LENGTH],
    pub capacity: i32,
    pub queue_count: i32,
    pub total_count: i32,
}

/// The ticks that `us` microseconds take, rounded up; `None` if that is too
/// far off to count.
pub open spec fn ticks_in(us: i64) -> Option<u64> {
    let t = (if us < 0 {
        0
    } else {
        us as int
    }) * pit::HZ;
    if t > u64::MAX {
        None
    } else {
        Some(((t + 999999) / 1000000) as u64)
    }
}

/// When a wait that begins at `now` gives up: never, at a tick, or an error
/// if it must not wait at all.
pub open spec fn deadline(flags: u32, timeout_us: i64, now: u64) -> Result<Option<u64>, i32> {
    if timeout_us == haiku::B_INFINITE_TIMEOUT {
        Ok(None)
    } else if flags & haiku::B_RELATIVE_TIMEOUT != 0 {
        if timeout_us <= 0 {
            Err(haiku::B_WOULD_BLOCK)
        } else {
            match ticks_in(timeout_us) {
                Some(t) => if now + t > u64::MAX {
                    Ok(None)
                } else {
                    Ok(Some((now + t) as u64))
                },
                None => Ok(None),
            }
        }
    } else if flags & haiku::B_ABSOLUTE_TIMEOUT != 0 {
        Ok(ticks_in(timeout_us))
    } else {
        Ok(None)
    }
}

/// Turn a timeout, as flags and microseconds, into a deadline tick: `None`
/// for ever, an error for a relative timeout that is not in the future.
pub fn deadline_for(flags: u32, timeout_us: i64, now: u64) -> (r: Result<Option<u64>, i32>)
    ensures
        r == deadline(flags, timeout_us, now),
{
    if timeout_us == haiku::B_INFINITE_TIMEOUT {
        return Ok(None);
    }
    let us: u64 = if timeout_us < 0 {
        0
    } else {
        timeout_us as u64
    };
    let ticks: Option<u64> = match us.checked_mul(pit::HZ as u64) {
        Some(t) => {
            let whole: u64 = t / 1000000;
            if t % 1000000 == 0 {
                Some(whole)
            } else {
                Some(whole + 1)
            }
        },
        None => None,
    };
    if flags & haiku::B_RELATIVE_TIMEOUT != 0 {
        if timeout_us <= 0 {
            return Err(haiku::B_WOULD_BLOCK);
        }
        match ticks {
            Some(t) => Ok(now.checked_add(t)),
            None => Ok(None),
        }
    } else if flags & haiku::B_ABSOLUTE_TIMEOUT != 0 {
        Ok(ticks)
    } else {
        Ok(None)
    }
}

/// A name as a port keeps it: cut to leave room for a NUL, padded with NULs.
pub open spec fn stored_name(name: Seq<u8>) -> Seq<u8> {
    Seq::new(
        B_OS_NAME_LENGTH as nat,
        |i: int|
            if i < name.len() && i < B_OS_NAME_LENGTH - 1 {
                name[i]
            } else {
                0u8
            },
    )
}

/// How much of a name a port can keep.
pub open spec fn kept_part(name: Seq<u8>) -> Seq<u8> {
    if name.len() > B_OS_NAME_LENGTH - 1 {
        name.take(B_OS_NAME_LENGTH - 1)
    } else {
        name
    }
}

/// The bytes of `stored` before its first NUL.
pub open spec fn name_part(stored: Seq<u8>) -> Seq<u8> {
    match first_from(0, stored.len() as int, |k: int| stored[k] == 0) {
        Some(k) => stored.take(k),
        None => stored,
    }
}

/// The id of the port of generation `g` in slot `s`.
pub open spec fn port_id(g: u32, s: int) -> i32 {
    (g * NR_PORTS + s) as i32
}

impl SchedModel {
    /// The live port slot that `id` names.
    pub open spec fn port_slot(self, id: i32) -> Option<int> {
        let s = id as int % NR_PORTS as int;
        if id < 0 || self.ports[s] is None || self.port_generations[s] != id as int / NR_PORTS as int {
            None
        } else {
            Some(s)
        }
    }

    /// The first port slot that is empty.
    pub open spec fn free_port(self) -> Option<int> {
        first_from(0, NR_PORTS as int, |s: int| self.ports[s] is None)
    }

    /// Port slot `s` holds a new, empty port of the running process's team.
    pub open spec fn open_port(self, s: int, capacity: i32, name: Seq<u8>) -> SchedModel {
        SchedModel {
            ports: self.ports.update(
                s,
                Some(
                    PortModel {
                        name: stored_name(name),
                        capacity,
                        owner_team: self.procs[self.current].team,
                        closed: false,
                        queue: Seq::empty(),
                        total_read: 0,
                    },
                ),
            ),
            port_generations: self.port_generations.update(
                s,
                next_port_generation(self.port_generations[s]),
            ),
            ..self
        }
    }

    /// The first slot with a port of that name.
    pub open spec fn port_named(self, name: Seq<u8>) -> Option<int> {
        first_from(
            0,
            NR_PORTS as int,
            |s: int|
                self.ports[s] is Some && name_part((self.ports[s]->0).name) == kept_part(name),
        )
    }

    /// The running process waits on port slot `s` until it changes or the
    /// deadline passes.
    pub open spec fn begin_port_wait(self, s: int, deadline: Option<u64>) -> SchedModel {
        let i = self.current;
        self.pause(i).put(
            i,
            Proc {
                rts_flags: self.flags(i) | rts::PORT_WAIT,
                port_wait: Some(s as usize),
                wait_deadline: deadline,
                timed_out: false,
                ..self.procs[i]
            },
        )
    }

    /// The running process's message no longer waits for room.
    pub open spec fn give_up_write(self) -> SchedModel {
        self.with_pending(self.current, None)
    }

    /// Whether the running process's message finds room in port slot `s`: in
    /// the port, and under the bound on all bytes queued.
    pub open spec fn room_in(self, s: int) -> bool {
        let p = self.ports[s]->0;
        let len = match self.pending[self.current] {
            Some(message) => message.1.len(),
            None => 0,
        };
        p.queue.len() < p.capacity && total_bytes(self.ports) + len <= PORT_QUEUE_BYTES
    }

    /// The running process's message is queued in port slot `s`, and whoever
    /// waits on that port looks again.
    pub open spec fn queue_message(self, s: int) -> SchedModel {
        let p = self.ports[s]->0;
        self.with_port(
            s,
            Some(PortModel { queue: p.queue.push(self.pending[self.current]->0), ..p }),
        ).give_up_write().wake_port_waiters(s as usize, NR_PROCS as int)
    }

    /// One attempt at queueing the running process's message on port `id`.
    pub open spec fn write_step(self, id: i32, deadline: Result<Option<u64>, i32>) -> (
        SchedModel,
        Step<i32>,
    ) {
        match self.port_slot(id) {
            None => (self.give_up_write(), Step::Done(haiku::B_BAD_PORT_ID)),
            Some(s) => if (self.ports[s]->0).closed {
                (self.give_up_write(), Step::Done(haiku::B_BAD_PORT_ID))
            } else if self.room_in(s) {
                (self.queue_message(s), Step::Done(haiku::B_OK))
            } else {
                match deadline {
                    Err(status) => (self.give_up_write(), Step::Done(status)),
                    Ok(d) => if d is Some && self.ticks >= d->0 {
                        (self.give_up_write(), Step::Done(haiku::B_TIMED_OUT))
                    } else {
                        (self.begin_port_wait(s, d), Step::Blocked)
                    },
                }
            },
        }
    }

    /// One attempt at the first message of port `id`: taken, or just
    /// measured, in which case the size stands for the code.
    pub open spec fn read_step(
        self,
        id: i32,
        deadline: Result<Option<u64>, i32>,
        take: bool,
    ) -> (SchedModel, Step<Result<(i32, Seq<u8>), i32>>) {
        match self.port_slot(id) {
            None => (self, Step::Done(Err(haiku::B_BAD_PORT_ID))),
            Some(s) => {
                let p = self.ports[s]->0;
                if p.queue.len() > 0 {
                    if take {
                        (
                            self.with_port(s, Some(p.read_one())).wake_all_port_waiters(
                                NR_PROCS as int,
                            ),
                            Step::Done(Ok(p.queue[0])),
                        )
                    } else {
                        (self, Step::Done(Ok((p.queue[0].1.len() as i32, Seq::empty()))))
                    }
                } else if p.closed {
                    (self, Step::Done(Err(haiku::B_BAD_PORT_ID)))
                } else {
                    match deadline {
                        Err(status) => (self, Step::Done(Err(status))),
                        Ok(d) => if d is Some && self.ticks >= d->0 {
                            (self, Step::Done(Err(haiku::B_TIMED_OUT)))
                        } else {
                            (self.begin_port_wait(s, d), Step::Blocked)
                        },
                    }
                }
            },
        }
    }

    /// The running process has seen whether its wait timed out.
    pub open spec fn timeout_seen(self) -> SchedModel {
        self.put(
            self.current,
            Proc { timed_out: false, ..self.procs[self.current] },
        )
    }

    /// Whether `team` is the leader of a team that has not ended.
    pub open spec fn team_lives(self, team: i32) -> bool {
        let f = self.flags(slot_of(team));
        &&& self.valid_nr(team)
        &&& self.procs[slot_of(team)].team == team
        &&& !flagged(f, rts::ZOMBIE) && !flagged(f, rts::DRAINING) && !flagged(f, rts::DEAD)
        &&& f != rts::RESERVED
    }
}

/// The outcome of a read with its bytes as a sequence.
pub open spec fn read_view(r: Step<Result<(i32, Vec<u8>), i32>>) -> Step<Result<(i32, Seq<u8>), i32>> {
    match r {
        Step::Done(Ok(message)) => Step::Done(Ok(message_view(message))),
        Step::Done(Err(status)) => Step::Done(Err(status)),
        Step::Blocked => Step::Blocked,
    }
}

/// The outcome of a read that asked for the size alone.
pub open spec fn size_view(r: Step<Result<(i32, Seq<u8>), i32>>) -> Step<i32> {
    match r {
        Step::Done(Ok(message)) => Step::Done(message.0),
        Step::Done(Err(status)) => Step::Done(status),
        Step::Blocked => Step::Blocked,
    }
}

impl Scheduler {
    /// The live port slot that `id` names, if it names one.
    fn port_slot(&self, id: i32) -> (r: Option<usize>)
        requires
            self.wf(),
        ensures
            crate::proc::lists::as_int(r) == self@.port_slot(id),
            r matches Some(s) ==> s < NR_PORTS && self@.ports[s as int] is Some,
    {
        if id < 0 {
            return None;
        }
        let s: usize = (id as usize) % NR_PORTS;
        let g: u32 = (id as u32) / NR_PORTS as u32;
        if self.port_facts(s).is_some() && self.port_generation(s) == g {
            Some(s)
        } else {
            None
        }
    }

    /// Mark the running process waiting on port slot `s`.
    fn begin_port_wait(&mut self, s: usize, deadline: Option<u64>)
        requires
            old(self).wf(),
            s < NR_PORTS,
            holds_process(old(self)@.procs[old(self)@.current]),
        ensures
            final(self).wf(),
            final(self)@ == old(self)@.begin_port_wait(s as int, deadline),
    {
        let ghost none = Set::<int>::empty();
        let idx: usize = self.current_slot();
        let ghost i = idx as int;
        let ghost m = self@;
        let mut p = self.at(idx);
        self.pause(idx, Ghost(none));
        proof {
            assert(slot_ok(m.procs[i], i, m.sem_seq));
            holding(p, i, m.sem_seq);
            rts::raise(p.rts_flags, rts::PORT_WAIT);
            rts::only(rts::RESERVED);
            rts::only(rts::SLOT_FREE);
            if !flagged(p.rts_flags, rts::SENDING) {
                lined_up_is_sending(self@, none.insert(i), i);
            }
        }
        p.rts_flags = p.rts_flags | rts::PORT_WAIT;
        p.port_wait = Some(s);
        p.wait_deadline = deadline;
        p.timed_out = false;
        proof {
            put_sound(self@, none.insert(i), i, p);
            drop_exception(self@.put(i, p), none, i);
        }
        self.put(idx, p);
    }

    /// Drop the running process's message that waits for room.
    fn give_up_write(&mut self)
        requires
            old(self).wf(),
        ensures
            final(self).wf(),
            final(self)@ == old(self)@.give_up_write(),
    {
        let idx: usize = self.current_slot();
        proof {
            ports_sound(self@, self@.give_up_write(), Set::empty());
        }
        self.set_pending(idx, None);
    }

    /// One attempt at queueing the running process's message on port `id`.
    fn write_step(&mut self, id: i32, deadline: Result<Option<u64>, i32>) -> (r: Step<i32>)
        requires
            old(self).wf(),
            holds_process(old(self)@.procs[old(self)@.current]),
            old(self)@.pending[old(self)@.current] is Some,
        ensures
            final(self).wf(),
            (final(self)@, r) == old(self)@.write_step(id, deadline),
    {
        let ghost m = self@;
        let idx: usize = self.current_slot();
        match self.port_slot(id) {
            None => {
                self.give_up_write();
                Step::Done(haiku::B_BAD_PORT_ID)
            },
            Some(s) => {
                let facts = self.port_facts(s).unwrap();
                if facts.closed {
                    self.give_up_write();
                    return Step::Done(haiku::B_BAD_PORT_ID);
                }
                let len: usize = self.pending_len(idx);
                assert(port_ok(m.ports[s as int]->0));
                if facts.queued < facts.capacity as usize && self.queued_bytes() + len
                    <= PORT_QUEUE_BYTES {
                    proof {
                        let p = m.ports[s as int]->0;
                        let now = PortModel { queue: p.queue.push(m.pending[idx as int]->0), ..p };
                        let n = m.with_port(s as int, Some(now)).give_up_write();
                        total_bytes_update(m.ports, s as int, Some(now));
                        assert(now.queue.drop_last() =~= p.queue);
                        ports_sound(m, n, Set::empty());
                    }
                    self.push_message(s, idx);
                    self.wake_port_waiters(s);
                    return Step::Done(haiku::B_OK);
                }
                match deadline {
                    Err(status) => {
                        self.give_up_write();
                        Step::Done(status)
                    },
                    Ok(d) => {
                        let late: bool = match d {
                            Some(t) => self.clock() >= t,
                            None => false,
                        };
                        if late {
                            self.give_up_write();
                            Step::Done(haiku::B_TIMED_OUT)
                        } else {
                            self.begin_port_wait(s, d);
                            Step::Blocked
                        }
                    },
                }
            },
        }
    }

    /// One attempt at the first message of port `id`.
    fn port_next(&mut self, id: i32, deadline: Result<Option<u64>, i32>, take: bool) -> (r: Step<
        Result<(i32, Vec<u8>), i32>,
    >)
        requires
            old(self).wf(),
            holds_process(old(self)@.procs[old(self)@.current]),
        ensures
            final(self).wf(),
            (final(self)@, read_view(r)) == old(self)@.read_step(id, deadline, take),
    {
        let ghost m = self@;
        match self.port_slot(id) {
            None => Step::Done(Err(haiku::B_BAD_PORT_ID)),
            Some(s) => {
                let facts = self.port_facts(s).unwrap();
                assert(port_ok(m.ports[s as int]->0));
                if facts.queued > 0 {
                    if take {
                        proof {
                            let p = m.ports[s as int]->0;
                            let now = p.read_one();
                            total_bytes_update(m.ports, s as int, Some(now));
                            crate::proc::scheduler::bytes_in_first(p.queue);
                            ports_sound(m, m.with_port(s as int, Some(now)), Set::empty());
                        }
                        let message = self.pop_message(s);
                        self.wake_all_port_waiters();
                        return Step::Done(Ok(message));
                    }
                    assert((m.ports[s as int]->0).queue[0].1.len() <= PORT_MAX_MESSAGE);
                    let empty: Vec<u8> = Vec::new();
                    assert(empty@ =~= Seq::<u8>::empty());
                    return Step::Done(Ok((self.head_len(s) as i32, empty)));
                }
                if facts.closed {
                    return Step::Done(Err(haiku::B_BAD_PORT_ID));
                }
                match deadline {
                    Err(status) => Step::Done(Err(status)),
                    Ok(d) => {
                        let late: bool = match d {
                            Some(t) => self.clock() >= t,
                            None => false,
                        };
                        if late {
                            Step::Done(Err(haiku::B_TIMED_OUT))
                        } else {
                            self.begin_port_wait(s, d);
                            Step::Blocked
                        }
                    },
                }
            },
        }
    }

    /// Whether the running process's wait timed out, which it now knows.
    fn finish_port_wait(&mut self) -> (r: bool)
        requires
            old(self).wf(),
        ensures
            final(self).wf(),
            final(self)@ == old(self)@.timeout_seen(),
            r == old(self)@.procs[old(self)@.current].timed_out,
    {
        let idx: usize = self.current_slot();
        let mut p = self.at(idx);
        let timed_out: bool = p.timed_out;
        p.timed_out = false;
        proof {
            put_same_sound(self@, Set::empty(), idx as int, p);
        }
        self.put(idx, p);
        timed_out
    }
}

/// Create a port for up to `capacity` messages, owned by the running
/// process's team. Returns its id, or a status.
pub fn port_create(sched: &mut Scheduler, capacity: i32, name: &[u8]) -> (id: i32)
    requires
        old(sched).wf(),
    ensures
        final(sched).wf(),
        ({
            let m = old(sched)@;
            if capacity <= 0 || capacity > PORT_MAX_CAPACITY {
                id == haiku::B_BAD_VALUE && final(sched)@ == m
            } else {
                match m.free_port() {
                    Some(s) => {
                        &&& final(sched)@ == m.open_port(s, capacity, name@)
                        &&& id == port_id(next_port_generation(m.port_generations[s]), s)
                        &&& id >= 0
                        &&& final(sched)@.port_slot(id) == Some(s)
                    },
                    None => id == haiku::B_NO_MORE_PORTS && final(sched)@ == m,
                }
            }
        }),
{
    if capacity <= 0 || capacity > PORT_MAX_CAPACITY {
        return haiku::B_BAD_VALUE;
    }
    let ghost m = sched@;
    let ghost f = |s: int| m.ports[s] is None;
    let owner_team: i32 = sched.at(sched.current_slot()).team;
    let mut s: usize = 0;
    while s < NR_PORTS
        invariant
            s <= NR_PORTS,
            sched.wf(),
            sched@ == m,
            m == old(sched)@,
            0 < capacity <= PORT_MAX_CAPACITY,
            owner_team == m.procs[m.current].team,
            f == (|s: int| m.ports[s] is None),
            first_from(0, NR_PORTS as int, f) == first_from(s as int, NR_PORTS as int, f),
        decreases NR_PORTS - s,
    {
        if sched.port_facts(s).is_none() {
            let mut stored: [u8; B_OS_NAME_LENGTH] = [0;B_OS_NAME_LENGTH];
            let mut k: usize = 0;
            while k < name.len() && k < B_OS_NAME_LENGTH - 1
                invariant
                    k <= name.len(),
                    k <= B_OS_NAME_LENGTH - 1,
                    forall|j: int| 0 <= j < k ==> stored@[j] == name@[j],
                    forall|j: int| k <= j < B_OS_NAME_LENGTH ==> stored@[j] == 0,
                decreases name.len() - k,
            {
                stored[k] = name[k];
                k = k + 1;
            }
            assert(stored@ =~= stored_name(name@));
            let port = Port::new(stored, capacity, owner_team);
            proof {
                let g = next_port_generation(m.port_generations[s as int]);
                let n = m.open_port(s as int, capacity, name@);
                assert(port@ == (n.ports[s as int]->0));
                total_bytes_update(m.ports, s as int, Some(port@));
                assert(m.port_generations[s as int] < PORT_GENERATIONS);
                assert(0 <= g < PORT_GENERATIONS) by (nonlinear_arith)
                    requires
                        g == ((m.port_generations[s as int] + 1) % (PORT_GENERATIONS as int)) as u32,
                ;
                ports_sound(m, n, Set::empty());
            }
            sched.add_port(s, port);
            let g: u32 = sched.port_generation(s);
            return (g * NR_PORTS as u32 + s as u32) as i32;
        }
        s = s + 1;
    }
    haiku::B_NO_MORE_PORTS
}

/// The id of the port named `name`, compared as a port keeps it, or
/// `B_NAME_NOT_FOUND`.
pub fn port_find(sched: &Scheduler, name: &[u8]) -> (id: i32)
    requires
        sched.wf(),
    ensures
        id == (match sched@.port_named(name@) {
            Some(s) => port_id(sched@.port_generations[s], s),
            None => haiku::B_NAME_NOT_FOUND,
        }),
{
    let ghost m = sched@;
    let ghost f = |s: int| m.ports[s] is Some && name_part((m.ports[s]->0).name) == kept_part(name@);
    let mut s: usize = 0;
    while s < NR_PORTS
        invariant
            s <= NR_PORTS,
            sched.wf(),
            sched@ == m,
            f == (|s: int|
                m.ports[s] is Some && name_part((m.ports[s]->0).name) == kept_part(name@)),
            first_from(0, NR_PORTS as int, f) == first_from(s as int, NR_PORTS as int, f),
        decreases NR_PORTS - s,
    {
        match sched.port_facts(s) {
            Some(facts) => {
                if same_name(&facts.name, name) {
                    let g: u32 = sched.port_generation(s);
                    return (g * NR_PORTS as u32 + s as u32) as i32;
                }
            },
            None => {},
        }
        s = s + 1;
    }
    haiku::B_NAME_NOT_FOUND
}

/// Whether a kept name is what a port would keep of `name`.
fn same_name(stored: &[u8; B_OS_NAME_LENGTH], name: &[u8]) -> (r: bool)
    ensures
        r == (name_part(stored@) == kept_part(name@)),
{
    let ghost f = |k: int| stored@[k] == 0;
    let mut len: usize = 0;
    while len < B_OS_NAME_LENGTH && stored[len] != 0
        invariant
            len <= B_OS_NAME_LENGTH,
            f == (|k: int| stored@[k] == 0),
            first_from(0, B_OS_NAME_LENGTH as int, f) == first_from(
                len as int,
                B_OS_NAME_LENGTH as int,
                f,
            ),
        decreases B_OS_NAME_LENGTH - len,
    {
        len = len + 1;
    }
    let n: usize = if name.len() > B_OS_NAME_LENGTH - 1 {
        B_OS_NAME_LENGTH - 1
    } else {
        name.len()
    };
    assert(name_part(stored@) =~= stored@.take(len as int));
    assert(kept_part(name@) =~= name@.take(n as int));
    if len != n {
        assert(stored@.take(len as int).len() != name@.take(n as int).len());
        return false;
    }
    let mut k: usize = 0;
    while k < n
        invariant
            k <= n,
            n == len,
            n <= name@.len(),
            n <= B_OS_NAME_LENGTH,
            name_part(stored@) == stored@.take(len as int),
            kept_part(name@) == name@.take(n as int),
            forall|j: int| 0 <= j < k ==> stored@[j] == name@[j],
        decreases n - k,
    {
        if stored[k] != name[k] {
            assert(stored@.take(len as int)[k as int] != name@.take(n as int)[k as int]);
            return false;
        }
        k = k + 1;
    }
    assert(stored@.take(len as int) =~= name@.take(n as int));
    true
}

/// Queue `(code, data)` on port `id`, waiting for room. Done with a status;
/// blocked if there is no room yet, to go on with `port_write_again`.
pub fn port_write(
    sched: &mut Scheduler,
    id: i32,
    code: i32,
    data: Vec<u8>,
    flags: u32,
    timeout_us: i64,
) -> (r: Step<i32>)
    requires
        old(sched).wf(),
        holds_process(old(sched)@.procs[old(sched)@.current]),
    ensures
        final(sched).wf(),
        ({
            let m = old(sched)@;
            if data@.len() > PORT_MAX_MESSAGE {
                r == Step::Done(haiku::B_BAD_VALUE) && final(sched)@ == m
            } else {
                (final(sched)@, r) == m.with_pending(m.current, Some((code, data@))).write_step(
                    id,
                    deadline(flags, timeout_us, m.ticks),
                )
            }
        }),
{
    if data.len() > PORT_MAX_MESSAGE {
        return Step::Done(haiku::B_BAD_VALUE);
    }
    let deadline = deadline_for(flags, timeout_us, sched.clock());
    let idx: usize = sched.current_slot();
    proof {
        let m = sched@;
        ports_sound(m, m.with_pending(idx as int, Some((code, data@))), Set::empty());
    }
    sched.set_pending(idx, Some((code, data)));
    sched.write_step(id, deadline)
}

/// Go on with a write that was blocked until `deadline`, after having been
/// woken.
pub fn port_write_again(sched: &mut Scheduler, id: i32, deadline: Option<u64>) -> (r: Step<i32>)
    requires
        old(sched).wf(),
        holds_process(old(sched)@.procs[old(sched)@.current]),
        old(sched)@.pending[old(sched)@.current] is Some,
    ensures
        final(sched).wf(),
        ({
            let m = old(sched)@;
            if m.procs[m.current].timed_out {
                r == Step::Done(haiku::B_TIMED_OUT) && final(sched)@
                    == m.timeout_seen().give_up_write()
            } else {
                (final(sched)@, r) == m.timeout_seen().write_step(id, Ok(deadline))
            }
        }),
{
    if sched.finish_port_wait() {
        sched.give_up_write();
        return Step::Done(haiku::B_TIMED_OUT);
    }
    sched.write_step(id, Ok(deadline))
}

/// Take the next message of port `id`, waiting for one. Done with the
/// message or a status; blocked if there is none yet, to go on with
/// `port_read_again`.
pub fn port_read(sched: &mut Scheduler, id: i32, flags: u32, timeout_us: i64) -> (r: Step<
    Result<(i32, Vec<u8>), i32>,
>)
    requires
        old(sched).wf(),
        holds_process(old(sched)@.procs[old(sched)@.current]),
    ensures
        final(sched).wf(),
        (final(sched)@, read_view(r)) == old(sched)@.read_step(
            id,
            deadline(flags, timeout_us, old(sched)@.ticks),
            true,
        ),
{
    let deadline = deadline_for(flags, timeout_us, sched.clock());
    sched.port_next(id, deadline, true)
}

/// Go on with a read that was blocked until `deadline`, after having been
/// woken.
pub fn port_read_again(sched: &mut Scheduler, id: i32, deadline: Option<u64>) -> (r: Step<
    Result<(i32, Vec<u8>), i32>,
>)
    requires
        old(sched).wf(),
        holds_process(old(sched)@.procs[old(sched)@.current]),
    ensures
        final(sched).wf(),
        ({
            let m = old(sched)@;
            if m.procs[m.current].timed_out {
                read_view(r) == Step::<Result<(i32, Seq<u8>), i32>>::Done(Err(haiku::B_TIMED_OUT))
                    && final(sched)@ == m.timeout_seen()
            } else {
                (final(sched)@, read_view(r)) == m.timeout_seen().read_step(id, Ok(deadline), true)
            }
        }),
{
    if sched.finish_port_wait() {
        return Step::Done(Err(haiku::B_TIMED_OUT));
    }
    sched.port_next(id, Ok(deadline), true)
}

/// The size of the next message of port `id`, waiting for one. Done with the
/// size or a status; blocked if there is none yet, to go on with
/// `port_buffer_size_again`.
pub fn port_buffer_size(sched: &mut Scheduler, id: i32, flags: u32, timeout_us: i64) -> (r: Step<i32>)
    requires
        old(sched).wf(),
        holds_process(old(sched)@.procs[old(sched)@.current]),
    ensures
        final(sched).wf(),
        ({
            let (n, s) = old(sched)@.read_step(
                id,
                deadline(flags, timeout_us, old(sched)@.ticks),
                false,
            );
            final(sched)@ == n && r == size_view(s)
        }),
{
    let deadline = deadline_for(flags, timeout_us, sched.clock());
    match sched.port_next(id, deadline, false) {
        Step::Done(Ok(message)) => Step::Done(message.0),
        Step::Done(Err(status)) => Step::Done(status),
        Step::Blocked => Step::Blocked,
    }
}

/// Go on waiting for the size of the next message until `deadline`, after
/// having been woken.
pub fn port_buffer_size_again(sched: &mut Scheduler, id: i32, deadline: Option<u64>) -> (r: Step<i32>)
    requires
        old(sched).wf(),
        holds_process(old(sched)@.procs[old(sched)@.current]),
    ensures
        final(sched).wf(),
        ({
            let m = old(sched)@;
            if m.procs[m.current].timed_out {
                r == Step::Done(haiku::B_TIMED_OUT) && final(sched)@ == m.timeout_seen()
            } else {
                let (n, s) = m.timeout_seen().read_step(id, Ok(deadline), false);
                final(sched)@ == n && r == size_view(s)
            }
        }),
{
    if sched.finish_port_wait() {
        return Step::Done(haiku::B_TIMED_OUT);
    }
    match sched.port_next(id, Ok(deadline), false) {
        Step::Done(Ok(message)) => Step::Done(message.0),
        Step::Done(Err(status)) => Step::Done(status),
        Step::Blocked => Step::Blocked,
    }
}

/// Messages queued in port `id`, or `B_BAD_PORT_ID`.
pub fn port_count(sched: &Scheduler, id: i32) -> (r: i32)
    requires
        sched.wf(),
    ensures
        r == (match sched@.port_slot(id) {
            Some(s) => (sched@.ports[s]->0).queue.len() as int,
            None => haiku::B_BAD_PORT_ID as int,
        }),
{
    match sched.port_slot(id) {
        Some(s) => {
            let facts = sched.port_facts(s).unwrap();
            assert(port_ok(sched@.ports[s as int]->0));
            facts.queued as i32
        },
        None => haiku::B_BAD_PORT_ID,
    }
}

/// No more writes to port `id`; readers take what is queued, and then find
/// it gone. Whoever waits on it looks again.
pub fn port_close(sched: &mut Scheduler, id: i32) -> (r: i32)
    requires
        old(sched).wf(),
    ensures
        final(sched).wf(),
        ({
            let m = old(sched)@;
            match m.port_slot(id) {
                Some(s) if !(m.ports[s]->0).closed => {
                    &&& r == haiku::B_OK
                    &&& final(sched)@ == m.with_port(
                        s,
                        Some((PortModel { closed: true, ..m.ports[s]->0 })),
                    ).wake_port_waiters(s as usize, NR_PROCS as int)
                },
                _ => r == haiku::B_BAD_PORT_ID && final(sched)@ == m,
            }
        }),
{
    let ghost m = sched@;
    match sched.port_slot(id) {
        Some(s) => {
            let facts = sched.port_facts(s).unwrap();
            if facts.closed {
                return haiku::B_BAD_PORT_ID;
            }
            proof {
                let now = PortModel { closed: true, ..m.ports[s as int]->0 };
                assert(port_ok(m.ports[s as int]->0));
                total_bytes_update(m.ports, s as int, Some(now));
                ports_sound(m, m.with_port(s as int, Some(now)), Set::empty());
            }
            sched.close_port(s);
            sched.wake_port_waiters(s);
            haiku::B_OK
        },
        None => haiku::B_BAD_PORT_ID,
    }
}

/// Delete port `id`, queue and all. Whoever waits on a port looks again.
pub fn port_delete(sched: &mut Scheduler, id: i32) -> (r: i32)
    requires
        old(sched).wf(),
    ensures
        final(sched).wf(),
        match old(sched)@.port_slot(id) {
            Some(s) => r == haiku::B_OK && final(sched)@ == old(sched)@.delete_port_slot(s),
            None => r == haiku::B_BAD_PORT_ID && final(sched)@ == old(sched)@,
        },
{
    match sched.port_slot(id) {
        Some(s) => {
            sched.delete_port_slot(s);
            haiku::B_OK
        },
        None => haiku::B_BAD_PORT_ID,
    }
}

/// Hand port `id` to `team`, which must be the leader of a team that has not
/// ended.
pub fn port_set_owner(sched: &mut Scheduler, id: i32, team: i32) -> (r: i32)
    requires
        old(sched).wf(),
    ensures
        final(sched).wf(),
        ({
            let m = old(sched)@;
            match m.port_slot(id) {
                None => r == haiku::B_BAD_PORT_ID && final(sched)@ == m,
                Some(s) => if !m.team_lives(team) {
                    r == haiku::B_BAD_TEAM_ID && final(sched)@ == m
                } else {
                    &&& r == haiku::B_OK
                    &&& final(sched)@ == m.with_port(
                        s,
                        Some((PortModel { owner_team: team, ..m.ports[s]->0 })),
                    )
                },
            }
        }),
{
    let ghost m = sched@;
    let mut team_ok: bool = false;
    if is_valid_proc_nr(sched, team) {
        let p = sched.at(slot(team));
        team_ok = p.team == team && p.rts_flags & rts::ZOMBIE == 0 && p.rts_flags & rts::DRAINING == 0
            && p.rts_flags & rts::DEAD == 0 && p.rts_flags != rts::RESERVED;
    }
    match sched.port_slot(id) {
        None => haiku::B_BAD_PORT_ID,
        Some(s) => {
            if !team_ok {
                return haiku::B_BAD_TEAM_ID;
            }
            proof {
                let now = PortModel { owner_team: team, ..m.ports[s as int]->0 };
                assert(port_ok(m.ports[s as int]->0));
                total_bytes_update(m.ports, s as int, Some(now));
                ports_sound(m, m.with_port(s as int, Some(now)), Set::empty());
            }
            sched.give_port(s, team);
            haiku::B_OK
        },
    }
}

/// What port `id` is, or `B_BAD_PORT_ID`.
pub fn port_info(sched: &Scheduler, id: i32) -> (r: Result<PortInfo, i32>)
    requires
        sched.wf(),
    ensures
        match sched@.port_slot(id) {
            Some(s) => {
                let p = sched@.ports[s]->0;
                r matches Ok(info) && info.port == id && info.team == p.owner_team && info.name@
                    == p.name && info.capacity == p.capacity && info.queue_count == p.queue.len()
                    && info.total_count == p.total_read
            },
            None => r == Err::<PortInfo, i32>(haiku::B_BAD_PORT_ID),
        },
{
    match sched.port_slot(id) {
        Some(s) => {
            let facts = sched.port_facts(s).unwrap();
            assert(port_ok(sched@.ports[s as int]->0));
            Ok(
                PortInfo {
                    port: id,
                    team: facts.owner_team,
                    name: facts.name,
                    capacity: facts.capacity,
                    queue_count: facts.queued as i32,
                    total_count: facts.total_read,
                },
            )
        },
        None => Err(haiku::B_BAD_PORT_ID),
    }
}

} // verus!
