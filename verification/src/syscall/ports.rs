//! The system calls on ports: what of the caller's memory they read and
//! write, and what they are answered.
use vstd::prelude::*;

use crate::pit;
use crate::proc::clock::{system_time_us, uptime_ticks};
use crate::proc::endings::Step;
use crate::proc::haiku;
use crate::proc::laws::port_is_a_queue;
use crate::proc::model::{
    next_port_generation, total_bytes, PortModel, SchedModel, B_OS_NAME_LENGTH, NR_PROCS,
    PORT_MAX_CAPACITY, PORT_MAX_MESSAGE, PORT_QUEUE_BYTES,
};
use crate::proc::ports::{
    deadline, deadline_for, port_buffer_size, port_buffer_size_again, port_close, port_count,
    port_create, port_delete, port_find, port_id, port_info, port_read, port_read_again,
    port_set_owner, port_write, port_write_again, read_view, size_view, PortInfo,
};
use crate::proc::scheduler::Scheduler;
use crate::proc::soundness::{holds_process, port_ok, ports_sound, sound};
use crate::rt::os::{
    SYS_CLOSE_PORT, SYS_CREATE_PORT, SYS_DELETE_PORT, SYS_FIND_PORT, SYS_GET_PORT_INFO,
    SYS_PORT_BUFFER_SIZE_ETC, SYS_PORT_COUNT, SYS_READ_PORT_ETC, SYS_SET_PORT_OWNER,
    SYS_SYSTEM_TIME, SYS_WRITE_PORT_ETC,
};
use crate::syscall::caller::CallerMemory;
use crate::syscall::dispatch::{Action, Trap};

verus! {

/// Bytes that a port's description takes in the caller's memory.
pub const PORT_INFO_BYTES: usize = 52;

/// Where the caller wants a message: its code, and up to `len` of its bytes.
#[derive(Clone, Copy, Debug, PartialEq, Eq, Structural)]
pub struct Inbox {
    pub code_at: u64,
    pub buffer: u64,
    pub len: u64,
}

/// Whether call number `c` is one of those on ports, or asks for the time
/// that their timeouts go by.
pub open spec fn on_ports(c: u64) -> bool {
    SYS_CREATE_PORT <= c <= SYS_SYSTEM_TIME
}

/// How much of a name the kernel reads: a port keeps no more.
pub open spec fn name_read(len: u64) -> int {
    if len > B_OS_NAME_LENGTH - 1 {
        B_OS_NAME_LENGTH - 1
    } else {
        len as int
    }
}

/// How much of a message can go into a buffer of `len` bytes.
pub open spec fn room(len: u64) -> u64 {
    if len > PORT_MAX_MESSAGE {
        PORT_MAX_MESSAGE as u64
    } else {
        len
    }
}

/// What of a message fits into `len` bytes; the rest is dropped.
pub open spec fn fitting(data: Seq<u8>, len: u64) -> Seq<u8> {
    if data.len() > len {
        data.take(len as int)
    } else {
        data
    }
}

/// A number as four bytes, the lowest first.
pub open spec fn int_bytes(x: i32) -> Seq<u8> {
    let w = x as u32;
    seq![
        (w % 0x100) as u8,
        (w / 0x100 % 0x100) as u8,
        (w / 0x1_0000 % 0x100) as u8,
        (w / 0x100_0000 % 0x100) as u8,
    ]
}

/// How a port is described in the caller's memory.
pub open spec fn info_bytes(id: i32, p: PortModel) -> Seq<u8> {
    int_bytes(id) + int_bytes(p.owner_team) + p.name + int_bytes(p.capacity) + int_bytes(
        p.queue.len() as i32,
    ) + int_bytes(p.total_read)
}

/// What a call that ends with a status returns.
pub open spec fn ends(status: i32) -> Action {
    Action::Return(status as u64)
}

/// What an attempt at writing to port `id`, with deadline `d`, leads to.
pub open spec fn write_leads_to(id: i32, d: Result<Option<u64>, i32>, step: Step<i32>) -> Action {
    match step {
        Step::Done(status) => ends(status),
        Step::Blocked => Action::PortWrite { id, deadline: d->Ok_0 },
    }
}

/// What an attempt at the size of the next message of port `id`, with
/// deadline `d`, leads to.
pub open spec fn size_leads_to(id: i32, d: Result<Option<u64>, i32>, step: Step<i32>) -> Action {
    match step {
        Step::Done(size) => ends(size),
        Step::Blocked => Action::PortSize { id, deadline: d->Ok_0 },
    }
}

/// Whether an attempt at reading from port `id` into `inbox`, with deadline
/// `d`, leads to `a`.
pub open spec fn read_leads_to(
    id: i32,
    d: Result<Option<u64>, i32>,
    inbox: Inbox,
    step: Step<Result<(i32, Seq<u8>), i32>>,
    a: Action,
) -> bool {
    match step {
        Step::Done(Ok(message)) => a matches Action::PortMessage { code_at, code, buffer, data }
            && code_at == inbox.code_at && code == message.0 && buffer == inbox.buffer && data@
            == fitting(message.1, inbox.len),
        Step::Done(Err(status)) => a == ends(status),
        Step::Blocked => a == Action::PortRead { id, deadline: d->Ok_0, inbox },
    }
}

/// Whether `a` answers `t`, one of the calls on ports, made in state `m` by
/// a caller with memory `u`, and `n` is the state afterwards.
pub open spec fn port_answers(
    m: SchedModel,
    u: CallerMemory,
    t: Trap,
    n: SchedModel,
    a: Action,
) -> bool {
    let c = t.call_num;
    let id = t.arg1 as i32;
    if c == SYS_CREATE_PORT {
        let len = name_read(t.arg3);
        let capacity = t.arg1 as i32;
        if !u.readable(t.arg2 as int, len) {
            n == m && a == ends(haiku::B_BAD_ADDRESS)
        } else if capacity <= 0 || capacity > PORT_MAX_CAPACITY {
            n == m && a == ends(haiku::B_BAD_VALUE)
        } else {
            match m.free_port() {
                Some(s) => {
                    &&& n == m.open_port(s, capacity, u.bytes(t.arg2 as int, len))
                    &&& a == ends(port_id(next_port_generation(m.port_generations[s]), s))
                },
                None => n == m && a == ends(haiku::B_NO_MORE_PORTS),
            }
        }
    } else if c == SYS_FIND_PORT {
        let len = name_read(t.arg2);
        n == m && a == (if !u.readable(t.arg1 as int, len) {
            ends(haiku::B_BAD_ADDRESS)
        } else {
            match m.port_named(u.bytes(t.arg1 as int, len)) {
                Some(s) => ends(port_id(m.port_generations[s], s)),
                None => ends(haiku::B_NAME_NOT_FOUND),
            }
        })
    } else if c == SYS_WRITE_PORT_ETC {
        if t.arg4 > PORT_MAX_MESSAGE {
            n == m && a == ends(haiku::B_BAD_VALUE)
        } else if !u.readable(t.arg3 as int, t.arg4 as int) {
            n == m && a == ends(haiku::B_BAD_ADDRESS)
        } else {
            let d = deadline(t.arg5 as u32, t.arg6 as i64, m.ticks);
            let message = (t.arg2 as i32, u.bytes(t.arg3 as int, t.arg4 as int));
            let (after, step) = m.with_pending(m.current, Some(message)).write_step(id, d);
            n == after && a == write_leads_to(id, d, step)
        }
    } else if c == SYS_READ_PORT_ETC {
        let inbox = Inbox { code_at: t.arg2, buffer: t.arg3, len: room(t.arg4) };
        if !u.writable(t.arg2 as int, 4) || !u.writable(t.arg3 as int, room(t.arg4) as int) {
            n == m && a == ends(haiku::B_BAD_ADDRESS)
        } else {
            let d = deadline(t.arg5 as u32, t.arg6 as i64, m.ticks);
            let (after, step) = m.read_step(id, d, true);
            n == after && read_leads_to(id, d, inbox, step, a)
        }
    } else if c == SYS_PORT_BUFFER_SIZE_ETC {
        let d = deadline(t.arg2 as u32, t.arg3 as i64, m.ticks);
        let (after, step) = m.read_step(id, d, false);
        n == after && a == size_leads_to(id, d, size_view(step))
    } else if c == SYS_PORT_COUNT {
        n == m && a == (match m.port_slot(id) {
            Some(s) => ends((m.ports[s]->0).queue.len() as i32),
            None => ends(haiku::B_BAD_PORT_ID),
        })
    } else if c == SYS_CLOSE_PORT {
        match m.port_slot(id) {
            Some(s) if !(m.ports[s]->0).closed => {
                &&& a == ends(haiku::B_OK)
                &&& n == m.with_port(
                    s,
                    Some(PortModel { closed: true, ..m.ports[s]->0 }),
                ).wake_port_waiters(s as usize, NR_PROCS as int)
            },
            _ => n == m && a == ends(haiku::B_BAD_PORT_ID),
        }
    } else if c == SYS_DELETE_PORT {
        match m.port_slot(id) {
            Some(s) => n == m.delete_port_slot(s) && a == ends(haiku::B_OK),
            None => n == m && a == ends(haiku::B_BAD_PORT_ID),
        }
    } else if c == SYS_GET_PORT_INFO {
        n == m && if !u.writable(t.arg2 as int, PORT_INFO_BYTES as int) {
            a == ends(haiku::B_BAD_ADDRESS)
        } else {
            match m.port_slot(id) {
                Some(s) => a matches Action::PortInfo { at, info } && at == t.arg2 && info@
                    == info_bytes(id, m.ports[s]->0),
                None => a == ends(haiku::B_BAD_PORT_ID),
            }
        }
    } else if c == SYS_SET_PORT_OWNER {
        let team = t.arg2 as i32;
        match m.port_slot(id) {
            None => n == m && a == ends(haiku::B_BAD_PORT_ID),
            Some(s) => if !m.team_lives(team) {
                n == m && a == ends(haiku::B_BAD_TEAM_ID)
            } else {
                &&& a == ends(haiku::B_OK)
                &&& n == m.with_port(s, Some(PortModel { owner_team: team, ..m.ports[s]->0 }))
            },
        }
    } else {
        n == m && a == Action::Return(((m.ticks * 1000000 / (pit::HZ as int)) as i64) as u64)
    }
}

/// Append a number as four bytes.
fn put_int(v: &mut Vec<u8>, x: i32)
    ensures
        final(v)@ == old(v)@ + int_bytes(x),
{
    let w: u32 = x as u32;
    let ghost before = v@;
    v.push((w % 0x100) as u8);
    v.push((w / 0x100 % 0x100) as u8);
    v.push((w / 0x1_0000 % 0x100) as u8);
    v.push((w / 0x100_0000 % 0x100) as u8);
    assert(v@ =~= before + int_bytes(x));
}

/// How a port is described in the caller's memory.
pub fn describe_port(i: &PortInfo) -> (v: Vec<u8>)
    ensures
        v@ == int_bytes(i.port) + int_bytes(i.team) + i.name@ + int_bytes(i.capacity) + int_bytes(
            i.queue_count,
        ) + int_bytes(i.total_count),
        v@.len() == PORT_INFO_BYTES,
{
    let mut v: Vec<u8> = Vec::new();
    put_int(&mut v, i.port);
    put_int(&mut v, i.team);
    let ghost head = int_bytes(i.port) + int_bytes(i.team);
    assert(v@ =~= head);
    let mut k: usize = 0;
    while k < B_OS_NAME_LENGTH
        invariant
            k <= B_OS_NAME_LENGTH,
            i.name@.len() == B_OS_NAME_LENGTH,
            v@ == head + i.name@.take(k as int),
        decreases B_OS_NAME_LENGTH - k,
    {
        v.push(i.name[k]);
        k = k + 1;
        assert(v@ =~= head + i.name@.take(k as int));
    }
    assert(i.name@.take(k as int) =~= i.name@);
    put_int(&mut v, i.capacity);
    put_int(&mut v, i.queue_count);
    put_int(&mut v, i.total_count);
    v
}

/// What goes into the caller's buffer of a message that was read.
fn fit(data: Vec<u8>, len: u64) -> (v: Vec<u8>)
    ensures
        v@ == fitting(data@, len),
{
    if data.len() as u64 <= len {
        return data;
    }
    let mut v = data;
    v.truncate(len as usize);
    v
}

/// What an attempt at reading leads to.
fn after_read(
    id: i32,
    deadline: Option<u64>,
    inbox: Inbox,
    step: Step<Result<(i32, Vec<u8>), i32>>,
) -> (a: Action)
    ensures
        read_leads_to(id, Ok(deadline), inbox, read_view(step), a),
{
    match step {
        Step::Done(Ok((code, data))) => Action::PortMessage {
            code_at: inbox.code_at,
            code,
            buffer: inbox.buffer,
            data: fit(data, inbox.len),
        },
        Step::Done(Err(status)) => Action::Return(status as u64),
        Step::Blocked => Action::PortRead { id, deadline, inbox },
    }
}

/// The start of the name at `ptr`, as much as a port keeps, if the caller
/// owns it.
fn name_from(user: &CallerMemory, ptr: u64, len: u64) -> (r: Option<Vec<u8>>)
    requires
        user.wf(),
    ensures
        r is Some == user.readable(ptr as int, name_read(len)),
        r matches Some(v) ==> v@ == user.bytes(ptr as int, name_read(len)),
{
    let n: usize = if len > (B_OS_NAME_LENGTH - 1) as u64 {
        B_OS_NAME_LENGTH - 1
    } else {
        len as usize
    };
    match user.copy_from_caller(ptr, n) {
        Ok(v) => Some(v),
        Err(_) => None,
    }
}

/// When a wait gives up, as far as there is one.
fn known_deadline(d: Result<Option<u64>, i32>) -> (r: Option<u64>)
    ensures
        d is Ok ==> d == Ok::<Option<u64>, i32>(r),
{
    match d {
        Ok(d) => d,
        Err(_) => None,
    }
}

/// Write a message of the caller's to a port.
fn write_call(sched: &mut Scheduler, user: &CallerMemory, t: Trap) -> (a: Action)
    requires
        old(sched).wf(),
        user.wf(),
        holds_process(old(sched)@.procs[old(sched)@.current]),
        t.call_num == SYS_WRITE_PORT_ETC,
    ensures
        final(sched).wf(),
        port_answers(old(sched)@, *user, t, final(sched)@, a),
{
    if t.arg4 > PORT_MAX_MESSAGE as u64 {
        return Action::Return(haiku::B_BAD_VALUE as u64);
    }
    let data = match user.copy_from_caller(t.arg3, t.arg4 as usize) {
        Ok(v) => v,
        Err(_) => {
            return Action::Return(haiku::B_BAD_ADDRESS as u64);
        },
    };
    let id: i32 = t.arg1 as i32;
    let flags: u32 = t.arg5 as u32;
    let timeout: i64 = t.arg6 as i64;
    let d = deadline_for(flags, timeout, uptime_ticks(sched));
    match port_write(sched, id, t.arg2 as i32, data, flags, timeout) {
        Step::Done(status) => Action::Return(status as u64),
        Step::Blocked => Action::PortWrite { id, deadline: known_deadline(d) },
    }
}

/// Read a message of a port's into the caller's memory.
fn read_call(sched: &mut Scheduler, user: &CallerMemory, t: Trap) -> (a: Action)
    requires
        old(sched).wf(),
        user.wf(),
        holds_process(old(sched)@.procs[old(sched)@.current]),
        t.call_num == SYS_READ_PORT_ETC,
    ensures
        final(sched).wf(),
        port_answers(old(sched)@, *user, t, final(sched)@, a),
{
    let len: u64 = if t.arg4 > PORT_MAX_MESSAGE as u64 {
        PORT_MAX_MESSAGE as u64
    } else {
        t.arg4
    };
    if !user.can_write(t.arg2, 4) || !user.can_write(t.arg3, len as usize) {
        return Action::Return(haiku::B_BAD_ADDRESS as u64);
    }
    let id: i32 = t.arg1 as i32;
    let flags: u32 = t.arg5 as u32;
    let timeout: i64 = t.arg6 as i64;
    let d = deadline_for(flags, timeout, uptime_ticks(sched));
    let inbox = Inbox { code_at: t.arg2, buffer: t.arg3, len };
    let step = port_read(sched, id, flags, timeout);
    after_read(id, known_deadline(d), inbox, step)
}

/// Decide what is to be done about `t`, a system call on ports by the
/// running process, whose memory is `user`.
pub fn port_call(sched: &mut Scheduler, user: &CallerMemory, t: Trap) -> (a: Action)
    requires
        old(sched).wf(),
        user.wf(),
        holds_process(old(sched)@.procs[old(sched)@.current]),
        on_ports(t.call_num),
        t.call_num == SYS_SYSTEM_TIME ==> old(sched)@.ticks * 1000000 <= i64::MAX,
    ensures
        final(sched).wf(),
        port_answers(old(sched)@, *user, t, final(sched)@, a),
{
    let c: u64 = t.call_num;
    let id: i32 = t.arg1 as i32;
    if c == SYS_CREATE_PORT {
        return match name_from(user, t.arg2, t.arg3) {
            Some(name) => Action::Return(port_create(sched, t.arg1 as i32, &name) as u64),
            None => Action::Return(haiku::B_BAD_ADDRESS as u64),
        };
    }
    if c == SYS_FIND_PORT {
        return match name_from(user, t.arg1, t.arg2) {
            Some(name) => Action::Return(port_find(sched, &name) as u64),
            None => Action::Return(haiku::B_BAD_ADDRESS as u64),
        };
    }
    if c == SYS_WRITE_PORT_ETC {
        return write_call(sched, user, t);
    }
    if c == SYS_READ_PORT_ETC {
        return read_call(sched, user, t);
    }
    if c == SYS_PORT_BUFFER_SIZE_ETC {
        let d = deadline_for(t.arg2 as u32, t.arg3 as i64, uptime_ticks(sched));
        return match port_buffer_size(sched, id, t.arg2 as u32, t.arg3 as i64) {
            Step::Done(size) => Action::Return(size as u64),
            Step::Blocked => Action::PortSize { id, deadline: known_deadline(d) },
        };
    }
    if c == SYS_PORT_COUNT {
        return Action::Return(port_count(sched, id) as u64);
    }
    if c == SYS_CLOSE_PORT {
        return Action::Return(port_close(sched, id) as u64);
    }
    if c == SYS_DELETE_PORT {
        return Action::Return(port_delete(sched, id) as u64);
    }
    if c == SYS_GET_PORT_INFO {
        if !user.can_write(t.arg2, PORT_INFO_BYTES) {
            return Action::Return(haiku::B_BAD_ADDRESS as u64);
        }
        return match port_info(sched, id) {
            Ok(info) => Action::PortInfo { at: t.arg2, info: describe_port(&info) },
            Err(status) => Action::Return(status as u64),
        };
    }
    if c == SYS_SET_PORT_OWNER {
        return Action::Return(port_set_owner(sched, id, t.arg2 as i32) as u64);
    }
    Action::Return(system_time_us(sched) as u64)
}

/// Whether a message of the running process waits for room in a port.
pub fn message_waits(sched: &Scheduler) -> (r: bool)
    requires
        sched.wf(),
    ensures
        r == (sched@.pending[sched@.current] is Some),
{
    sched.has_pending(sched.current_slot())
}

/// Go on with a write to port `id`, now that the running process was woken.
pub fn write_on(sched: &mut Scheduler, id: i32, deadline: Option<u64>) -> (a: Action)
    requires
        old(sched).wf(),
        holds_process(old(sched)@.procs[old(sched)@.current]),
        old(sched)@.pending[old(sched)@.current] is Some,
    ensures
        final(sched).wf(),
        ({
            let m = old(sched)@;
            if m.procs[m.current].timed_out {
                a == ends(haiku::B_TIMED_OUT) && final(sched)@ == m.timeout_seen().give_up_write()
            } else {
                let (after, step) = m.timeout_seen().write_step(id, Ok(deadline));
                final(sched)@ == after && a == write_leads_to(id, Ok(deadline), step)
            }
        }),
{
    match port_write_again(sched, id, deadline) {
        Step::Done(status) => Action::Return(status as u64),
        Step::Blocked => Action::PortWrite { id, deadline },
    }
}

/// Go on with a read from port `id`, now that the running process was woken.
pub fn read_on(sched: &mut Scheduler, id: i32, deadline: Option<u64>, inbox: Inbox) -> (a: Action)
    requires
        old(sched).wf(),
        holds_process(old(sched)@.procs[old(sched)@.current]),
    ensures
        final(sched).wf(),
        ({
            let m = old(sched)@;
            if m.procs[m.current].timed_out {
                a == ends(haiku::B_TIMED_OUT) && final(sched)@ == m.timeout_seen()
            } else {
                let (after, step) = m.timeout_seen().read_step(id, Ok(deadline), true);
                final(sched)@ == after && read_leads_to(id, Ok(deadline), inbox, step, a)
            }
        }),
{
    let step = port_read_again(sched, id, deadline);
    after_read(id, deadline, inbox, step)
}

/// Go on waiting for the size of the next message of port `id`, now that the
/// running process was woken.
pub fn size_on(sched: &mut Scheduler, id: i32, deadline: Option<u64>) -> (a: Action)
    requires
        old(sched).wf(),
        holds_process(old(sched)@.procs[old(sched)@.current]),
    ensures
        final(sched).wf(),
        ({
            let m = old(sched)@;
            if m.procs[m.current].timed_out {
                a == ends(haiku::B_TIMED_OUT) && final(sched)@ == m.timeout_seen()
            } else {
                let (after, step) = m.timeout_seen().read_step(id, Ok(deadline), false);
                final(sched)@ == after && a == size_leads_to(id, Ok(deadline), size_view(step))
            }
        }),
{
    match port_buffer_size_again(sched, id, deadline) {
        Step::Done(size) => Action::Return(size as u64),
        Step::Blocked => Action::PortSize { id, deadline },
    }
}

/// What one program writes to an empty port another one reads, whatever the
/// timeouts: the code, and as many of the bytes as its buffer takes.
pub proof fn message_travels(
    m: SchedModel,
    u: CallerMemory,
    w: Trap,
    n: SchedModel,
    a: Action,
    reader: int,
    v: CallerMemory,
    r: Trap,
    after: SchedModel,
    b: Action,
)
    requires
        sound(m),
        w.call_num == SYS_WRITE_PORT_ETC,
        r.call_num == SYS_READ_PORT_ETC,
        w.arg1 as i32 == r.arg1 as i32,
        // The port is there, open, empty, and there is room for the bytes.
        ({
            let s = m.port_slot(w.arg1 as i32);
            &&& s is Some
            &&& !(m.ports[s->0]->0).closed
            &&& (m.ports[s->0]->0).queue.len() == 0
            &&& total_bytes(m.ports) + w.arg4 <= PORT_QUEUE_BYTES
        }),
        // The programs own what they name.
        w.arg4 <= PORT_MAX_MESSAGE,
        u.readable(w.arg3 as int, w.arg4 as int),
        v.writable(r.arg2 as int, 4),
        v.writable(r.arg3 as int, room(r.arg4) as int),
        port_answers(m, u, w, n, a),
        port_answers((SchedModel { current: reader, ..n }), v, r, after, b),
    ensures
        a == ends(haiku::B_OK),
        b matches Action::PortMessage { code_at, code, buffer, data } && code_at == r.arg2 && code
            == w.arg2 as i32 && buffer == r.arg3 && data@ == fitting(
            u.bytes(w.arg3 as int, w.arg4 as int),
            room(r.arg4),
        ),
{
    let id = w.arg1 as i32;
    let s = m.port_slot(id)->0;
    let message = (w.arg2 as i32, u.bytes(w.arg3 as int, w.arg4 as int));
    let begun = m.with_pending(m.current, Some(message));
    ports_sound(m, begun, Set::empty());
    assert(port_ok(m.ports[s]->0));
    let dw = deadline(w.arg5 as u32, w.arg6 as i64, m.ticks);
    let dr = deadline(r.arg5 as u32, r.arg6 as i64, n.ticks);
    port_is_a_queue(begun, id, s, dw, dr);
}

} // verus!
