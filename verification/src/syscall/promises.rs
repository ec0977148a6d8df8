//! What a program may rely on when it makes a system call: which call does
//! what, that its arguments reach the kernel, and that the kernel takes
//! nothing but the program's own memory.
use vstd::prelude::*;

use vstd::utf8::valid_utf8;

use crate::bytes::le64;
use crate::com;
use crate::com::slot_of;
use crate::fs;
use crate::memory::paging::{p4_slot, slots_unused};
use crate::memory::walk::{mapped, page_at, Mapped};
use crate::proc::births::first_holds;
use crate::proc::endings::Step;
use crate::proc::haiku;
use crate::proc::laws::{wake_all_keeps_ports, wake_keeps_ports};
use crate::proc::mailboxes::{all_woken, woken_from};
use crate::proc::model::{PortModel, Proc, SchedModel, NR_PROCS, PORT_MAX_MESSAGE};
use crate::proc::ports::deadline;
use crate::proc::queries::running_members;
use crate::proc::rts;
use crate::proc::rts::flagged;
use crate::proc::soundness::{holds_process, port_ok, slot_ok, sound};
use crate::rt::os::{call6, Call6};
use crate::rt::sys;
use crate::rt::sys::{call, low32, low64, Call};
use crate::syscall::caller;
use crate::syscall::caller::{cost, views, CallerMemory};
use crate::syscall::dispatch;
use crate::syscall::dispatch::{answers, Action, Trap};
use crate::syscall::ports::{info_bytes, int_bytes};

verus! {

/// What the kernel sees of a call of a program in ring 3.
pub open spec fn trap_of(c: Call, cs: u64) -> Trap {
    Trap {
        call_num: c.number,
        arg1: c.args[0],
        arg2: c.args[1],
        arg3: c.args[2],
        arg4: c.args[3],
        arg5: 0,
        arg6: 0,
        cs,
    }
}

/// What the kernel sees of a call with six arguments.
pub open spec fn trap_of6(c: Call6, cs: u64) -> Trap {
    Trap {
        call_num: c.number,
        arg1: c.args[0],
        arg2: c.args[1],
        arg3: c.args[2],
        arg4: c.args[3],
        arg5: c.args[4],
        arg6: c.args[5],
        cs,
    }
}

/// Numbers with a sign go into a register and come out of it as they were.
pub proof fn signed_arguments_survive(n: i32, w: i64)
    ensures
        0 <= low32(n) < 0x1_0000_0000,
        (low32(n) as u64) as i32 == n,
        0 <= low64(w) <= u64::MAX,
        (low64(w) as u64) as i64 == w,
{
    let a = low32(n) as u64;
    let b = low64(w) as u64;
    assert(a as i32 == n) by (bit_vector)
        requires
            a == (if n < 0 {
                n + 0x1_0000_0000
            } else {
                n as int
            }),
    ;
    assert(b as i64 == w) by (bit_vector)
        requires
            b == (if w < 0 {
                w + 0x1_0000_0000_0000_0000
            } else {
                w as int
            }),
    ;
}

/// Each argument of a call is in the register of its place.
pub proof fn arguments_are_in_their_places(number: u64, a: u64, b: u64, c: u64, d: u64, cs: u64)
    ensures
        ({
            let t = trap_of(call(number, a, b, c, d), cs);
            t.call_num == number && t.arg1 == a && t.arg2 == b && t.arg3 == c && t.arg4 == d
        }),
{
}

/// So is each of six.
pub proof fn six_arguments_are_in_their_places(
    number: u64,
    a: u64,
    b: u64,
    c: u64,
    d: u64,
    e: u64,
    f: u64,
    cs: u64,
)
    ensures
        ({
            let t = trap_of6(
                call6(number, a as int, b as int, c as int, d as int, e as int, f as int),
                cs,
            );
            t.call_num == number && t.arg1 == a && t.arg2 == b && t.arg3 == c && t.arg4 == d
                && t.arg5 == e && t.arg6 == f
        }),
{
}

/// Which call is which, for those that need nothing but their arguments, and
/// that none of them changes the process table; a number that is no call is
/// answered with minus four.
pub proof fn calls_by_number(m: SchedModel, u: CallerMemory, t: Trap, n: SchedModel, a: Action)
    requires
        answers(m, u, t, n, a),
    ensures
        t.call_num == 1 ==> n == m && a == Action::Return(m.ticks),
        t.call_num == 3 ==> n == m && a == Action::BlockForever,
        t.call_num == 5 ==> n == m && a == Action::WaitAlarm,
        t.call_num == 13 && t.cs & 3 == 3 ==> n == m && a == Action::Exit(t.arg1 as i32),
        t.call_num == 13 && t.cs & 3 != 3 ==> n == m && a == Action::Return(0xffff_ffff_ffff_fff5),
        t.call_num == 17 ==> n == m && a == (Action::Close { fd: t.arg1 as i64 }),
        t.call_num == 0 || t.call_num > 38 || 20 <= t.call_num <= 27 ==> n == m && a
            == Action::Return(0xffff_ffff_ffff_fffc),
{
}

/// An alarm rings so many ticks from now, replaces the one before, and
/// nothing else changes.
pub proof fn alarm_call_sets_the_alarm(m: SchedModel, u: CallerMemory, t: Trap, n: SchedModel, a: Action)
    requires
        sound(m),
        answers(m, u, t, n, a),
        t.call_num == 4,
        m.ticks + t.arg1 <= u64::MAX,
    ensures
        a == Action::Return(0),
        n.procs[m.current].alarm matches Some(at) && at == m.ticks + t.arg1,
        n.procs[m.current] == (Proc { alarm: n.procs[m.current].alarm, ..m.procs[m.current] }),
        n == m.put(m.current, n.procs[m.current]),
{
}

/// Whether `v` is the caller's `len` bytes at `ptr`, one by one.
pub open spec fn taken_from(u: CallerMemory, ptr: u64, len: u64, v: Seq<u8>) -> bool {
    &&& v.len() == len
    &&& forall|k: int| 0 <= k < len ==> u.byte(ptr + k) == Some(#[trigger] v[k])
}

/// Whether a byte of the `len` at `ptr` is not the caller's own.
pub open spec fn reaches_beyond(u: CallerMemory, ptr: u64, len: u64) -> bool {
    exists|k: int| 0 <= k < len && (#[trigger] u.byte(ptr + k)) is None
}

proof fn beyond_is_unreadable(u: CallerMemory, ptr: u64, len: u64)
    ensures
        reaches_beyond(u, ptr, len) <==> !u.readable(ptr as int, len as int),
        !reaches_beyond(u, ptr, len) ==> taken_from(u, ptr, len, u.bytes(ptr as int, len as int)),
{
    if !u.readable(ptr as int, len as int) {
        let i = choose|i: int| ptr <= i < ptr + len && (#[trigger] u.byte(i)) is None;
        assert(u.byte(ptr + (i - ptr)) is None);
    }
    if reaches_beyond(u, ptr, len) {
        let k = choose|k: int| 0 <= k < len && (#[trigger] u.byte(ptr + k)) is None;
        assert(u.byte(ptr + k) is None);
    }
    if !reaches_beyond(u, ptr, len) {
        let v = u.bytes(ptr as int, len as int);
        assert forall|k: int| 0 <= k < len implies u.byte(ptr + k) == Some(#[trigger] v[k]) by {
            assert(u.byte(ptr + k) is Some);
        }
    }
}

/// A call that takes bytes of the caller's takes exactly those it was
/// pointed at, and only if all of them are the caller's own and they are at
/// most 256: the log and the console, and the name or the contents of a
/// file.
pub proof fn bytes_are_the_callers_own(
    m: SchedModel,
    u: CallerMemory,
    t: Trap,
    n: SchedModel,
    a: Action,
)
    requires
        answers(m, u, t, n, a),
        t.call_num == 2 || t.call_num == 6 || t.call_num == 7 || t.call_num == 15 || t.call_num
            == 16 || t.call_num == 19,
    ensures
        n == m,
        ({
            let ptr = if t.call_num == 7 {
                t.arg2
            } else {
                t.arg1
            };
            let len = if t.call_num == 7 {
                t.arg3
            } else {
                t.arg2
            };
            &&& len > 256 ==> a == Action::Return(0xffff_ffff_ffff_ffff)
            &&& len <= 256 && reaches_beyond(u, ptr, len) ==> a == Action::Return(0xffff_ffff_ffff_fff4)
            &&& len <= 256 && !reaches_beyond(u, ptr, len) ==> {
                ||| t.call_num != 7 && t.call_num != 16 && a == Action::Return(0xffff_ffff_ffff_fffe)
                ||| t.call_num == 2 && (a matches Action::Log(v) && taken_from(u, ptr, len, v@))
                ||| t.call_num == 6 && (a matches Action::Open(v) && taken_from(u, ptr, len, v@))
                ||| t.call_num == 7 && (a matches Action::Write { fd, data } && fd == t.arg1 as i64
                    && taken_from(u, ptr, len, data@))
                ||| t.call_num == 15 && (a matches Action::OpenExisting(v) && taken_from(
                    u,
                    ptr,
                    len,
                    v@,
                ))
                ||| t.call_num == 16 && (a matches Action::Console(v) && taken_from(u, ptr, len, v@))
                ||| t.call_num == 19 && (a matches Action::Mkdir(v) && taken_from(u, ptr, len, v@))
            }
        }),
{
    beyond_is_unreadable(u, t.arg1, t.arg2);
    beyond_is_unreadable(u, t.arg2, t.arg3);
}

/// Whether all of the `len` bytes at `ptr` are the caller's own and may be
/// written.
pub open spec fn may_be_filled(u: CallerMemory, ptr: u64, len: u64) -> bool {
    forall|k: int|
        0 <= k < len ==> (#[trigger] u.byte(ptr + k)) is Some && u.page_of(ptr + k) is Some && (
        u.page_of(ptr + k)->0).writable
}

proof fn filled_is_writable(u: CallerMemory, ptr: u64, len: u64)
    ensures
        may_be_filled(u, ptr, len) <==> u.writable(ptr as int, len as int),
{
    if u.writable(ptr as int, len as int) {
        assert forall|k: int| 0 <= k < len implies (#[trigger] u.byte(ptr + k)) is Some && u.page_of(
            ptr + k,
        ) is Some && (u.page_of(ptr + k)->0).writable by {
            assert(u.byte(ptr + k) is Some);
        }
    }
    if may_be_filled(u, ptr, len) {
        assert forall|i: int| ptr <= i < ptr + len implies (#[trigger] u.byte(i)) is Some && (u.page_of(
            i,
        )->0).writable by {
            assert(u.byte(ptr + (i - ptr)) is Some);
        }
    }
}

/// A call that fills a buffer of the caller's, from a file or the keyboard,
/// fills at most 256 bytes of the one it was pointed at, and only if the
/// caller may write all of them; so does one that reports a directory entry,
/// with 128.
pub proof fn only_the_callers_buffers_are_filled(
    m: SchedModel,
    u: CallerMemory,
    t: Trap,
    n: SchedModel,
    a: Action,
)
    requires
        answers(m, u, t, n, a),
        t.call_num == 8 || t.call_num == 9 || t.call_num == 18,
    ensures
        n == m,
        ({
            let asked = if t.call_num == 8 {
                t.arg3
            } else {
                t.arg2
            };
            let len = if asked > 256 {
                256
            } else {
                asked
            };
            &&& t.call_num == 8 ==> {
                if may_be_filled(u, t.arg2, len) {
                    a == (Action::Read { fd: t.arg1 as i64, buffer: t.arg2, len })
                } else {
                    a == Action::Return(0xffff_ffff_ffff_fff4)
                }
            }
            &&& t.call_num == 9 ==> {
                if may_be_filled(u, t.arg1, len) {
                    a == (Action::ReadLine { buffer: t.arg1, len })
                } else {
                    a == Action::Return(0xffff_ffff_ffff_fff4)
                }
            }
            &&& t.call_num == 18 ==> {
                ||| a is Return
                ||| a matches Action::Readdir { path, index, entry } && t.arg2 <= 256 && taken_from(
                    u,
                    t.arg1,
                    t.arg2,
                    path@,
                ) && index == t.arg3 && entry == t.arg4 && may_be_filled(u, t.arg4, 128)
            }
        }),
{
    let at_most = if t.arg3 > 256 {
        256
    } else {
        t.arg3
    };
    let line = if t.arg2 > 256 {
        256
    } else {
        t.arg2
    };
    filled_is_writable(u, t.arg2, at_most);
    filled_is_writable(u, t.arg1, line);
    filled_is_writable(u, t.arg4, 128);
    beyond_is_unreadable(u, t.arg1, t.arg2);
}

/// A copy from another process moves as many bytes as asked, at most 256,
/// from where it was asked to where it was asked, if the process is there,
/// the source is where the kernel has nothing and the caller may write the
/// destination; nothing is copied otherwise.
pub proof fn copy_call_copies_what_it_names(
    m: SchedModel,
    u: CallerMemory,
    t: Trap,
    n: SchedModel,
    a: Action,
)
    requires
        answers(m, u, t, n, a),
        t.call_num == 10,
    ensures
        n == m,
        t.arg4 == 0 ==> a == Action::Return(0),
        t.arg4 > 256 ==> a == Action::Return(0xffff_ffff_ffff_ffff),
        0 < t.arg4 <= 256 ==> {
            ||| a == Action::Return(0xffff_ffff_ffff_fffd)
            ||| {
                &&& a == (Action::Vircopy {
                    src_proc: t.arg1 as i32,
                    src: t.arg2,
                    dst: t.arg3,
                    len: t.arg4,
                })
                &&& m.valid_nr(t.arg1 as i32)
                &&& may_be_filled(u, t.arg3, t.arg4)
                &&& slots_unused(u.kernel@, t.arg2, (t.arg2 + t.arg4 - 1) as u64)
            }
        },
        0 < t.arg4 <= 256 && m.valid_nr(t.arg1 as i32) && may_be_filled(u, t.arg3, t.arg4) && t.arg2
            + t.arg4 <= 0x8000_0000_0000 && slots_unused(
            u.kernel@,
            t.arg2,
            (t.arg2 + t.arg4 - 1) as u64,
        ) ==> a is Vircopy,
{
    filled_is_writable(u, t.arg3, t.arg4);
}

/// A fork claims the first free number for the child, which is to have the
/// memory of the caller's team and its own best priority, quantum and
/// preemptibility. It is refused to a caller without memory, and if every
/// number is taken; then nothing is claimed.
pub proof fn fork_call_claims_a_number(m: SchedModel, u: CallerMemory, t: Trap, n: SchedModel, a: Action)
    requires
        sound(m),
        holds_process(m.procs[m.current]),
        answers(m, u, t, n, a),
        t.call_num == 11,
    ensures
        ({
            let p = m.procs[m.current];
            let own = m.procs[slot_of(p.team)].mem_map;
            match a {
                Action::Fork { child, priority, quantum, preemptible, map } => {
                    &&& own@.len() > 0
                    &&& map == own
                    &&& priority == p.max_priority
                    &&& quantum == p.quantum_size
                    &&& preemptible == p.preemptible
                    &&& com::FIRST_DYNAMIC_PROC_NR <= child < com::FIRST_DYNAMIC_PROC_NR
                        + com::NR_DYNAMIC_PROCS
                    &&& flagged(m.flags(slot_of(child)), rts::SLOT_FREE)
                    &&& n.flags(slot_of(child)) == rts::RESERVED
                    &&& forall|nr: i32|
                        com::FIRST_DYNAMIC_PROC_NR <= nr < child ==> !flagged(
                            m.flags(#[trigger] slot_of(nr)),
                            rts::SLOT_FREE,
                        )
                },
                Action::Return(e) => {
                    &&& n == m
                    &&& e == 0xffff_ffff_ffff_fffb || e == 0xffff_ffff_ffff_fff8
                    &&& e == 0xffff_ffff_ffff_fffb <==> own@.len() == 0
                    &&& e == 0xffff_ffff_ffff_fff8 ==> forall|nr: i32|
                        com::FIRST_DYNAMIC_PROC_NR <= nr < com::FIRST_DYNAMIC_PROC_NR
                            + com::NR_DYNAMIC_PROCS ==> !flagged(
                            m.flags(#[trigger] slot_of(nr)),
                            rts::SLOT_FREE,
                        )
                },
                _ => false,
            }
        }),
{
    let c = m.current;
    let p = m.procs[c];
    assert(slot_ok(p, c, m.sem_seq));
    assert(slot_of(p.proc_nr) == c);
    let f = |k: int|
        flagged(m.flags(slot_of((com::FIRST_DYNAMIC_PROC_NR + k) as i32)), rts::SLOT_FREE);
    first_holds(0, com::NR_DYNAMIC_PROCS as int, f);
    match m.free_dynamic() {
        Some(k) => {
            assert(f(k));
            assert forall|nr: i32|
                com::FIRST_DYNAMIC_PROC_NR <= nr < com::FIRST_DYNAMIC_PROC_NR + k implies !flagged(
                m.flags(#[trigger] slot_of(nr)),
                rts::SLOT_FREE,
            ) by {
                assert(!f(nr - com::FIRST_DYNAMIC_PROC_NR));
            }
        },
        None => {
            assert forall|nr: i32|
                com::FIRST_DYNAMIC_PROC_NR <= nr < com::FIRST_DYNAMIC_PROC_NR
                    + com::NR_DYNAMIC_PROCS implies !flagged(
                m.flags(#[trigger] slot_of(nr)),
                rts::SLOT_FREE,
            ) by {
                assert(!f(nr - com::FIRST_DYNAMIC_PROC_NR));
            }
        },
    }
}

/// A wait puts the status where the caller asked, if the caller may write
/// four bytes there or asked for none; it is for programs in ring 3.
pub proof fn wait_call_names_its_status(m: SchedModel, u: CallerMemory, t: Trap, n: SchedModel, a: Action)
    requires
        answers(m, u, t, n, a),
        t.call_num == 14,
    ensures
        n == m,
        t.cs & 3 != 3 ==> a == Action::Return(0xffff_ffff_ffff_fff5),
        t.cs & 3 == 3 && (t.arg1 == 0 || may_be_filled(u, t.arg1, 4)) ==> a == (Action::Wait {
            status: t.arg1,
        }),
        t.cs & 3 == 3 && t.arg1 != 0 && !may_be_filled(u, t.arg1, 4) ==> a == Action::Return(
            0xffff_ffff_ffff_fff4,
        ),
{
    filled_is_writable(u, t.arg1, 4);
}

/// An exec runs the program at the path it was given, of at most 256 bytes,
/// for a caller in ring 3 that has no other thread running.
pub proof fn exec_call_runs_what_it_names(m: SchedModel, u: CallerMemory, t: Trap, n: SchedModel, a: Action)
    requires
        answers(m, u, t, n, a),
        t.call_num == 12,
    ensures
        n == m,
        a is Return || a is Exec,
        a matches Action::Exec { path, argv, envp } ==> {
            &&& t.arg2 <= 256
            &&& taken_from(u, t.arg1, t.arg2, path@)
            &&& t.cs & 3 == 3
            &&& running_members(m, m.procs[m.current].team) <= 1
        },
        t.arg2 > 256 ==> a == Action::Return(0xffff_ffff_ffff_ffff),
        t.cs & 3 != 3 ==> a is Return,
{
    beyond_is_unreadable(u, t.arg1, t.arg2);
}

/// Writing to a port hands over the code and exactly the bytes that the
/// caller was pointed at, at most 4096 and all its own, with its timeout.
pub proof fn port_write_call_takes_the_message(
    m: SchedModel,
    u: CallerMemory,
    t: Trap,
    n: SchedModel,
    a: Action,
)
    requires
        answers(m, u, t, n, a),
        t.call_num == 30,
    ensures
        t.arg4 > 4096 ==> n == m && a == Action::Return(haiku::B_BAD_VALUE as u64),
        t.arg4 <= 4096 && reaches_beyond(u, t.arg3, t.arg4) ==> n == m && a == Action::Return(
            haiku::B_BAD_ADDRESS as u64,
        ),
        t.arg4 <= 4096 && !reaches_beyond(u, t.arg3, t.arg4) ==> exists|data: Seq<u8>|
            {
                let d = crate::proc::ports::deadline(t.arg5 as u32, t.arg6 as i64, m.ticks);
                let (after, step) = m.with_pending(
                    m.current,
                    Some((t.arg2 as i32, data)),
                ).write_step(t.arg1 as i32, d);
                &&& #[trigger] taken_from(u, t.arg3, t.arg4, data)
                &&& n == after
                &&& match step {
                    Step::Done(status) => a == Action::Return(status as u64),
                    Step::Blocked => a == (Action::PortWrite {
                        id: t.arg1 as i32,
                        deadline: d->Ok_0,
                    }),
                }
            },
{
    beyond_is_unreadable(u, t.arg3, t.arg4);
    let data = u.bytes(t.arg3 as int, t.arg4 as int);
    if !reaches_beyond(u, t.arg3, t.arg4) {
        assert(taken_from(u, t.arg3, t.arg4, data));
    }
}

/// Reading from a port gives the caller the code and as much of the message
/// as there is room for, where it asked for them, if it may write there.
pub proof fn port_read_call_fills_the_inbox(
    m: SchedModel,
    u: CallerMemory,
    t: Trap,
    n: SchedModel,
    a: Action,
)
    requires
        answers(m, u, t, n, a),
        t.call_num == 31,
        t.arg4 <= 4096,
    ensures
        !(may_be_filled(u, t.arg2, 4) && may_be_filled(u, t.arg3, t.arg4)) ==> n == m && a
            == Action::Return(haiku::B_BAD_ADDRESS as u64),
        may_be_filled(u, t.arg2, 4) && may_be_filled(u, t.arg3, t.arg4) ==> {
            let d = crate::proc::ports::deadline(t.arg5 as u32, t.arg6 as i64, m.ticks);
            let (after, step) = m.read_step(t.arg1 as i32, d, true);
            &&& n == after
            &&& match step {
                Step::Done(Ok(message)) => a matches Action::PortMessage { code_at, code, buffer, data }
                    && code_at == t.arg2 && buffer == t.arg3 && code == message.0 && data@.len()
                    <= t.arg4 && data@.len() <= message.1.len() && (data@.len() == t.arg4
                    || data@.len() == message.1.len()) && (forall|k: int|
                    0 <= k < data@.len() ==> #[trigger] data@[k] == message.1[k]),
                Step::Done(Err(status)) => a == Action::Return(status as u64),
                Step::Blocked => a matches Action::PortRead { id, deadline, inbox } && id
                    == t.arg1 as i32 && deadline == d->Ok_0 && inbox.code_at == t.arg2
                    && inbox.buffer == t.arg3 && inbox.len == t.arg4,
            }
        },
{
    filled_is_writable(u, t.arg2, 4);
    filled_is_writable(u, t.arg3, t.arg4);
}

/// A number in four bytes is that number, lowest byte first.
pub proof fn numbers_lie_lowest_byte_first(x: i32)
    ensures
        int_bytes(x).len() == 4,
        int_bytes(x)[0] + 0x100 * int_bytes(x)[1] + 0x1_0000 * int_bytes(x)[2] + 0x100_0000
            * int_bytes(x)[3] == x as u32,
{
}

/// What of a name of that length the kernel reads: at most 31 bytes.
pub open spec fn name_len(len: u64) -> u64 {
    if len > 31 {
        31
    } else {
        len
    }
}

/// A port is created with the capacity and the name that were asked for, if
/// the name is the caller's own and the capacity is from 1 to 4096; the
/// answer is its id.
#[verifier::rlimit(50)]
pub proof fn create_call_makes_a_port(m: SchedModel, u: CallerMemory, t: Trap, n: SchedModel, a: Action)
    requires
        sound(m),
        answers(m, u, t, n, a),
        t.call_num == 28,
    ensures
        ({
            let len = name_len(t.arg3);
            let capacity = t.arg1 as i32;
            if reaches_beyond(u, t.arg2, len) {
                n == m && a == Action::Return(haiku::B_BAD_ADDRESS as u64)
            } else if capacity < 1 || capacity > 4096 {
                n == m && a == Action::Return(haiku::B_BAD_VALUE as u64)
            } else {
                match m.free_port() {
                    None => n == m && a == Action::Return(haiku::B_NO_MORE_PORTS as u64),
                    Some(s) => {
                        let p = n.ports[s]->0;
                        &&& n.ports[s] is Some
                        &&& p.capacity == capacity
                        &&& p.owner_team == m.procs[m.current].team
                        &&& p.queue.len() == 0
                        &&& forall|k: int|
                            0 <= k < len ==> u.byte(t.arg2 + k) == Some(#[trigger] p.name[k])
                        &&& a matches Action::Return(id) && n.port_slot(id as i32) == Some(s)
                    },
                }
            }
        }),
{
    let len = name_len(t.arg3);
    beyond_is_unreadable(u, t.arg2, len);
    let name = u.bytes(t.arg2 as int, len as int);
    if !reaches_beyond(u, t.arg2, len) && 1 <= t.arg1 as i32 <= 4096 {
        match m.free_port() {
            Some(s) => {
                let f = |s: int| m.ports[s] is None;
                first_holds(0, 64, f);
                assert(f(s));
                assert(m.port_generations[s] < crate::proc::model::PORT_GENERATIONS);
                let id = crate::proc::ports::port_id(
                    crate::proc::model::next_port_generation(m.port_generations[s]),
                    s,
                );
                assert(0 <= id);
                let p = n.ports[s]->0;
                assert forall|k: int| 0 <= k < len implies u.byte(t.arg2 + k) == Some(
                    #[trigger] p.name[k],
                ) by {
                    assert(u.byte(t.arg2 + k) == Some(name[k]));
                }
            },
            None => {},
        }
    }
}

proof fn named_port_is_there(m: SchedModel, name: Seq<u8>)
    requires
        sound(m),
    ensures
        m.port_named(name) matches Some(s) ==> 0 <= s < 64 && m.ports[s] is Some,
{
    let f = |s: int|
        m.ports[s] is Some && crate::proc::ports::name_part((m.ports[s]->0).name)
            == crate::proc::ports::kept_part(name);
    first_holds(0, 64, f);
    if m.port_named(name) is Some {
        assert(f(m.port_named(name)->0));
    }
}

/// A port is looked for by the bytes of the caller's name, and nothing
/// changes; the answer is its id, or that there is none.
pub proof fn find_call_looks_for_the_name(m: SchedModel, u: CallerMemory, t: Trap, n: SchedModel, a: Action)
    requires
        sound(m),
        answers(m, u, t, n, a),
        t.call_num == 29,
    ensures
        n == m,
        reaches_beyond(u, t.arg1, name_len(t.arg2)) ==> a == Action::Return(
            haiku::B_BAD_ADDRESS as u64,
        ),
        !reaches_beyond(u, t.arg1, name_len(t.arg2)) ==> exists|name: Seq<u8>|
            {
                &&& #[trigger] taken_from(u, t.arg1, name_len(t.arg2), name)
                &&& match m.port_named(name) {
                    None => a == Action::Return(haiku::B_NAME_NOT_FOUND as u64),
                    Some(s) => a matches Action::Return(id) && m.port_slot(id as i32) == Some(s),
                }
            },
{
    let len = name_len(t.arg2);
    beyond_is_unreadable(u, t.arg1, len);
    let name = u.bytes(t.arg1 as int, len as int);
    if !reaches_beyond(u, t.arg1, len) {
        assert(taken_from(u, t.arg1, len, name));
        match m.port_named(name) {
            Some(s) => {
                named_port_is_there(m, name);
                crate::proc::laws::port_ids_differ(m, s, s);
            },
            None => {},
        }
    }
}

/// The other calls on a port: how many messages it holds; closing and
/// deleting it; giving it to a team; and the time. Each names the port by
/// its first argument, and one that names none is answered with that.
pub proof fn port_calls_by_number(m: SchedModel, u: CallerMemory, t: Trap, n: SchedModel, a: Action)
    requires
        sound(m),
        answers(m, u, t, n, a),
    ensures
        ({
            let id = t.arg1 as i32;
            &&& 33 <= t.call_num <= 37 && t.call_num != 36 && m.port_slot(id) is None ==> n == m && a
                == Action::Return(haiku::B_BAD_PORT_ID as u64)
            &&& m.port_slot(id) matches Some(s) ==> {
                let p = m.ports[s]->0;
                &&& t.call_num == 33 ==> n == m && a == Action::Return(p.queue.len() as u64)
                &&& t.call_num == 34 && !p.closed ==> a == Action::Return(0) && n.ports[s] is Some
                    && (n.ports[s]->0).closed && (n.ports[s]->0).queue == p.queue
                &&& t.call_num == 34 && p.closed ==> n == m && a == Action::Return(
                    haiku::B_BAD_PORT_ID as u64,
                )
                &&& t.call_num == 35 ==> a == Action::Return(0) && n.ports[s] is None
                &&& t.call_num == 37 && m.team_lives(t.arg2 as i32) ==> a == Action::Return(0)
                    && n.ports[s] is Some && (n.ports[s]->0).owner_team == t.arg2 as i32 && (
                n.ports[s]->0).queue == p.queue
                &&& t.call_num == 37 && !m.team_lives(t.arg2 as i32) ==> n == m && a == Action::Return(
                    haiku::B_BAD_TEAM_ID as u64,
                )
            }
            &&& t.call_num == 38 && m.ticks * 1000000 <= i64::MAX ==> n == m && (a matches Action::Return(
                us,
            ) && us * 60 <= m.ticks * 1000000 && (us + 1) * 60 > m.ticks * 1000000)
        }),
{
    match m.port_slot(t.arg1 as i32) {
        Some(s) => {
            let p = m.ports[s]->0;
            assert(crate::proc::soundness::port_ok(p));
            crate::proc::laws::wake_keeps_ports(
                m.with_port(s, Some(crate::proc::model::PortModel { closed: true, ..p })),
                s as usize,
                crate::proc::model::NR_PROCS as int,
            );
            crate::proc::laws::wake_all_keeps_ports(
                m.with_port(s, None),
                crate::proc::model::NR_PROCS as int,
            );
        },
        None => {},
    }
}

/// A port is described by its id, its owner, its name, its capacity, how
/// many messages it holds and how many were read, in that order, four bytes
/// for each number and 32 for the name.
pub proof fn port_is_described_in_order(id: i32, p: crate::proc::model::PortModel, k: int)
    requires
        p.name.len() == 32,
        0 <= k < 4,
    ensures
        ({
            let d = info_bytes(id, p);
            &&& d.len() == 52
            &&& d[k] == int_bytes(id)[k]
            &&& d[4 + k] == int_bytes(p.owner_team)[k]
            &&& forall|j: int| 0 <= j < 32 ==> #[trigger] d[8 + j] == p.name[j]
            &&& d[40 + k] == int_bytes(p.capacity)[k]
            &&& d[44 + k] == int_bytes(p.queue.len() as i32)[k]
            &&& d[48 + k] == int_bytes(p.total_read)[k]
        }),
{
}

/// The numbers of the errors that a call may end with are the ones that a
/// program tells them by: the negative ones, in two's complement.
pub proof fn errors_are_known_to_programs()
    ensures
        dispatch::ERR_BAD_ELF - sys::ERR_BAD_ELF == 0x1_0000_0000_0000_0000,
        dispatch::ERR_NO_FREE_PROC - sys::ERR_NO_FREE_PROC == 0x1_0000_0000_0000_0000,
        dispatch::ERR_FORK_FAILED - sys::ERR_FORK_FAILED == 0x1_0000_0000_0000_0000,
        dispatch::ERR_NO_CHILDREN - sys::ERR_NO_CHILDREN == 0x1_0000_0000_0000_0000,
        dispatch::ERR_MULTITHREADED - sys::ERR_MULTITHREADED == 0x1_0000_0000_0000_0000,
        caller::ERR_BAD_ARG_PTR - sys::ERR_BAD_ARG_PTR == 0x1_0000_0000_0000_0000,
        caller::ERR_ARGS_TOO_BIG - sys::ERR_ARGS_TOO_BIG == 0x1_0000_0000_0000_0000,
        fs::ENOENT == sys::ENOENT,
        fs::EEXIST == sys::EEXIST,
        fs::ENOTDIR == sys::ENOTDIR,
        fs::EISDIR == sys::EISDIR,
        fs::EINVAL == sys::EINVAL,
{
}

/// A caller's byte is the one in memory that its page tables lead to, and
/// there is none in a slot that the kernel uses.
pub proof fn callers_bytes_are_where_it_has_them(u: CallerMemory, a: u64, p: u64)
    requires
        mapped(u.mem@, u.pml4, a) is Some,
        page_at(u.mem@, u.pml4, a) == Some(p),
    ensures
        u.kernel@[p4_slot(a)] == 0 ==> u.byte(a as int) == Some(u.mem@[p + a as int % 4096]),
        u.kernel@[p4_slot(a)] != 0 ==> u.byte(a as int) is None,
{
    reveal(CallerMemory::page_of);
}

/// A string of the caller's is its bytes up to the first zero byte, if those
/// and the zero byte cost no more than allowed.
pub proof fn string_ends_at_its_nul(u: CallerMemory, a: int, budget: int, n: int)
    requires
        0 <= n,
        forall|i: int| 0 <= i < n ==> (#[trigger] u.byte(a + i)) is Some && u.byte(a + i)->0 != 0,
        u.byte(a + n) == Some(0u8),
    ensures
        n < budget ==> (u.string_at(a, budget) matches Ok(s) && s.len() == n && forall|i: int|
            0 <= i < n ==> #[trigger] s[i] == u.byte(a + i)->0),
        n >= budget ==> u.string_at(a, budget) == Err::<Seq<u8>, u64>(0xffff_ffff_ffff_fff3),
    decreases n,
{
    if n == 0 {
        assert(a + 0 == a);
    } else {
        assert(u.byte(a + 0) is Some && u.byte(a + 0)->0 != 0);
        if budget > 0 {
            assert forall|i: int| 0 <= i < n - 1 implies (#[trigger] u.byte(a + 1 + i)) is Some
                && u.byte(a + 1 + i)->0 != 0 by {
                assert(u.byte(a + (1 + i)) is Some);
            }
            assert(a + 1 + (n - 1) == a + n);
            string_ends_at_its_nul(u, a + 1, budget - 1, n - 1);
            if n < budget {
                let rest = u.string_at(a + 1, budget - 1)->Ok_0;
                let s = u.string_at(a, budget)->Ok_0;
                assert(s == seq![u.byte(a)->0] + rest);
                assert forall|i: int| 0 <= i < n implies #[trigger] s[i] == u.byte(a + i)->0 by {
                    if i > 0 {
                        assert(s[i] == rest[i - 1]);
                        assert(a + 1 + (i - 1) == a + i);
                    }
                }
            }
        }
    }
}

/// A call that takes text refuses bytes that are none.
pub proof fn text_has_to_be_text(
    m: SchedModel,
    u: CallerMemory,
    t: Trap,
    n: SchedModel,
    a: Action,
    text: Seq<u8>,
)
    requires
        answers(m, u, t, n, a),
        t.call_num == 2 || t.call_num == 6 || t.call_num == 15 || t.call_num == 18 || t.call_num
            == 19 || t.call_num == 12,
        t.arg2 <= 256,
        taken_from(u, t.arg1, t.arg2, text),
        !valid_utf8(text),
    ensures
        n == m,
        a is Return,
        t.call_num != 12 ==> a == Action::Return(0xffff_ffff_ffff_fffe),
{
    beyond_is_unreadable(u, t.arg1, t.arg2);
    if reaches_beyond(u, t.arg1, t.arg2) {
        let k = choose|k: int| 0 <= k < t.arg2 && (#[trigger] u.byte(t.arg1 + k)) is None;
        assert(u.byte(t.arg1 + k) == Some(text[k]));
    }
    let bytes = u.bytes(t.arg1 as int, t.arg2 as int);
    assert forall|k: int| 0 <= k < t.arg2 implies bytes[k] == text[k] by {
        assert(u.byte(t.arg1 + k) == Some(text[k]));
    }
    assert(bytes =~= text);
}

/// Whether the string `s`, with a zero byte behind it, is what the caller has
/// at `at`.
pub open spec fn string_is_at(u: CallerMemory, at: int, s: Seq<u8>) -> bool {
    &&& forall|j: int| 0 <= j < s.len() ==> u.byte(at + j) == Some(#[trigger] s[j]) && s[j] != 0
    &&& u.byte(at + s.len()) == Some(0u8)
}

/// Whether the caller has the pointer `p` at `at`, lowest byte first.
pub open spec fn pointer_is_at(u: CallerMemory, at: int, p: int) -> bool {
    &&& forall|j: int| 0 <= j < 8 ==> (#[trigger] u.byte(at + j)) is Some
    &&& p == le64(Seq::new(8, |j: int| u.byte(at + j)->0), 0)
}

/// Whether the caller has at `at` a pointer to the string `s`.
#[verifier::opaque]
pub open spec fn named_at(u: CallerMemory, at: int, s: Seq<u8>) -> bool {
    exists|p: int| p != 0 && #[trigger] pointer_is_at(u, at, p) && string_is_at(u, p, s)
}

/// Whether a caller's vector at `vec` names exactly the strings `v`: a
/// pointer to each in turn, and a zero pointer behind them.
pub open spec fn vector_names(u: CallerMemory, vec: int, v: Seq<Seq<u8>>) -> bool {
    &&& pointer_is_at(u, vec + 8 * v.len(), 0)
    &&& forall|i: int| 0 <= i < v.len() ==> named_at(u, vec + 8 * i, #[trigger] v[i])
}

proof fn string_read(u: CallerMemory, a: int, budget: int)
    ensures
        u.string_at(a, budget) matches Ok(s) ==> string_is_at(u, a, s) && s.len() < budget,
    decreases budget,
{
    if u.byte(a) is Some && budget > 0 {
        let b = u.byte(a)->0;
        if b == 0 {
            assert(a + 0 == a);
        } else {
            string_read(u, a + 1, budget - 1);
            match u.string_at(a + 1, budget - 1) {
                Ok(rest) => {
                    let s = seq![b] + rest;
                    assert forall|j: int| 0 <= j < s.len() implies u.byte(a + j) == Some(
                        #[trigger] s[j],
                    ) && s[j] != 0 by {
                        if j > 0 {
                            assert(s[j] == rest[j - 1]);
                            assert(a + 1 + (j - 1) == a + j);
                        }
                    }
                    assert(a + 1 + rest.len() == a + s.len());
                },
                Err(_) => {},
            }
        }
    }
}

proof fn cost_of_one_more(s: Seq<u8>, rest: Seq<Seq<u8>>)
    ensures
        cost(seq![s] + rest) == s.len() + 1 + cost(rest),
    decreases rest.len(),
{
    let v = seq![s] + rest;
    if rest.len() == 0 {
        assert(v.drop_last() =~= Seq::empty());
        assert(cost(v.drop_last()) == 0);
        assert(v.last() == s);
    } else {
        cost_of_one_more(s, rest.drop_last());
        assert(v.drop_last() =~= seq![s] + rest.drop_last());
        assert(v.last() == rest.last());
    }
}

proof fn one_more_named(u: CallerMemory, slot: int, s: Seq<u8>, rest: Seq<Seq<u8>>)
    requires
        named_at(u, slot, s),
        vector_names(u, slot + 8, rest),
    ensures
        vector_names(u, slot, seq![s] + rest),
{
    let v = seq![s] + rest;
    assert(slot + 8 * v.len() == slot + 8 + 8 * rest.len());
    assert forall|i: int| 0 <= i < v.len() implies named_at(u, slot + 8 * i, #[trigger] v[i]) by {
        if i == 0 {
            assert(slot + 8 * i == slot);
        } else {
            assert(v[i] == rest[i - 1]);
            assert(slot + 8 + 8 * (i - 1) == slot + 8 * i);
        }
    }
}

proof fn pointer_read(u: CallerMemory, slot: int)
    requires
        u.readable(slot, 8),
    ensures
        pointer_is_at(u, slot, le64(u.bytes(slot, 8), 0)),
{
    assert(u.bytes(slot, 8) =~= Seq::new(8, |j: int| u.byte(slot + j)->0));
}

proof fn vector_read(u: CallerMemory, vec: int, k: int, budget: int)
    requires
        0 <= k <= 64,
        0 <= budget,
    ensures
        u.vector_from(vec, k, budget) matches Ok(v) ==> vector_names(u, vec + 8 * k, v) && cost(v)
            <= budget && v.len() <= 64 - k,
    decreases 64 - k,
{
    let slot = vec + 8 * k;
    let p = le64(u.bytes(slot, 8), 0);
    if u.readable(slot, 8) {
        pointer_read(u, slot);
        if p == 0 {
            assert(slot + 8 * 0 == slot);
        } else if k < 64 {
            string_read(u, p, budget);
            if u.string_at(p, budget) is Ok {
                let s = u.string_at(p, budget)->Ok_0;
                let left = budget - s.len() - 1;
                vector_read(u, vec, k + 1, left);
                if u.vector_from(vec, k + 1, left) is Ok {
                    let rest = u.vector_from(vec, k + 1, left)->Ok_0;
                    assert(vec + 8 * (k + 1) == slot + 8);
                    assert(named_at(u, slot, s)) by {
                        reveal(named_at);
                    }
                    one_more_named(u, slot, s, rest);
                    cost_of_one_more(s, rest);
                }
            }
        }
    }
}

/// What a program is started with is what the caller's two vectors name,
/// string by string and in their order; a null vector names nothing. There
/// are at most 64 strings in each, and together they take at most 2048
/// bytes, with a zero byte behind each.
pub proof fn exec_call_takes_both_vectors(
    m: SchedModel,
    u: CallerMemory,
    t: Trap,
    n: SchedModel,
    a: Action,
)
    requires
        answers(m, u, t, n, a),
        t.call_num == 12,
    ensures
        a matches Action::Exec { path, argv, envp } ==> {
            &&& t.arg3 == 0 ==> argv@.len() == 0
            &&& t.arg3 != 0 ==> vector_names(u, t.arg3 as int, views(argv@))
            &&& t.arg4 == 0 ==> envp@.len() == 0
            &&& t.arg4 != 0 ==> vector_names(u, t.arg4 as int, views(envp@))
            &&& argv@.len() <= 64
            &&& envp@.len() <= 64
            &&& cost(views(argv@)) + cost(views(envp@)) <= 2048
        },
{
    if let Action::Exec { path, argv, envp } = a {
        let av = views(argv@);
        let ev = views(envp@);
        assert(cost(Seq::<Seq<u8>>::empty()) == 0);
        if t.arg3 != 0 {
            vector_read(u, t.arg3 as int, 0, 2048);
            assert(t.arg3 + 8 * 0 == t.arg3);
        } else {
            assert(av =~= Seq::empty());
        }
        if t.arg4 != 0 {
            vector_read(u, t.arg4 as int, 0, 2048 - cost(av));
            assert(t.arg4 + 8 * 0 == t.arg4);
        } else {
            assert(ev =~= Seq::empty());
        }
        assert(av.len() == argv@.len());
        assert(ev.len() == envp@.len());
    }
}

/// Closing a port wakes whoever waits on it, and deleting one wakes whoever
/// waits on any; no other port changes.
pub proof fn closing_wakes_who_waits(
    m: SchedModel,
    u: CallerMemory,
    t: Trap,
    n: SchedModel,
    a: Action,
    s: int,
    i: int,
    other: int,
)
    requires
        sound(m),
        answers(m, u, t, n, a),
        m.port_slot(t.arg1 as i32) == Some(s),
        0 <= i < NR_PROCS,
        0 <= other < 64,
        other != s,
    ensures
        t.call_num == 34 && !(m.ports[s]->0).closed && m.procs[i].port_wait == Some(s as usize)
            ==> n.procs[i].port_wait is None && !flagged(n.flags(i), rts::PORT_WAIT),
        t.call_num == 34 && m.procs[i].port_wait != Some(s as usize) ==> n.procs[i] == m.procs[i],
        t.call_num == 35 && flagged(m.flags(i), rts::PORT_WAIT) ==> n.procs[i].port_wait is None
            && !flagged(n.flags(i), rts::PORT_WAIT),
        t.call_num == 35 && !flagged(m.flags(i), rts::PORT_WAIT) ==> n.procs[i] == m.procs[i],
        t.call_num == 34 || t.call_num == 35 || t.call_num == 37 ==> n.ports[other]
            == m.ports[other],
        t.call_num == 37 ==> n.procs == m.procs,
{
    let closed = m.with_port(s, Some(PortModel { closed: true, ..m.ports[s]->0 }));
    let gone = m.with_port(s, None);
    wake_keeps_ports(closed, s as usize, NR_PROCS as int);
    woken_from(closed, s as usize, NR_PROCS as int, i);
    wake_all_keeps_ports(gone, NR_PROCS as int);
    all_woken(gone, NR_PROCS as int, i);
}

/// Asking a port for the size of its next message changes nothing if there
/// is one; otherwise the caller waits as long as it said.
pub proof fn size_call_asks_for_the_next_message(
    m: SchedModel,
    u: CallerMemory,
    t: Trap,
    n: SchedModel,
    a: Action,
    s: int,
)
    requires
        sound(m),
        answers(m, u, t, n, a),
        t.call_num == 32,
        m.port_slot(t.arg1 as i32) == Some(s),
    ensures
        ({
            let p = m.ports[s]->0;
            let d = deadline(t.arg2 as u32, t.arg3 as i64, m.ticks);
            &&& p.queue.len() > 0 ==> n == m && a == Action::Return(p.queue[0].1.len() as u64)
            &&& p.queue.len() == 0 && !p.closed && d == Ok::<Option<u64>, i32>(None) ==> a
                == (Action::PortSize { id: t.arg1 as i32, deadline: None }) && flagged(
                n.flags(m.current),
                rts::PORT_WAIT,
            )
            &&& d matches Err(e) ==> p.queue.len() == 0 && !p.closed ==> n == m && a == Action::Return(
                e as u64,
            )
        }),
{
    let p = m.ports[s]->0;
    assert(port_ok(p));
    if p.queue.len() > 0 {
        assert(p.queue[0].1.len() <= PORT_MAX_MESSAGE);
    }
    rts::raise(m.flags(m.current), rts::PORT_WAIT);
}

/// A caller may have the kernel write to a page of its own if it may write
/// there itself or a fork left the page marked, and to no other.
pub proof fn callers_pages_may_be_filled(u: CallerMemory, a: u64, m: Mapped)
    requires
        mapped(u.mem@, u.pml4, a) == Some(m),
        page_at(u.mem@, u.pml4, a) is Some,
        u.kernel@[p4_slot(a)] == 0,
    ensures
        u.writable(a as int, 1) <==> m.entry & 0x2 != 0 || m.entry & 0x200 != 0,
{
    reveal(CallerMemory::page_of);
    let e = m.entry;
    assert(e & (0x2u64 | 0x200u64) != 0 <==> e & 0x2u64 != 0 || e & 0x200u64 != 0) by (bit_vector);
    assert(u.byte(a as int) is Some);
    if u.writable(a as int, 1) {
        assert((u.page_of(a as int)->0).writable);
    }
}

} // verus!
