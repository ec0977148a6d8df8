//! What a system call asks for, and how it is answered.
use vstd::prelude::*;

use vstd::utf8::valid_utf8;

use crate::calls::{sys_fork_from_frame, sys_setalarm};
use crate::com;
use crate::com::slot_of;
use crate::elf::header::ElfError;
use crate::elf::stack::MAX_START_ARGS_BYTES;
use crate::fs::server::is_utf8;
use crate::memory::copy::CopyError;
use crate::memory::map::MemMap;
use crate::memory::paging::{canonical, is_canonical, pml4_slots_unused, slots_unused};
use crate::proc::births::{alloc_proc_nr, below, new_proc, release_proc_nr, switch_frame, TrapFrame};
use crate::proc::model::{in_table, AddressSpace, Proc, SchedModel, NEVER_SPAWNED};
use crate::proc::queries::{
    current_proc_nr, is_valid_proc_nr, mem_map_of, running_members, sched_params_of, team_size,
};
use crate::proc::rts;
use crate::proc::scheduler::Scheduler;
use crate::proc::soundness::{holds_process, slot_ok};
use crate::rt::os::{SYS_CREATE_PORT, SYS_SYSTEM_TIME};
use crate::syscall::caller::{
    cost, views, CallerMemory, ERR_ARGS_TOO_BIG, ERR_BAD_ARG_PTR,
};
use crate::syscall::ports::{on_ports, port_answers, port_call, Inbox};

verus! {

pub const SYS_GET_UPTIME: u64 = 1;
pub const SYS_WRITE_LINE: u64 = 2;
pub const SYS_BLOCK_FOREVER: u64 = 3;
pub const SYS_SET_ALARM: u64 = 4;
pub const SYS_WAIT_ALARM: u64 = 5;
pub const SYS_FS_OPEN: u64 = 6;
pub const SYS_FS_WRITE: u64 = 7;
pub const SYS_FS_READ: u64 = 8;
pub const SYS_READ_LINE: u64 = 9;
pub const SYS_VIRCOPY: u64 = 10;
pub const SYS_FORK: u64 = 11;
pub const SYS_EXEC: u64 = 12;
pub const SYS_EXIT: u64 = 13;
pub const SYS_WAIT: u64 = 14;
pub const SYS_FS_OPEN_EXISTING: u64 = 15;
pub const SYS_CONSOLE_WRITE: u64 = 16;
pub const SYS_FS_CLOSE: u64 = 17;
pub const SYS_FS_READDIR: u64 = 18;
pub const SYS_FS_MKDIR: u64 = 19;

/// Longest copy between processes.
pub const MAX_VIRCOPY_LEN: u64 = 256;
/// Longest path or buffer of a file call.
pub const MAX_FS_BUF: u64 = 256;
/// Longest line of the log or the console.
pub const MAX_LINE_LEN: u64 = 256;
/// Bytes that a directory entry takes in the caller's memory.
pub const DIRENT_BYTES: usize = 128;

/// Errors of the calls themselves: small negative numbers.
pub const ERR_BAD_LENGTH: u64 = 0xffff_ffff_ffff_ffff;
pub const ERR_BAD_UTF8: u64 = 0xffff_ffff_ffff_fffe;
pub const ERR_VIRCOPY_FAILED: u64 = 0xffff_ffff_ffff_fffd;
pub const ERR_UNKNOWN_CALL: u64 = 0xffff_ffff_ffff_fffc;
/// A fork from a caller without an address space of its own.
pub const ERR_FORK_UNSUPPORTED_CALLER: u64 = 0xffff_ffff_ffff_fffb;
/// The file is no program that can be run.
pub const ERR_BAD_ELF: u64 = 0xffff_ffff_ffff_fffa;
/// An exec that did not come from ring 3.
pub const ERR_EXEC_NOT_RING3: u64 = 0xffff_ffff_ffff_fff9;
/// Every process number of the dynamic range is taken.
pub const ERR_NO_FREE_PROC: u64 = 0xffff_ffff_ffff_fff8;
/// The child's address space could not be built.
pub const ERR_FORK_FAILED: u64 = 0xffff_ffff_ffff_fff7;
/// There is no child to wait for.
pub const ERR_NO_CHILDREN: u64 = 0xffff_ffff_ffff_fff6;
/// An exit or wait that did not come from ring 3.
pub const ERR_NOT_RING3: u64 = 0xffff_ffff_ffff_fff5;
/// An exec while another thread of the caller's team runs.
pub const ERR_MULTITHREADED: u64 = 0xffff_ffff_ffff_fff2;

/// A system call: its number, its arguments, and the code segment it came
/// from.
#[derive(Clone, Copy)]
pub struct Trap {
    pub call_num: u64,
    pub arg1: u64,
    pub arg2: u64,
    pub arg3: u64,
    pub arg4: u64,
    pub arg5: u64,
    pub arg6: u64,
    pub cs: u64,
}

/// What is to be done about a system call.
pub enum Action {
    /// Return this.
    Return(u64),
    /// Write a line to the log, and return its length.
    Log(Vec<u8>),
    /// Write to the console, and return the length.
    Console(Vec<u8>),
    /// Receive from anyone, for ever.
    BlockForever,
    /// Receive an alarm, then return the uptime.
    WaitAlarm,
    /// Open a file, making it if it is not there.
    Open(Vec<u8>),
    /// Open a file that is there.
    OpenExisting(Vec<u8>),
    /// Make a directory.
    Mkdir(Vec<u8>),
    /// Write to a file.
    Write { fd: i64, data: Vec<u8> },
    /// Read up to `len` bytes of a file into the caller's `buffer`.
    Read { fd: i64, buffer: u64, len: u64 },
    /// Close a file.
    Close { fd: i64 },
    /// Report a directory entry into the caller's `entry`.
    Readdir { path: Vec<u8>, index: u64, entry: u64 },
    /// Read a line of at most `len` bytes into the caller's `buffer`.
    ReadLine { buffer: u64, len: u64 },
    /// Copy from another process.
    Vircopy { src_proc: i32, src: u64, dst: u64, len: u64 },
    /// Build an address space for `child`, which is claimed, then finish the
    /// fork.
    Fork { child: i32, priority: u8, quantum: i32, preemptible: bool, map: MemMap },
    /// End the caller.
    Exit(i32),
    /// Wait for a child, and put its status at `status`, unless that is
    /// zero.
    Wait { status: u64 },
    /// Replace the caller's image by the program at `path`.
    Exec { path: Vec<u8>, argv: Vec<Vec<u8>>, envp: Vec<Vec<u8>> },
    /// Wait for room in port `id`, then go on with `write_on`.
    PortWrite { id: i32, deadline: Option<u64> },
    /// Wait for a message of port `id`, then go on with `read_on`.
    PortRead { id: i32, deadline: Option<u64>, inbox: Inbox },
    /// Wait for a message of port `id`, then go on with `size_on`.
    PortSize { id: i32, deadline: Option<u64> },
    /// Put the code of a message at `code_at` and its bytes at `buffer`, and
    /// return how many bytes they are.
    PortMessage { code_at: u64, code: i32, buffer: u64, data: Vec<u8> },
    /// Put the description of a port at `at`, and return zero.
    PortInfo { at: u64, info: Vec<u8> },
}

/// Whether a code segment is that of ring 3.
pub open spec fn from_ring3(cs: u64) -> bool {
    cs & 3 == 3
}

/// The smaller of a length and the longest buffer.
pub open spec fn at_most_buf(len: u64) -> u64 {
    if len > MAX_FS_BUF {
        MAX_FS_BUF
    } else {
        len
    }
}

/// What the text at `ptr` leads to: an error, or none, in which case it is
/// the caller's own, short enough, and text.
pub open spec fn text_fault(u: CallerMemory, ptr: u64, len: u64) -> Option<u64> {
    if len > MAX_FS_BUF {
        Some(ERR_BAD_LENGTH)
    } else if !u.readable(ptr as int, len as int) {
        Some(ERR_BAD_ARG_PTR)
    } else if !valid_utf8(u.bytes(ptr as int, len as int)) {
        Some(ERR_BAD_UTF8)
    } else {
        None
    }
}

/// What bytes at `ptr` lead to: an error, or none, in which case they are
/// the caller's own and short enough.
pub open spec fn bytes_fault(u: CallerMemory, ptr: u64, len: u64) -> Option<u64> {
    if len > MAX_FS_BUF {
        Some(ERR_BAD_LENGTH)
    } else if !u.readable(ptr as int, len as int) {
        Some(ERR_BAD_ARG_PTR)
    } else {
        None
    }
}

/// Whether the `len` bytes at `src` lie where the kernel has nothing.
pub open spec fn away_from_kernel(u: CallerMemory, src: u64, len: u64) -> bool {
    &&& src + len - 1 <= u64::MAX
    &&& canonical(src)
    &&& canonical((src + len - 1) as u64)
    &&& slots_unused(u.kernel@, src, (src + len - 1) as u64)
}

/// Whether a copy from another process may be tried.
pub open spec fn vircopy_allowed(m: SchedModel, u: CallerMemory, t: Trap) -> bool {
    &&& m.valid_nr(t.arg1 as i32)
    &&& away_from_kernel(u, t.arg2, t.arg4)
    &&& u.writable(t.arg3 as int, t.arg4 as int)
}

/// What is wrong with an exec.
pub open spec fn exec_fault(m: SchedModel, u: CallerMemory, t: Trap) -> Option<u64> {
    let argv = u.vector(t.arg3 as int, MAX_START_ARGS_BYTES as int);
    if t.arg2 > MAX_FS_BUF {
        Some(ERR_BAD_LENGTH)
    } else {
        match argv {
            Err(e) => Some(e),
            Ok(a) => match u.vector(t.arg4 as int, MAX_START_ARGS_BYTES - cost(a)) {
                Err(e) => Some(e),
                Ok(_) => if text_fault(u, t.arg1, t.arg2) is Some {
                    text_fault(u, t.arg1, t.arg2)
                } else if !from_ring3(t.cs) {
                    Some(ERR_EXEC_NOT_RING3)
                } else if running_members(m, m.procs[m.current].team) > 1 {
                    Some(ERR_MULTITHREADED)
                } else {
                    None
                },
            },
        }
    }
}

/// Whether `a` answers the system call `t`, made in state `m` by a caller
/// with memory `u`, and `n` is the state afterwards.
pub open spec fn answers(m: SchedModel, u: CallerMemory, t: Trap, n: SchedModel, a: Action) -> bool {
    let c = t.call_num;
    let me = m.procs[m.current].proc_nr;
    if c == SYS_GET_UPTIME {
        n == m && a == Action::Return(m.ticks)
    } else if c == SYS_WRITE_LINE {
        n == m && match text_fault(u, t.arg1, t.arg2) {
            Some(e) => a == Action::Return(e),
            None => a matches Action::Log(v) && v@ == u.bytes(t.arg1 as int, t.arg2 as int),
        }
    } else if c == SYS_BLOCK_FOREVER {
        n == m && a == Action::BlockForever
    } else if c == SYS_SET_ALARM {
        &&& a == Action::Return(0)
        &&& n == m.put(
            m.current,
            Proc { alarm: Some((m.ticks + t.arg1) as u64), ..m.procs[m.current] },
        )
    } else if c == SYS_WAIT_ALARM {
        n == m && a == Action::WaitAlarm
    } else if c == SYS_FS_OPEN {
        n == m && match text_fault(u, t.arg1, t.arg2) {
            Some(e) => a == Action::Return(e),
            None => a matches Action::Open(v) && v@ == u.bytes(t.arg1 as int, t.arg2 as int),
        }
    } else if c == SYS_FS_WRITE {
        n == m && match bytes_fault(u, t.arg2, t.arg3) {
            Some(e) => a == Action::Return(e),
            None => a matches Action::Write { fd, data } && fd == t.arg1 as i64 && data@ == u.bytes(
                t.arg2 as int,
                t.arg3 as int,
            ),
        }
    } else if c == SYS_FS_READ {
        let len = at_most_buf(t.arg3);
        n == m && a == (if u.writable(t.arg2 as int, len as int) {
            Action::Read { fd: t.arg1 as i64, buffer: t.arg2, len }
        } else {
            Action::Return(ERR_BAD_ARG_PTR)
        })
    } else if c == SYS_READ_LINE {
        let len = at_most_buf(t.arg2);
        n == m && a == (if u.writable(t.arg1 as int, len as int) {
            Action::ReadLine { buffer: t.arg1, len }
        } else {
            Action::Return(ERR_BAD_ARG_PTR)
        })
    } else if c == SYS_VIRCOPY {
        n == m && a == (if t.arg4 > MAX_VIRCOPY_LEN {
            Action::Return(ERR_BAD_LENGTH)
        } else if t.arg4 == 0 {
            Action::Return(0)
        } else if vircopy_allowed(m, u, t) {
            Action::Vircopy { src_proc: t.arg1 as i32, src: t.arg2, dst: t.arg3, len: t.arg4 }
        } else {
            Action::Return(ERR_VIRCOPY_FAILED)
        })
    } else if c == SYS_FORK {
        let owner = m.procs[m.owner_of(slot_of(me))];
        let p = m.procs[m.current];
        if owner.mem_map@.len() == 0 {
            n == m && a == Action::Return(ERR_FORK_UNSUPPORTED_CALLER)
        } else {
            match m.free_dynamic() {
                None => n == m && a == Action::Return(ERR_NO_FREE_PROC),
                Some(k) => {
                    let child = (com::FIRST_DYNAMIC_PROC_NR + k) as i32;
                    &&& n == m.with_flags(slot_of(child), rts::RESERVED)
                    &&& a == Action::Fork {
                        child,
                        priority: p.max_priority,
                        quantum: p.quantum_size,
                        preemptible: p.preemptible,
                        map: owner.mem_map,
                    }
                },
            }
        }
    } else if c == SYS_EXIT {
        n == m && a == (if from_ring3(t.cs) {
            Action::Exit(t.arg1 as i32)
        } else {
            Action::Return(ERR_NOT_RING3)
        })
    } else if c == SYS_WAIT {
        n == m && a == (if !from_ring3(t.cs) {
            Action::Return(ERR_NOT_RING3)
        } else if t.arg1 != 0 && !u.writable(t.arg1 as int, 4) {
            Action::Return(ERR_BAD_ARG_PTR)
        } else {
            Action::Wait { status: t.arg1 }
        })
    } else if c == SYS_EXEC {
        n == m && match exec_fault(m, u, t) {
            Some(e) => a == Action::Return(e),
            None => a matches Action::Exec { path, argv, envp } && path@ == u.bytes(
                t.arg1 as int,
                t.arg2 as int,
            ) && u.vector(t.arg3 as int, MAX_START_ARGS_BYTES as int) == Ok::<Seq<Seq<u8>>, u64>(
                views(argv@),
            ) && u.vector(t.arg4 as int, MAX_START_ARGS_BYTES - cost(views(argv@))) == Ok::<
                Seq<Seq<u8>>,
                u64,
            >(views(envp@)),
        }
    } else if c == SYS_FS_OPEN_EXISTING {
        n == m && match text_fault(u, t.arg1, t.arg2) {
            Some(e) => a == Action::Return(e),
            None => a matches Action::OpenExisting(v) && v@ == u.bytes(
                t.arg1 as int,
                t.arg2 as int,
            ),
        }
    } else if c == SYS_CONSOLE_WRITE {
        n == m && match bytes_fault(u, t.arg1, t.arg2) {
            Some(e) => a == Action::Return(e),
            None => a matches Action::Console(v) && v@ == u.bytes(t.arg1 as int, t.arg2 as int),
        }
    } else if c == SYS_FS_CLOSE {
        n == m && a == Action::Close { fd: t.arg1 as i64 }
    } else if c == SYS_FS_READDIR {
        n == m && match text_fault(u, t.arg1, t.arg2) {
            Some(e) => a == Action::Return(e),
            None => if !u.writable(t.arg4 as int, DIRENT_BYTES as int) {
                a == Action::Return(ERR_BAD_ARG_PTR)
            } else {
                a matches Action::Readdir { path, index, entry } && path@ == u.bytes(
                    t.arg1 as int,
                    t.arg2 as int,
                ) && index == t.arg3 && entry == t.arg4
            },
        }
    } else if c == SYS_FS_MKDIR {
        n == m && match text_fault(u, t.arg1, t.arg2) {
            Some(e) => a == Action::Return(e),
            None => a matches Action::Mkdir(v) && v@ == u.bytes(t.arg1 as int, t.arg2 as int),
        }
    } else if on_ports(c) {
        port_answers(m, u, t, n, a)
    } else {
        n == m && a == Action::Return(ERR_UNKNOWN_CALL)
    }
}

/// The caller's text at `ptr`, or why it is none.
fn text_from(user: &CallerMemory, ptr: u64, len: u64) -> (r: Result<Vec<u8>, u64>)
    requires
        user.wf(),
    ensures
        match text_fault(*user, ptr, len) {
            Some(e) => r matches Err(f) && f == e,
            None => r matches Ok(v) && v@ == user.bytes(ptr as int, len as int),
        },
{
    match bytes_from(user, ptr, len) {
        Ok(v) => {
            if is_utf8(&v) {
                Ok(v)
            } else {
                Err(ERR_BAD_UTF8)
            }
        },
        Err(e) => Err(e),
    }
}

/// The caller's bytes at `ptr`, or why they are none.
fn bytes_from(user: &CallerMemory, ptr: u64, len: u64) -> (r: Result<Vec<u8>, u64>)
    requires
        user.wf(),
    ensures
        match bytes_fault(*user, ptr, len) {
            Some(e) => r matches Err(f) && f == e,
            None => r matches Ok(v) && v@ == user.bytes(ptr as int, len as int),
        },
{
    if len > MAX_FS_BUF {
        return Err(ERR_BAD_LENGTH);
    }
    user.copy_from_caller(ptr, len as usize)
}

/// Whether the `len` bytes at `src` lie where the kernel has nothing.
fn is_away_from_kernel(user: &CallerMemory, src: u64, len: u64) -> (r: bool)
    requires
        user.wf(),
        len > 0,
    ensures
        r == away_from_kernel(*user, src, len),
{
    match src.checked_add(len - 1) {
        None => false,
        Some(end) => is_canonical(src) && is_canonical(end) && pml4_slots_unused(
            user.kernel,
            src,
            end,
        ),
    }
}

/// Decide what is to be done about the system call `t` of the running
/// process, whose memory is `user`.
pub fn dispatch(sched: &mut Scheduler, user: &CallerMemory, t: Trap) -> (a: Action)
    requires
        old(sched).wf(),
        user.wf(),
        holds_process(old(sched)@.procs[old(sched)@.current]),
        t.call_num == SYS_SET_ALARM ==> old(sched)@.ticks + t.arg1 <= u64::MAX,
        t.call_num == SYS_SYSTEM_TIME ==> old(sched)@.ticks * 1000000 <= i64::MAX,
    ensures
        final(sched).wf(),
        answers(old(sched)@, *user, t, final(sched)@, a),
{
    let c: u64 = t.call_num;
    if c == SYS_GET_UPTIME {
        return Action::Return(crate::proc::clock::uptime_ticks(sched));
    }
    if c == SYS_WRITE_LINE {
        return match text_from(user, t.arg1, t.arg2) {
            Ok(v) => Action::Log(v),
            Err(e) => Action::Return(e),
        };
    }
    if c == SYS_BLOCK_FOREVER {
        return Action::BlockForever;
    }
    if c == SYS_SET_ALARM {
        sys_setalarm(sched, t.arg1);
        return Action::Return(0);
    }
    if c == SYS_WAIT_ALARM {
        return Action::WaitAlarm;
    }
    if c == SYS_FS_OPEN {
        return match text_from(user, t.arg1, t.arg2) {
            Ok(v) => Action::Open(v),
            Err(e) => Action::Return(e),
        };
    }
    if c == SYS_FS_WRITE {
        return match bytes_from(user, t.arg2, t.arg3) {
            Ok(data) => Action::Write { fd: t.arg1 as i64, data },
            Err(e) => Action::Return(e),
        };
    }
    if c == SYS_FS_READ {
        let len: u64 = if t.arg3 > MAX_FS_BUF {
            MAX_FS_BUF
        } else {
            t.arg3
        };
        if !user.can_write(t.arg2, len as usize) {
            return Action::Return(ERR_BAD_ARG_PTR);
        }
        return Action::Read { fd: t.arg1 as i64, buffer: t.arg2, len };
    }
    if c == SYS_READ_LINE {
        let len: u64 = if t.arg2 > MAX_FS_BUF {
            MAX_FS_BUF
        } else {
            t.arg2
        };
        if !user.can_write(t.arg1, len as usize) {
            return Action::Return(ERR_BAD_ARG_PTR);
        }
        return Action::ReadLine { buffer: t.arg1, len };
    }
    if c == SYS_VIRCOPY {
        return vircopy_action(sched, user, t);
    }
    if c == SYS_FORK {
        return fork_action(sched);
    }
    if c == SYS_EXIT {
        if t.cs & 3 != 3 {
            return Action::Return(ERR_NOT_RING3);
        }
        return Action::Exit(t.arg1 as i32);
    }
    if c == SYS_WAIT {
        if t.cs & 3 != 3 {
            return Action::Return(ERR_NOT_RING3);
        }
        if t.arg1 != 0 && !user.can_write(t.arg1, 4) {
            return Action::Return(ERR_BAD_ARG_PTR);
        }
        return Action::Wait { status: t.arg1 };
    }
    if c == SYS_EXEC {
        return exec_action(sched, user, t);
    }
    if c == SYS_FS_OPEN_EXISTING {
        return match text_from(user, t.arg1, t.arg2) {
            Ok(v) => Action::OpenExisting(v),
            Err(e) => Action::Return(e),
        };
    }
    if c == SYS_CONSOLE_WRITE {
        return match bytes_from(user, t.arg1, t.arg2) {
            Ok(v) => Action::Console(v),
            Err(e) => Action::Return(e),
        };
    }
    if c == SYS_FS_CLOSE {
        return Action::Close { fd: t.arg1 as i64 };
    }
    if c == SYS_FS_READDIR {
        return match text_from(user, t.arg1, t.arg2) {
            Ok(path) => {
                if !user.can_write(t.arg4, DIRENT_BYTES) {
                    Action::Return(ERR_BAD_ARG_PTR)
                } else {
                    Action::Readdir { path, index: t.arg3, entry: t.arg4 }
                }
            },
            Err(e) => Action::Return(e),
        };
    }
    if c == SYS_FS_MKDIR {
        return match text_from(user, t.arg1, t.arg2) {
            Ok(v) => Action::Mkdir(v),
            Err(e) => Action::Return(e),
        };
    }
    if SYS_CREATE_PORT <= c && c <= SYS_SYSTEM_TIME {
        return port_call(sched, user, t);
    }
    Action::Return(ERR_UNKNOWN_CALL)
}

/// A copy from another process.
fn vircopy_action(sched: &Scheduler, user: &CallerMemory, t: Trap) -> (a: Action)
    requires
        sched.wf(),
        user.wf(),
        t.call_num == SYS_VIRCOPY,
    ensures
        answers(sched@, *user, t, sched@, a),
{
    if t.arg4 > MAX_VIRCOPY_LEN {
        return Action::Return(ERR_BAD_LENGTH);
    }
    if t.arg4 == 0 {
        return Action::Return(0);
    }
    let src_proc: i32 = t.arg1 as i32;
    if !is_valid_proc_nr(sched, src_proc) || !is_away_from_kernel(user, t.arg2, t.arg4)
        || !user.can_write(t.arg3, t.arg4 as usize) {
        return Action::Return(ERR_VIRCOPY_FAILED);
    }
    Action::Vircopy { src_proc, src: t.arg2, dst: t.arg3, len: t.arg4 }
}

/// The beginning of a fork: a caller with memory of its own gets a process
/// number for its child.
fn fork_action(sched: &mut Scheduler) -> (a: Action)
    requires
        old(sched).wf(),
        holds_process(old(sched)@.procs[old(sched)@.current]),
    ensures
        final(sched).wf(),
        forall|u: CallerMemory, t: Trap|
            t.call_num == SYS_FORK ==> #[trigger] answers(old(sched)@, u, t, final(sched)@, a),
{
    let ghost m = sched@;
    let ghost c = m.current;
    proof {
        assert(slot_ok(m.procs[c], c, m.sem_seq));
        assert(slot_of(m.procs[c].proc_nr) == c);
    }
    let me: i32 = current_proc_nr(sched);
    let map = mem_map_of(sched, me);
    if map.is_empty() {
        return Action::Return(ERR_FORK_UNSUPPORTED_CALLER);
    }
    let (priority, quantum, preemptible) = sched_params_of(sched, me);
    match alloc_proc_nr(sched) {
        Some(child) => {
            proof {
                let f = |k: int|
                    crate::proc::rts::flagged(
                        m.flags(slot_of((com::FIRST_DYNAMIC_PROC_NR + k) as i32)),
                        rts::SLOT_FREE,
                    );
                crate::proc::births::first_holds(0, com::NR_DYNAMIC_PROCS as int, f);
            }
            Action::Fork { child, priority, quantum, preemptible, map }
        },
        None => Action::Return(ERR_NO_FREE_PROC),
    }
}

/// The beginning of an exec: arguments, environment and path are copied out
/// of the caller's memory while it is still there. The memory must be the
/// caller's alone: no other thread of its team may run.
fn exec_action(sched: &Scheduler, user: &CallerMemory, t: Trap) -> (a: Action)
    requires
        sched.wf(),
        user.wf(),
        holds_process(sched@.procs[sched@.current]),
        t.call_num == SYS_EXEC,
    ensures
        answers(sched@, *user, t, sched@, a),
{
    if t.arg2 > MAX_FS_BUF {
        return Action::Return(ERR_BAD_LENGTH);
    }
    let mut budget: usize = MAX_START_ARGS_BYTES;
    let argv = match user.copy_in_vector(t.arg3, &mut budget) {
        Ok(v) => v,
        Err(e) => {
            return Action::Return(e);
        },
    };
    let envp = match user.copy_in_vector(t.arg4, &mut budget) {
        Ok(v) => v,
        Err(e) => {
            return Action::Return(e);
        },
    };
    let path = match text_from(user, t.arg1, t.arg2) {
        Ok(v) => v,
        Err(e) => {
            return Action::Return(e);
        },
    };
    if t.cs & 3 != 3 {
        return Action::Return(ERR_EXEC_NOT_RING3);
    }
    proof {
        let c = sched@.current;
        assert(slot_ok(sched@.procs[c], c, sched@.sem_seq));
        assert(slot_of(sched@.procs[c].proc_nr) == c);
    }
    if team_size(sched, current_proc_nr(sched)) > 1 {
        return Action::Return(ERR_MULTITHREADED);
    }
    Action::Exec { path, argv, envp }
}

/// What a copy from another process returns.
pub fn vircopy_return(r: Result<(), CopyError>) -> (rax: u64)
    ensures
        rax == (if r is Ok {
            0u64
        } else {
            ERR_VIRCOPY_FAILED
        }),
{
    match r {
        Ok(_) => 0,
        Err(_) => ERR_VIRCOPY_FAILED,
    }
}

/// What a wait returns.
pub fn wait_return(collected: Option<(i32, i32)>) -> (rax: u64)
    ensures
        rax == (match collected {
            Some(child) => child.0 as u64,
            None => ERR_NO_CHILDREN,
        }),
{
    match collected {
        Some(child) => child.0 as u64,
        None => ERR_NO_CHILDREN,
    }
}

/// What an exec returns whose image may not be loaded.
pub fn exec_refusal(e: ElfError) -> (rax: u64)
    ensures
        rax == (if e == ElfError::ArgsTooLarge {
            ERR_ARGS_TOO_BIG
        } else {
            ERR_BAD_ELF
        }),
{
    if e == ElfError::ArgsTooLarge {
        ERR_ARGS_TOO_BIG
    } else {
        ERR_BAD_ELF
    }
}

/// Finish the fork of `caller` into `child`, for which `space` was built if
/// it could be: the child sees zero where the parent sees its number. If
/// there is no address space, the number is given back. Returns what the
/// caller gets, and the words to write at the stack pointer the child was
/// given.
pub fn finish_fork(
    sched: &mut Scheduler,
    caller: i32,
    child: i32,
    priority: u8,
    quantum: i32,
    preemptible: bool,
    space: Option<AddressSpace>,
    frame: &TrapFrame,
    stack_top: u64,
    resume: u64,
) -> (r: (u64, Vec<u64>))
    requires
        old(sched).wf(),
        in_table(child),
        old(sched)@.flags(slot_of(child)) == rts::RESERVED,
        space is Some ==> {
            &&& in_table(caller)
            &&& holds_process(old(sched)@.procs[slot_of(caller)])
            &&& priority < crate::proc::model::NR_SCHED_QUEUES
            &&& (space->0).map.wf()
            &&& below(stack_top, 28) >= 0
        },
    ensures
        final(sched).wf(),
        match space {
            Some(s) => {
                let m = old(sched)@;
                let team = m.procs[slot_of(caller)].team;
                let seen = TrapFrame { rax: 0, ..*frame };
                &&& r.0 == child as u64
                &&& r.1@ == switch_frame(resume) + seen.words()
                &&& final(sched)@ == m.install(
                    slot_of(child),
                    new_proc(
                        child,
                        com::dynamic_name(child),
                        NEVER_SPAWNED,
                        priority,
                        quantum,
                        preemptible,
                        Some(s.pml4),
                        s.map,
                        below(stack_top, 28) as u64,
                        team,
                        child,
                        m.inherited_brk(team),
                    ),
                )
                &&& final(sched)@.procs[slot_of(child)].brk == m.procs[slot_of(team)].brk
            },
            None => {
                &&& r.0 == ERR_FORK_FAILED
                &&& r.1@.len() == 0
                &&& final(sched)@ == old(sched)@.with_flags(slot_of(child), rts::SLOT_FREE)
            },
        },
{
    let mut child_frame = *frame;
    child_frame.rax = 0;
    proof {
        rts::only(rts::RESERVED);
        if space is Some {
            let m = sched@;
            let p = slot_of(caller);
            let c = slot_of(child);
            assert(slot_ok(m.procs[p], p, m.sem_seq));
            // Nobody is led from a slot that is only claimed.
            assert(crate::proc::soundness::led(m.procs, p));
            assert(slot_ok(m.procs[c], c, m.sem_seq));
        }
    }
    match sys_fork_from_frame(
        sched,
        caller,
        child,
        com::dynamic_proc_name(child),
        priority,
        quantum,
        preemptible,
        space,
        &child_frame,
        stack_top,
        resume,
    ) {
        Some(words) => (child as u64, words),
        None => {
            release_proc_nr(sched, child);
            (ERR_FORK_FAILED, Vec::new())
        },
    }
}

} // verus!
