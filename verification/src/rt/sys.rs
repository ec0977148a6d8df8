//! The system calls a program makes: what goes into the registers, and what
//! the result means.
use crate::syscall::dispatch::{
    SYS_BLOCK_FOREVER, SYS_CONSOLE_WRITE, SYS_EXEC, SYS_EXIT, SYS_FORK, SYS_FS_CLOSE, SYS_FS_MKDIR,
    SYS_FS_OPEN, SYS_FS_OPEN_EXISTING, SYS_FS_READ, SYS_FS_READDIR, SYS_FS_WRITE, SYS_GET_UPTIME,
    SYS_READ_LINE, SYS_SET_ALARM, SYS_WAIT, SYS_WAIT_ALARM, SYS_WRITE_LINE,
};
use vstd::prelude::*;

verus! {

/// Most bytes that one call moves.
pub const MAX_IO: u64 = 256;

/// Longest name in a directory entry.
pub const DIRENT_NAME_MAX: usize = 118;

pub const ENOENT: i64 = -2;
pub const ERR_BAD_ELF: i64 = -6;
pub const ERR_NO_FREE_PROC: i64 = -8;
pub const ERR_FORK_FAILED: i64 = -9;
pub const ERR_NO_CHILDREN: i64 = -10;
pub const ERR_BAD_ARG_PTR: i64 = -12;
pub const ERR_ARGS_TOO_BIG: i64 = -13;
/// An exec while another thread runs.
pub const ERR_MULTITHREADED: i64 = -14;
pub const EEXIST: i64 = -17;
pub const ENOTDIR: i64 = -20;
pub const EISDIR: i64 = -21;
pub const EINVAL: i64 = -22;

/// A system call: its number and its arguments.
#[derive(Clone, Copy, Debug)]
pub struct Call {
    pub number: u64,
    pub args: [u64; 4],
}

/// A call with the arguments it needs, the others zero.
pub open spec fn call(number: u64, a1: u64, a2: u64, a3: u64, a4: u64) -> Call {
    Call { number, args: [a1, a2, a3, a4] }
}

/// The bits of a 32-bit number, as an argument.
pub open spec fn low32(n: i32) -> int {
    if n < 0 {
        n + 0x1_0000_0000
    } else {
        n as int
    }
}

/// The bits of a 32-bit number, as an argument.
pub fn bits32(n: i32) -> (r: u64)
    ensures
        r == low32(n),
{
    assert((n as u32) as u64 == (if n < 0 {
        n + 0x1_0000_0000
    } else {
        n as int
    })) by (bit_vector);
    (n as u32) as u64
}

/// The bits of a 64-bit number, as an argument.
pub open spec fn low64(n: i64) -> int {
    if n < 0 {
        n + 0x1_0000_0000_0000_0000
    } else {
        n as int
    }
}

/// The bits of a 64-bit number, as an argument.
pub fn bits64(n: i64) -> (r: u64)
    ensures
        r == low64(n),
{
    assert(n as u64 == (if n < 0 {
        n + 0x1_0000_0000_0000_0000
    } else {
        n as int
    })) by (bit_vector);
    n as u64
}

/// What a call returned: a negative number is an error.
pub fn result(ret: i64) -> (r: Result<i64, i64>)
    ensures
        ret < 0 ==> r == Err::<i64, i64>(ret),
        ret >= 0 ==> r == Ok::<i64, i64>(ret),
{
    if ret < 0 {
        Err(ret)
    } else {
        Ok(ret)
    }
}

/// The pieces of `len` bytes at `ptr`, each of at most `MAX_IO` bytes.
pub open spec fn pieces(ptr: int, len: int) -> Seq<(u64, u64)> {
    Seq::new(
        ((len + MAX_IO - 1) / MAX_IO as int) as nat,
        |k: int|
            (
                (ptr + MAX_IO * k) as u64,
                (if len - MAX_IO * k < MAX_IO {
                    len - MAX_IO * k
                } else {
                    MAX_IO as int
                }) as u64,
            ),
    )
}

/// The pieces of a buffer lie one behind the other, from its start to its
/// end, and none is empty.
pub proof fn pieces_cover(ptr: u64, len: u64, k: int)
    requires
        ptr + len <= u64::MAX,
        0 <= k < pieces(ptr as int, len as int).len(),
    ensures
        ({
            let all = pieces(ptr as int, len as int);
            &&& all[0].0 == ptr
            &&& 0 < all[k].1 <= MAX_IO
            &&& k + 1 < all.len() ==> all[k + 1].0 == all[k].0 + all[k].1
            &&& k + 1 == all.len() ==> all[k].0 + all[k].1 == ptr + len
        }),
{
}

/// One call for each piece of a buffer: its number, an argument before the
/// piece if there is one, then address and length of the piece.
pub open spec fn piece_calls(number: u64, first: Option<u64>, ptr: int, len: int) -> Seq<Call> {
    pieces(ptr, len).map_values(
        |p: (u64, u64)|
            match first {
                Some(a) => call(number, a, p.0, p.1, 0),
                None => call(number, p.0, p.1, 0, 0),
            },
    )
}

fn calls_for(number: u64, first: Option<u64>, ptr: u64, len: u64) -> (calls: Vec<Call>)
    requires
        ptr + len <= u64::MAX,
    ensures
        calls@ == piece_calls(number, first, ptr as int, len as int),
{
    let mut calls: Vec<Call> = Vec::new();
    let ghost all = piece_calls(number, first, ptr as int, len as int);
    let mut done: u64 = 0;
    while done < len
        invariant
            ptr + len <= u64::MAX,
            all == piece_calls(number, first, ptr as int, len as int),
            done < len ==> done == MAX_IO * calls@.len(),
            done >= len ==> done == len && calls@.len() == all.len(),
            done < len ==> calls@.len() < all.len(),
            calls@ == all.take(calls@.len() as int),
        decreases len - done,
    {
        let ghost k = calls@.len() as int;
        let n: u64 = if len - done < MAX_IO {
            len - done
        } else {
            MAX_IO
        };
        calls.push(
            match first {
                Some(a) => Call { number, args: [a, ptr + done, n, 0] },
                None => Call { number, args: [ptr + done, n, 0, 0] },
            },
        );
        done = done + n;
        assert(calls@ =~= all.take(k + 1));
    }
    assert(calls@ =~= all);
    calls
}

/// Timer ticks since boot.
pub fn uptime() -> (c: Call)
    ensures
        c == call(SYS_GET_UPTIME, 0, 0, 0, 0),
{
    Call { number: SYS_GET_UPTIME, args: [0, 0, 0, 0] }
}

/// A line in the kernel's log.
pub fn log(ptr: u64, len: u64) -> (calls: Vec<Call>)
    requires
        ptr + len <= u64::MAX,
    ensures
        calls@ == piece_calls(SYS_WRITE_LINE, None, ptr as int, len as int),
{
    calls_for(SYS_WRITE_LINE, None, ptr, len)
}

/// Standard output.
pub fn console_write(ptr: u64, len: u64) -> (calls: Vec<Call>)
    requires
        ptr + len <= u64::MAX,
    ensures
        calls@ == piece_calls(SYS_CONSOLE_WRITE, None, ptr as int, len as int),
{
    calls_for(SYS_CONSOLE_WRITE, None, ptr, len)
}

/// Sleep for `ticks` timer ticks: set the alarm, then wait for it.
pub fn sleep(ticks: u64) -> (calls: (Call, Call))
    ensures
        calls.0 == call(SYS_SET_ALARM, ticks, 0, 0, 0),
        calls.1 == call(SYS_WAIT_ALARM, 0, 0, 0, 0),
{
    (
        Call { number: SYS_SET_ALARM, args: [ticks, 0, 0, 0] },
        Call { number: SYS_WAIT_ALARM, args: [0, 0, 0, 0] },
    )
}

/// Open a file, making it if it is not there.
pub fn open(path: u64, path_len: u64) -> (c: Call)
    ensures
        c == call(SYS_FS_OPEN, path, path_len, 0, 0),
{
    Call { number: SYS_FS_OPEN, args: [path, path_len, 0, 0] }
}

/// Open a file that is there.
pub fn open_existing(path: u64, path_len: u64) -> (c: Call)
    ensures
        c == call(SYS_FS_OPEN_EXISTING, path, path_len, 0, 0),
{
    Call { number: SYS_FS_OPEN_EXISTING, args: [path, path_len, 0, 0] }
}

/// Give a descriptor back.
pub fn close(fd: i64) -> (c: Call)
    ensures
        c == call(SYS_FS_CLOSE, low64(fd) as u64, 0, 0, 0),
{
    Call { number: SYS_FS_CLOSE, args: [bits64(fd), 0, 0, 0] }
}

/// Make a directory.
pub fn mkdir(path: u64, path_len: u64) -> (c: Call)
    ensures
        c == call(SYS_FS_MKDIR, path, path_len, 0, 0),
{
    Call { number: SYS_FS_MKDIR, args: [path, path_len, 0, 0] }
}

/// Entry number `index` of a directory, into `entry`.
pub fn readdir(path: u64, path_len: u64, index: u64, entry: u64) -> (c: Call)
    ensures
        c == call(SYS_FS_READDIR, path, path_len, index, entry),
{
    Call { number: SYS_FS_READDIR, args: [path, path_len, index, entry] }
}

/// What a `readdir` returned: whether there was an entry.
pub fn readdir_result(ret: i64) -> (r: Result<bool, i64>)
    ensures
        ret < 0 ==> r == Err::<bool, i64>(ret),
        ret >= 0 ==> r == Ok::<bool, i64>(ret == 1),
{
    match result(ret) {
        Ok(n) => Ok(n == 1),
        Err(e) => Err(e),
    }
}

/// At most `MAX_IO` of `len` bytes.
pub open spec fn capped(len: u64) -> u64 {
    if len < MAX_IO {
        len
    } else {
        MAX_IO
    }
}

fn cap(len: u64) -> (n: u64)
    ensures
        n == capped(len),
{
    if len < MAX_IO {
        len
    } else {
        MAX_IO
    }
}

/// Read into a buffer.
pub fn read(fd: i64, buf: u64, len: u64) -> (c: Call)
    ensures
        c == call(SYS_FS_READ, low64(fd) as u64, buf, capped(len), 0),
{
    Call { number: SYS_FS_READ, args: [bits64(fd), buf, cap(len), 0] }
}

/// Write a buffer: the calls to make one after another until one fails.
pub fn write(fd: i64, buf: u64, len: u64) -> (calls: Vec<Call>)
    requires
        buf + len <= u64::MAX,
    ensures
        calls@ == piece_calls(SYS_FS_WRITE, Some(low64(fd) as u64), buf as int, len as int),
{
    calls_for(SYS_FS_WRITE, Some(bits64(fd)), buf, len)
}

/// The first negative number of `rets` at or after `i`.
pub open spec fn first_error(rets: Seq<i64>, i: int) -> Option<i64>
    decreases rets.len() - i,
{
    if i < 0 || i >= rets.len() {
        None
    } else if rets[i] < 0 {
        Some(rets[i])
    } else {
        first_error(rets, i + 1)
    }
}

/// What writing `len` bytes came to, given what its calls returned: the
/// first error, else all of them.
pub fn write_result(len: usize, rets: &[i64]) -> (r: Result<usize, i64>)
    ensures
        match first_error(rets@, 0) {
            Some(e) => r == Err::<usize, i64>(e),
            None => r == Ok::<usize, i64>(len),
        },
{
    let mut i: usize = 0;
    while i < rets.len()
        invariant
            i <= rets@.len(),
            first_error(rets@, 0) == first_error(rets@, i as int),
        decreases rets@.len() - i,
    {
        if rets[i] < 0 {
            return Err(rets[i]);
        }
        i += 1;
    }
    Ok(len)
}

/// Read a line from the keyboard into a buffer.
pub fn read_line(buf: u64, len: u64) -> (c: Call)
    ensures
        c == call(SYS_READ_LINE, buf, capped(len), 0, 0),
{
    Call { number: SYS_READ_LINE, args: [buf, cap(len), 0, 0] }
}

/// Fork.
pub fn fork() -> (c: Call)
    ensures
        c == call(SYS_FORK, 0, 0, 0, 0),
{
    Call { number: SYS_FORK, args: [0, 0, 0, 0] }
}

/// Replace this program by the one at `path`.
pub fn exec(path: u64, path_len: u64, argv: u64, envp: u64) -> (c: Call)
    ensures
        c == call(SYS_EXEC, path, path_len, argv, envp),
{
    Call { number: SYS_EXEC, args: [path, path_len, argv, envp] }
}

/// End this program with `status`; if that should return, block for ever.
pub fn exit(status: i32) -> (calls: (Call, Call))
    ensures
        calls.0 == call(SYS_EXIT, low32(status) as u64, 0, 0, 0),
        calls.1 == call(SYS_BLOCK_FOREVER, 0, 0, 0, 0),
{
    (
        Call { number: SYS_EXIT, args: [bits32(status), 0, 0, 0] },
        Call { number: SYS_BLOCK_FOREVER, args: [0, 0, 0, 0] },
    )
}

/// Wait for a child, whose status goes to `status`.
pub fn wait(status: u64) -> (c: Call)
    ensures
        c == call(SYS_WAIT, status, 0, 0, 0),
{
    Call { number: SYS_WAIT, args: [status, 0, 0, 0] }
}

/// A short description of an error.
pub open spec fn error_text(code: i64) -> &'static str {
    if code == ENOENT {
        "no such file or directory"
    } else if code == ENOTDIR {
        "not a directory"
    } else if code == EEXIST {
        "already exists"
    } else if code == EINVAL {
        "invalid path (absolute, no // or trailing /)"
    } else if code == EISDIR {
        "is a directory"
    } else if code == ERR_BAD_ELF {
        "not an executable program"
    } else if code == ERR_NO_FREE_PROC {
        "no free process slots"
    } else if code == ERR_FORK_FAILED {
        "out of memory"
    } else if code == ERR_NO_CHILDREN {
        "no child processes"
    } else if code == ERR_BAD_ARG_PTR {
        "bad address"
    } else if code == ERR_ARGS_TOO_BIG {
        "argument list too long"
    } else {
        "error"
    }
}

/// A short description of an error.
pub fn strerror(code: i64) -> (s: &'static str)
    ensures
        s == error_text(code),
{
    match code {
        ENOENT => "no such file or directory",
        ENOTDIR => "not a directory",
        EEXIST => "already exists",
        EINVAL => "invalid path (absolute, no // or trailing /)",
        EISDIR => "is a directory",
        ERR_BAD_ELF => "not an executable program",
        ERR_NO_FREE_PROC => "no free process slots",
        ERR_FORK_FAILED => "out of memory",
        ERR_NO_CHILDREN => "no child processes",
        ERR_BAD_ARG_PTR => "bad address",
        ERR_ARGS_TOO_BIG => "argument list too long",
        _ => "error",
    }
}

} // verus!
