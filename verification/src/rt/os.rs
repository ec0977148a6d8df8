//! The port calls a program makes, with the names and status codes of the
//! kernel kit they follow.
use crate::rt::args::{nul_bounds, nul_from, until_nul};
use crate::rt::sys::{bits32, bits64, low32, low64};
use vstd::prelude::*;
use vstd::slice::slice_subrange;

verus! {

#[allow(non_camel_case_types)]
pub type status_t = i32;

#[allow(non_camel_case_types)]
pub type port_id = i32;

#[allow(non_camel_case_types)]
pub type team_id = i32;

#[allow(non_camel_case_types)]
pub type bigtime_t = i64;

pub const B_OS_NAME_LENGTH: usize = 32;

pub const B_ERROR: i32 = -1;
/// The same flag as `B_RELATIVE_TIMEOUT`.
pub const B_TIMEOUT: u32 = 0x8;

pub const SYS_CREATE_PORT: u64 = 28;
pub const SYS_FIND_PORT: u64 = 29;
pub const SYS_WRITE_PORT_ETC: u64 = 30;
pub const SYS_READ_PORT_ETC: u64 = 31;
pub const SYS_PORT_BUFFER_SIZE_ETC: u64 = 32;
pub const SYS_PORT_COUNT: u64 = 33;
pub const SYS_CLOSE_PORT: u64 = 34;
pub const SYS_DELETE_PORT: u64 = 35;
pub const SYS_GET_PORT_INFO: u64 = 36;
pub const SYS_SET_PORT_OWNER: u64 = 37;
pub const SYS_SYSTEM_TIME: u64 = 38;

/// A system call with up to six arguments.
#[derive(Clone, Copy, Debug)]
pub struct Call6 {
    pub number: u64,
    pub args: [u64; 6],
}

/// A call with the arguments it needs, the others zero.
pub open spec fn call6(number: u64, a1: int, a2: int, a3: int, a4: int, a5: int, a6: int) -> Call6 {
    Call6 { number, args: [a1 as u64, a2 as u64, a3 as u64, a4 as u64, a5 as u64, a6 as u64] }
}

/// What a program learns of a port.
#[allow(non_camel_case_types)]
#[derive(Clone, Copy, Debug)]
pub struct port_info {
    pub port: port_id,
    pub team: team_id,
    pub name: [u8; 32],
    pub capacity: i32,
    pub queue_count: i32,
    pub total_count: i32,
}

impl port_info {
    /// All zero.
    pub open spec fn blank(self) -> bool {
        &&& self.port == 0
        &&& self.team == 0
        &&& self.capacity == 0
        &&& self.queue_count == 0
        &&& self.total_count == 0
        &&& forall|i: int| 0 <= i < 32 ==> #[trigger] self.name@[i] == 0
    }

    /// All zero.
    pub fn new() -> (info: port_info)
        ensures
            info.blank(),
    {
        port_info {
            port: 0,
            team: 0,
            name: [0u8; 32],
            capacity: 0,
            queue_count: 0,
            total_count: 0,
        }
    }

    /// The name up to its NUL.
    pub fn name(&self) -> (s: &[u8])
        ensures
            s@ == until_nul(self.name@),
    {
        let all: &[u8] = &self.name;
        let mut len: usize = 0;
        while len < B_OS_NAME_LENGTH && all[len] != 0
            invariant
                len <= B_OS_NAME_LENGTH,
                all@ == self.name@,
                all@.len() == B_OS_NAME_LENGTH,
                nul_from(all@, 0) == nul_from(all@, len as int),
            decreases B_OS_NAME_LENGTH - len,
        {
            len += 1;
        }
        let s = slice_subrange(all, 0, len);
        proof {
            if nul_from(all@, 0) is Some {
                nul_bounds(all@, 0);
            }
            assert(s@ =~= until_nul(self.name@));
        }
        s
    }
}

impl Default for port_info {
    fn default() -> (info: port_info)
        ensures
            info.blank(),
    {
        port_info::new()
    }
}

/// Microseconds since boot.
pub fn system_time() -> (c: Call6)
    ensures
        c == call6(SYS_SYSTEM_TIME, 0, 0, 0, 0, 0, 0),
{
    Call6 { number: SYS_SYSTEM_TIME, args: [0, 0, 0, 0, 0, 0] }
}

/// Make a port.
pub fn create_port(capacity: i32, name: u64, name_len: u64) -> (c: Call6)
    ensures
        c == call6(SYS_CREATE_PORT, low32(capacity), name as int, name_len as int, 0, 0, 0),
{
    Call6 { number: SYS_CREATE_PORT, args: [bits32(capacity), name, name_len, 0, 0, 0] }
}

/// Find a port by name.
pub fn find_port(name: u64, name_len: u64) -> (c: Call6)
    ensures
        c == call6(SYS_FIND_PORT, name as int, name_len as int, 0, 0, 0, 0),
{
    Call6 { number: SYS_FIND_PORT, args: [name, name_len, 0, 0, 0, 0] }
}

/// Write a message, waiting for room.
pub fn write_port(port: port_id, code: i32, buffer: u64, len: u64) -> (c: Call6)
    ensures
        c == call6(
            SYS_WRITE_PORT_ETC,
            low32(port),
            low32(code),
            buffer as int,
            len as int,
            0,
            0,
        ),
{
    write_port_etc(port, code, buffer, len, 0, 0)
}

/// Write a message, with a timeout.
pub fn write_port_etc(
    port: port_id,
    code: i32,
    buffer: u64,
    len: u64,
    flags: u32,
    timeout: bigtime_t,
) -> (c: Call6)
    ensures
        c == call6(
            SYS_WRITE_PORT_ETC,
            low32(port),
            low32(code),
            buffer as int,
            len as int,
            flags as int,
            low64(timeout),
        ),
{
    Call6 {
        number: SYS_WRITE_PORT_ETC,
        args: [bits32(port), bits32(code), buffer, len, flags as u64, bits64(timeout)],
    }
}

/// Read a message, waiting for one. Its code goes to `code`.
pub fn read_port(port: port_id, code: u64, buffer: u64, len: u64) -> (c: Call6)
    ensures
        c == call6(
            SYS_READ_PORT_ETC,
            low32(port),
            code as int,
            buffer as int,
            len as int,
            0,
            0,
        ),
{
    read_port_etc(port, code, buffer, len, 0, 0)
}

/// Read a message, with a timeout.
pub fn read_port_etc(
    port: port_id,
    code: u64,
    buffer: u64,
    len: u64,
    flags: u32,
    timeout: bigtime_t,
) -> (c: Call6)
    ensures
        c == call6(
            SYS_READ_PORT_ETC,
            low32(port),
            code as int,
            buffer as int,
            len as int,
            flags as int,
            low64(timeout),
        ),
{
    Call6 {
        number: SYS_READ_PORT_ETC,
        args: [bits32(port), code, buffer, len, flags as u64, bits64(timeout)],
    }
}

/// The size of the next message, waiting for one.
pub fn port_buffer_size(port: port_id) -> (c: Call6)
    ensures
        c == call6(SYS_PORT_BUFFER_SIZE_ETC, low32(port), 0, 0, 0, 0, 0),
{
    port_buffer_size_etc(port, 0, 0)
}

/// The size of the next message, with a timeout.
pub fn port_buffer_size_etc(port: port_id, flags: u32, timeout: bigtime_t) -> (c: Call6)
    ensures
        c == call6(
            SYS_PORT_BUFFER_SIZE_ETC,
            low32(port),
            flags as int,
            low64(timeout),
            0,
            0,
            0,
        ),
{
    Call6 {
        number: SYS_PORT_BUFFER_SIZE_ETC,
        args: [bits32(port), flags as u64, bits64(timeout), 0, 0, 0],
    }
}

/// How many messages wait in a port.
pub fn port_count(port: port_id) -> (c: Call6)
    ensures
        c == call6(SYS_PORT_COUNT, low32(port), 0, 0, 0, 0, 0),
{
    Call6 { number: SYS_PORT_COUNT, args: [bits32(port), 0, 0, 0, 0, 0] }
}

/// Close a port to writers.
pub fn close_port(port: port_id) -> (c: Call6)
    ensures
        c == call6(SYS_CLOSE_PORT, low32(port), 0, 0, 0, 0, 0),
{
    Call6 { number: SYS_CLOSE_PORT, args: [bits32(port), 0, 0, 0, 0, 0] }
}

/// Delete a port.
pub fn delete_port(port: port_id) -> (c: Call6)
    ensures
        c == call6(SYS_DELETE_PORT, low32(port), 0, 0, 0, 0, 0),
{
    Call6 { number: SYS_DELETE_PORT, args: [bits32(port), 0, 0, 0, 0, 0] }
}

/// Give a port to another team.
pub fn set_port_owner(port: port_id, team: team_id) -> (c: Call6)
    ensures
        c == call6(SYS_SET_PORT_OWNER, low32(port), low32(team), 0, 0, 0, 0),
{
    Call6 { number: SYS_SET_PORT_OWNER, args: [bits32(port), bits32(team), 0, 0, 0, 0] }
}

/// What there is to know of a port, into `info`.
pub fn get_port_info(port: port_id, info: u64) -> (c: Call6)
    ensures
        c == call6(SYS_GET_PORT_INFO, low32(port), info as int, 0, 0, 0, 0),
{
    Call6 { number: SYS_GET_PORT_INFO, args: [bits32(port), info, 0, 0, 0, 0] }
}

} // verus!
