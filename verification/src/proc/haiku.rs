//! Status codes and timeout flags of the port calls.
use vstd::prelude::*;

verus! {

pub const B_OK: i32 = 0;
pub const B_NO_MEMORY: i32 = -0x8000_0000;
pub const B_BAD_VALUE: i32 = -0x7fff_fffb;
pub const B_NAME_NOT_FOUND: i32 = -0x7fff_fff9;
pub const B_TIMED_OUT: i32 = -0x7fff_fff7;
pub const B_WOULD_BLOCK: i32 = -0x7fff_fff5;
pub const B_BAD_TEAM_ID: i32 = -0x7fff_eefd;
pub const B_BAD_PORT_ID: i32 = -0x7fff_ee00;
pub const B_NO_MORE_PORTS: i32 = -0x7fff_edff;
pub const B_BAD_ADDRESS: i32 = -0x7fff_ecff;
/// The timeout counts from now.
pub const B_RELATIVE_TIMEOUT: u32 = 0x8;
/// The timeout is a moment on the system clock.
pub const B_ABSOLUTE_TIMEOUT: u32 = 0x10;
/// Wait for ever, whatever the flags.
pub const B_INFINITE_TIMEOUT: i64 = i64::MAX;

} // verus!
