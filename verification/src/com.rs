//! Process numbers and kernel notification types: the vocabulary that the
//! process table, the scheduler and the message layer share.
use vstd::prelude::*;

verus! {

/// Magic process numbers: any sender, no process, the caller itself.
pub const ANY: i32 = 0x7ace;
pub const NONE: i32 = 0x6ace;
pub const SELF: i32 = 0x8ace;

/// Kernel tasks, which run in the kernel's own context.
pub const IDLE: i32 = -4;
pub const CLOCK: i32 = -3;
pub const SYSTEM: i32 = -2;
pub const KERNEL: i32 = -1;
pub const HARDWARE: i32 = KERNEL;

pub const NR_TASKS: usize = 4;

/// Servers, drivers and programs of the fixed system image.
pub const PM_PROC_NR: i32 = 0;
pub const FS_PROC_NR: i32 = 1;
pub const RS_PROC_NR: i32 = 2;
pub const MEM_PROC_NR: i32 = 3;
pub const LOG_PROC_NR: i32 = 4;
pub const TTY_PROC_NR: i32 = 5;
pub const DRVR_PROC_NR: i32 = 6;
pub const INIT_PROC_NR: i32 = 7;
/// The service whose only instruction crashes it: what the restart policy
/// of `crate::rs` is exercised on.
pub const FLAKY_PROC_NR: i32 = 8;
/// The consumer of completed console lines.
pub const CONSOLE_PROC_NR: i32 = 9;
/// The one program that can be launched by name at run time.
pub const APP1_PROC_NR: i32 = 10;
/// The program that forks, execs and waits.
pub const SHELL_PROC_NR: i32 = 11;
/// The interactive shell.
pub const SH_PROC_NR: i32 = 12;

/// The first process number handed out at run time rather than reserved
/// above, and how many of them there are.
pub const FIRST_DYNAMIC_PROC_NR: i32 = SH_PROC_NR + 1;
pub const NR_DYNAMIC_PROCS: usize = 16;

/// How many process-table slots there are in total: the kernel tasks, every
/// fixed process number above, and the dynamic range.
pub const NR_PROC_SLOTS: usize = 33;

/// Notification message types carry this bit and the sender's slot.
pub const NOTIFY_MESSAGE: i32 = 0x1000;
pub const SYN_ALARM: i32 = 0x1001;
pub const SYS_SIG: i32 = 0x1002;
pub const HARD_INT: i32 = 0x1003;

/// Marker bit of "a process died" notifications; the low bits carry the
/// dead process's slot.
pub const PROC_DIED: i32 = 0x4000;

/// The request that asks the service manager to launch a named service.
pub const RS_LAUNCH_REQUEST: i32 = 401;

/// The name of the dynamic slot that holds `proc_nr`.
pub open spec fn dynamic_name(proc_nr: i32) -> &'static str {
    let i = proc_nr - FIRST_DYNAMIC_PROC_NR;
    if i == 0 { "forked child 1" }
    else if i == 1 { "forked child 2" }
    else if i == 2 { "forked child 3" }
    else if i == 3 { "forked child 4" }
    else if i == 4 { "forked child 5" }
    else if i == 5 { "forked child 6" }
    else if i == 6 { "forked child 7" }
    else if i == 7 { "forked child 8" }
    else if i == 8 { "forked child 9" }
    else if i == 9 { "forked child 10" }
    else if i == 10 { "forked child 11" }
    else if i == 11 { "forked child 12" }
    else if i == 12 { "forked child 13" }
    else if i == 13 { "forked child 14" }
    else if i == 14 { "forked child 15" }
    else if i == 15 { "forked child 16" }
    else { "forked child" }
}

/// A name for each dynamically allocated slot, written out in advance: a
/// process created at run time has no literal of its own.
pub fn dynamic_proc_name(proc_nr: i32) -> (name: &'static str)
    requires
        proc_nr - FIRST_DYNAMIC_PROC_NR >= i32::MIN,
    ensures
        name == dynamic_name(proc_nr),
{
    let i: i32 = proc_nr - FIRST_DYNAMIC_PROC_NR;
    match i {
        0 => "forked child 1",
        1 => "forked child 2",
        2 => "forked child 3",
        3 => "forked child 4",
        4 => "forked child 5",
        5 => "forked child 6",
        6 => "forked child 7",
        7 => "forked child 8",
        8 => "forked child 9",
        9 => "forked child 10",
        10 => "forked child 11",
        11 => "forked child 12",
        12 => "forked child 13",
        13 => "forked child 14",
        14 => "forked child 15",
        15 => "forked child 16",
        _ => "forked child",
    }
}

/// The table index of process number `proc_nr`. A number below the first
/// kernel task wraps to an index past the end of every table.
pub open spec fn slot_of(proc_nr: i32) -> int {
    (((proc_nr + NR_TASKS) as i32) as usize) as int
}

/// Map a process number to a dense table index. Kernel tasks use negative
/// numbers, everything else small non-negative ones; both ranges fold into
/// one index that starts at zero.
pub fn slot(proc_nr: i32) -> (idx: usize)
    requires
        proc_nr + NR_TASKS <= i32::MAX,
    ensures
        idx == slot_of(proc_nr),
{
    let n: i32 = proc_nr + NR_TASKS as i32;
    n as usize
}

/// The message type of a notification from process `p_nr`.
pub fn notify_from(p_nr: i32) -> (m_type: i32)
    requires
        p_nr + NR_TASKS <= i32::MAX,
    ensures
        m_type == NOTIFY_MESSAGE | ((p_nr + NR_TASKS) as i32),
{
    NOTIFY_MESSAGE | (p_nr + NR_TASKS as i32)
}

/// The message type that reports the death of process `p_nr`.
pub open spec fn died_type(p_nr: i32) -> i32 {
    PROC_DIED | ((p_nr + NR_TASKS) as i32)
}

/// The message type that reports the death of process `p_nr`.
pub fn proc_died(p_nr: i32) -> (m_type: i32)
    requires
        p_nr + NR_TASKS <= i32::MAX,
    ensures
        m_type == died_type(p_nr),
{
    let n: i32 = p_nr + NR_TASKS as i32;
    assert((n as usize) as i32 == n) by (bit_vector);
    PROC_DIED | (slot(p_nr) as i32)
}

/// Decode the message type of a death report back to a slot, or `None` if
/// it is no such report.
pub fn proc_died_slot(m_type: i32) -> (slot: Option<usize>)
    ensures
        slot == (if m_type & PROC_DIED != 0 { Some((m_type & !PROC_DIED) as usize) } else { None }),
{
    if m_type & PROC_DIED != 0 {
        Some((m_type & !PROC_DIED) as usize)
    } else {
        None
    }
}

/// The inverse of `slot`: which process number lives in a table index.
pub fn proc_nr_of_slot(slot: usize) -> (proc_nr: i32)
    requires
        slot <= i32::MAX,
    ensures
        proc_nr == slot - NR_TASKS,
{
    slot as i32 - NR_TASKS as i32
}

/// `proc_nr_of_slot` undoes `slot` on every number a table index exists for,
/// and `slot` undoes `proc_nr_of_slot`.
pub proof fn slot_round_trip(proc_nr: i32, idx: usize)
    requires
        -NR_TASKS <= proc_nr <= i32::MAX - NR_TASKS,
        idx <= i32::MAX - NR_TASKS,
    ensures
        slot_of(proc_nr) - NR_TASKS == proc_nr,
        slot_of((idx - NR_TASKS) as i32) == idx,
{
}

/// A death report decodes to the slot of the process that died.
pub proof fn death_report_round_trip(p_nr: i32)
    requires
        -NR_TASKS <= p_nr,
        p_nr + NR_TASKS < PROC_DIED,
    ensures
        died_type(p_nr) & PROC_DIED != 0,
        (died_type(p_nr) & !PROC_DIED) as usize == slot_of(p_nr),
{
    let n = (p_nr + NR_TASKS) as i32;
    assert((0x4000i32 | n) & 0x4000i32 != 0 && (0 <= n < 0x4000 ==> (0x4000i32 | n) & !0x4000i32
        == n)) by (bit_vector);
}

/// No ordinary notification is ever taken for a death report, and no death
/// report for an ordinary notification.
pub proof fn reports_never_collide(sender: i32, p_nr: i32)
    requires
        -NR_TASKS <= sender,
        sender + NR_TASKS < NOTIFY_MESSAGE,
        -NR_TASKS <= p_nr,
        p_nr + NR_TASKS < NOTIFY_MESSAGE,
    ensures
        (NOTIFY_MESSAGE | ((sender + NR_TASKS) as i32)) & PROC_DIED == 0,
        died_type(p_nr) & NOTIFY_MESSAGE == 0,
{
    let s = (sender + NR_TASKS) as i32;
    let n = (p_nr + NR_TASKS) as i32;
    assert(0 <= s < 0x1000 ==> (0x1000i32 | s) & 0x4000i32 == 0) by (bit_vector);
    assert(0 <= n < 0x1000 ==> (0x4000i32 | n) & 0x1000i32 == 0) by (bit_vector);
}

} // verus!
