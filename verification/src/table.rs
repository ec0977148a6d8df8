//! The processes of the system image.
use crate::com;
use crate::proc::model::{IDLE_Q, TASK_Q};
use vstd::prelude::*;

verus! {

/// One process of the system image.
#[derive(Clone, Copy, Debug)]
pub struct BootImageEntry {
    pub proc_nr: i32,
    pub name: &'static str,
}

/// How many there are.
pub const NR_BOOT_PROCS: usize = 15;

/// The processes of the system image, in the order they are started.
pub open spec fn boot_image() -> Seq<BootImageEntry> {
    seq![
        BootImageEntry { proc_nr: com::IDLE, name: "IDLE" },
        BootImageEntry { proc_nr: com::CLOCK, name: "CLOCK" },
        BootImageEntry { proc_nr: com::SYSTEM, name: "SYSTEM" },
        BootImageEntry { proc_nr: com::HARDWARE, name: "KERNEL" },
        BootImageEntry { proc_nr: com::PM_PROC_NR, name: "pm" },
        BootImageEntry { proc_nr: com::FS_PROC_NR, name: "fs" },
        BootImageEntry { proc_nr: com::RS_PROC_NR, name: "rs" },
        BootImageEntry { proc_nr: com::TTY_PROC_NR, name: "tty" },
        BootImageEntry { proc_nr: com::MEM_PROC_NR, name: "memory" },
        BootImageEntry { proc_nr: com::LOG_PROC_NR, name: "log" },
        BootImageEntry { proc_nr: com::DRVR_PROC_NR, name: "driver" },
        BootImageEntry { proc_nr: com::INIT_PROC_NR, name: "init" },
        BootImageEntry { proc_nr: com::FLAKY_PROC_NR, name: "flaky" },
        BootImageEntry { proc_nr: com::CONSOLE_PROC_NR, name: "console" },
        BootImageEntry {
            proc_nr: com::APP1_PROC_NR,
            name: "hello (app slot, not started at boot)",
        },
    ]
}

/// The processes of the system image.
pub fn boot_entries() -> (entries: [BootImageEntry; 15])
    ensures
        entries@ == boot_image(),
{
    let entries = [
        BootImageEntry { proc_nr: com::IDLE, name: "IDLE" },
        BootImageEntry { proc_nr: com::CLOCK, name: "CLOCK" },
        BootImageEntry { proc_nr: com::SYSTEM, name: "SYSTEM" },
        BootImageEntry { proc_nr: com::HARDWARE, name: "KERNEL" },
        BootImageEntry { proc_nr: com::PM_PROC_NR, name: "pm" },
        BootImageEntry { proc_nr: com::FS_PROC_NR, name: "fs" },
        BootImageEntry { proc_nr: com::RS_PROC_NR, name: "rs" },
        BootImageEntry { proc_nr: com::TTY_PROC_NR, name: "tty" },
        BootImageEntry { proc_nr: com::MEM_PROC_NR, name: "memory" },
        BootImageEntry { proc_nr: com::LOG_PROC_NR, name: "log" },
        BootImageEntry { proc_nr: com::DRVR_PROC_NR, name: "driver" },
        BootImageEntry { proc_nr: com::INIT_PROC_NR, name: "init" },
        BootImageEntry { proc_nr: com::FLAKY_PROC_NR, name: "flaky" },
        BootImageEntry { proc_nr: com::CONSOLE_PROC_NR, name: "console" },
        BootImageEntry {
            proc_nr: com::APP1_PROC_NR,
            name: "hello (app slot, not started at boot)",
        },
    ];
    assert(entries@ =~= boot_image());
    entries
}

/// No two processes of the image have the same number.
pub proof fn boot_numbers_differ(a: int, b: int)
    requires
        0 <= a < b < boot_image().len(),
    ensures
        boot_image()[a].proc_nr != boot_image()[b].proc_nr,
{
    let image = boot_image();
    assert(image[0].proc_nr == -4 && image[1].proc_nr == -3 && image[2].proc_nr == -2
        && image[3].proc_nr == -1 && image[4].proc_nr == 0 && image[5].proc_nr == 1
        && image[6].proc_nr == 2 && image[7].proc_nr == 5 && image[8].proc_nr == 3
        && image[9].proc_nr == 4 && image[10].proc_nr == 6 && image[11].proc_nr == 7
        && image[12].proc_nr == 8 && image[13].proc_nr == 9 && image[14].proc_nr == 10);
}

/// A process that is started at boot, and how it is scheduled.
#[derive(Clone, Copy, Debug)]
pub struct TaskEntry {
    pub proc_nr: i32,
    pub name: &'static str,
    pub priority: u8,
    pub quantum: i32,
    pub preemptible: bool,
}

/// The processes that are started at boot, in order.
pub open spec fn boot_tasks() -> Seq<TaskEntry> {
    seq![
        TaskEntry {
            proc_nr: com::IDLE,
            name: "IDLE",
            priority: IDLE_Q,
            quantum: 8,
            preemptible: true,
        },
        TaskEntry {
            proc_nr: com::CLOCK,
            name: "CLOCK",
            priority: TASK_Q,
            quantum: 64,
            preemptible: false,
        },
        TaskEntry {
            proc_nr: com::PM_PROC_NR,
            name: "pm (demo)",
            priority: 3,
            quantum: 32,
            preemptible: true,
        },
        TaskEntry {
            proc_nr: com::FS_PROC_NR,
            name: "fs (demo)",
            priority: 4,
            quantum: 32,
            preemptible: true,
        },
        TaskEntry {
            proc_nr: com::RS_PROC_NR,
            name: "rs",
            priority: 5,
            quantum: 16,
            preemptible: true,
        },
        TaskEntry {
            proc_nr: com::MEM_PROC_NR,
            name: "memory (demo)",
            priority: 6,
            quantum: 16,
            preemptible: true,
        },
        TaskEntry {
            proc_nr: com::DRVR_PROC_NR,
            name: "driver (ring3 demo)",
            priority: 6,
            quantum: 16,
            preemptible: true,
        },
        TaskEntry {
            proc_nr: com::TTY_PROC_NR,
            name: "tty (elf demo)",
            priority: 6,
            quantum: 16,
            preemptible: true,
        },
        TaskEntry {
            proc_nr: com::SHELL_PROC_NR,
            name: "shell (fork/exec demo)",
            priority: 6,
            quantum: 16,
            preemptible: true,
        },
        TaskEntry {
            proc_nr: com::SH_PROC_NR,
            name: "sh",
            priority: 6,
            quantum: 16,
            preemptible: true,
        },
        TaskEntry {
            proc_nr: com::FLAKY_PROC_NR,
            name: "flaky (crash demo)",
            priority: 6,
            quantum: 16,
            preemptible: true,
        },
        TaskEntry {
            proc_nr: com::CONSOLE_PROC_NR,
            name: "console",
            priority: 5,
            quantum: 16,
            preemptible: true,
        },
    ]
}

/// The processes that are started at boot.
pub fn task_entries() -> (entries: [TaskEntry; 12])
    ensures
        entries@ == boot_tasks(),
{
    let entries = [
        TaskEntry {
            proc_nr: com::IDLE,
            name: "IDLE",
            priority: IDLE_Q,
            quantum: 8,
            preemptible: true,
        },
        TaskEntry {
            proc_nr: com::CLOCK,
            name: "CLOCK",
            priority: TASK_Q,
            quantum: 64,
            preemptible: false,
        },
        TaskEntry {
            proc_nr: com::PM_PROC_NR,
            name: "pm (demo)",
            priority: 3,
            quantum: 32,
            preemptible: true,
        },
        TaskEntry {
            proc_nr: com::FS_PROC_NR,
            name: "fs (demo)",
            priority: 4,
            quantum: 32,
            preemptible: true,
        },
        TaskEntry {
            proc_nr: com::RS_PROC_NR,
            name: "rs",
            priority: 5,
            quantum: 16,
            preemptible: true,
        },
        TaskEntry {
            proc_nr: com::MEM_PROC_NR,
            name: "memory (demo)",
            priority: 6,
            quantum: 16,
            preemptible: true,
        },
        TaskEntry {
            proc_nr: com::DRVR_PROC_NR,
            name: "driver (ring3 demo)",
            priority: 6,
            quantum: 16,
            preemptible: true,
        },
        TaskEntry {
            proc_nr: com::TTY_PROC_NR,
            name: "tty (elf demo)",
            priority: 6,
            quantum: 16,
            preemptible: true,
        },
        TaskEntry {
            proc_nr: com::SHELL_PROC_NR,
            name: "shell (fork/exec demo)",
            priority: 6,
            quantum: 16,
            preemptible: true,
        },
        TaskEntry {
            proc_nr: com::SH_PROC_NR,
            name: "sh",
            priority: 6,
            quantum: 16,
            preemptible: true,
        },
        TaskEntry {
            proc_nr: com::FLAKY_PROC_NR,
            name: "flaky (crash demo)",
            priority: 6,
            quantum: 16,
            preemptible: true,
        },
        TaskEntry {
            proc_nr: com::CONSOLE_PROC_NR,
            name: "console",
            priority: 5,
            quantum: 16,
            preemptible: true,
        },
    ];
    assert(entries@ =~= boot_tasks());
    entries
}

/// Whether process `nr` runs a program in user mode.
pub open spec fn runs_a_program(nr: i32) -> bool {
    ||| nr == com::DRVR_PROC_NR
    ||| nr == com::TTY_PROC_NR
    ||| nr == com::SHELL_PROC_NR
    ||| nr == com::SH_PROC_NR
    ||| nr == com::FLAKY_PROC_NR
}

/// The service manager goes before every program, so that it waits for
/// reports by the time the first of them can die, and every process goes
/// before the idle one.
pub proof fn service_manager_goes_first(i: int, j: int)
    requires
        0 <= i < boot_tasks().len(),
        0 <= j < boot_tasks().len(),
        boot_tasks()[i].proc_nr == com::RS_PROC_NR,
    ensures
        runs_a_program(boot_tasks()[j].proc_nr) ==> boot_tasks()[i].priority
            < boot_tasks()[j].priority,
        boot_tasks()[j].proc_nr != com::IDLE ==> boot_tasks()[j].priority < IDLE_Q,
{
    let t = boot_tasks();
    assert(t[0].proc_nr == com::IDLE);
    assert(t[1].proc_nr == com::CLOCK && t[1].priority == TASK_Q);
    assert(t[2].proc_nr == com::PM_PROC_NR && t[2].priority == 3);
    assert(t[3].proc_nr == com::FS_PROC_NR && t[3].priority == 4);
    assert(t[4].proc_nr == com::RS_PROC_NR && t[4].priority == 5);
    assert(t[5].proc_nr == com::MEM_PROC_NR && t[5].priority == 6);
    assert(t[6].proc_nr == com::DRVR_PROC_NR && t[6].priority == 6);
    assert(t[7].proc_nr == com::TTY_PROC_NR && t[7].priority == 6);
    assert(t[8].proc_nr == com::SHELL_PROC_NR && t[8].priority == 6);
    assert(t[9].proc_nr == com::SH_PROC_NR && t[9].priority == 6);
    assert(t[10].proc_nr == com::FLAKY_PROC_NR && t[10].priority == 6);
    assert(t[11].proc_nr == com::CONSOLE_PROC_NR && t[11].priority == 5);
}

} // verus!
