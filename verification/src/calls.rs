//! Kernel calls: operations on other processes that only the kernel may do.
use vstd::prelude::*;

use crate::com;
use crate::com::slot_of;
use crate::elf::header::ElfError;
use crate::elf::load::{load_fault, load_image_with_args, plans, ImagePlan, LoadedImage};
use crate::elf::stack::StartArgs;
use crate::memory::copy::{copies_between, copy_between_address_spaces, CopyError};
use crate::memory::cow::Sharers;
use crate::memory::frames::BootInfoFrameAllocator;
use crate::memory::paging::ENTRIES;
use crate::proc::births::{
    below, fillable, fork_current, new_proc, spawn, switch_frame, TrapFrame,
};
use crate::proc::clock::set_alarm;
use crate::proc::model::{in_table, AddressSpace, Proc, HEAP_BASE, NEVER_SPAWNED, NR_SCHED_QUEUES};
use crate::proc::queries::{cr3_of, inherit_brk, set_address_space, team_of, Replaced};
use crate::proc::scheduler::Scheduler;
use crate::proc::soundness::holds_process;

verus! {

/// The message type of an alarm notification.
pub const SYN_ALARM: i32 = com::SYN_ALARM;

/// Copy `len` bytes from `src_addr` in the address space of process
/// `src_proc` to `dst_addr` in that of process `dst_proc`. Nobody but that
/// process sees what is written.
pub fn sys_vircopy(
    sched: &Scheduler,
    frames: &mut BootInfoFrameAllocator,
    sharers: &mut Sharers,
    mem: &mut [u8],
    src_proc: i32,
    src_addr: u64,
    dst_proc: i32,
    dst_addr: u64,
    len: usize,
) -> (r: Result<(), CopyError>)
    requires
        sched.wf(),
        old(frames).wf(old(mem)@),
        in_table(src_proc),
        in_table(dst_proc),
        src_addr + len <= u64::MAX,
        dst_addr + len <= u64::MAX,
    ensures
        final(frames).wf(final(mem)@),
        copies_between(
            old(mem)@,
            old(frames)@,
            old(sharers)@,
            sched@.space_of(slot_of(src_proc)).0,
            src_addr,
            sched@.space_of(slot_of(dst_proc)).0,
            dst_addr,
            len as int,
            final(mem)@,
            final(frames)@,
            final(sharers)@,
            r,
        ),
{
    let (src_cr3, _) = cr3_of(sched, src_proc);
    let (dst_cr3, _) = cr3_of(sched, dst_proc);
    copy_between_address_spaces(frames, sharers, mem, src_cr3, src_addr, dst_cr3, dst_addr, len)
}

/// Ask for an alarm notification once `delay_ticks` have passed.
pub fn sys_setalarm(sched: &mut Scheduler, delay_ticks: u64)
    requires
        old(sched).wf(),
        old(sched)@.ticks + delay_ticks <= u64::MAX,
    ensures
        final(sched).wf(),
        ({
            let m = old(sched)@;
            final(sched)@ == m.put(
                m.current,
                (Proc { alarm: Some((m.ticks + delay_ticks) as u64), ..m.procs[m.current] }),
            )
        }),
{
    set_alarm(sched, delay_ticks);
}

/// Create `child_proc_nr`, which starts at `entry` in `space`, a copy of the
/// address space of `src_proc`, with the same break. Without an address
/// space nothing is created. Returns the words to write at the stack pointer
/// the child was given.
pub fn sys_fork(
    sched: &mut Scheduler,
    src_proc: i32,
    child_proc_nr: i32,
    name: &'static str,
    entry: u64,
    priority: u8,
    quantum: i32,
    preemptible: bool,
    space: Option<AddressSpace>,
    stack_top: u64,
    trampoline: u64,
) -> (r: Option<Vec<u64>>)
    requires
        old(sched).wf(),
        space is Some ==> {
            &&& fillable(old(sched)@, child_proc_nr)
            &&& in_table(src_proc)
            &&& src_proc != child_proc_nr
            &&& holds_process(old(sched)@.procs[slot_of(src_proc)])
            &&& old(sched)@.procs[slot_of(src_proc)].team != child_proc_nr
            &&& priority < NR_SCHED_QUEUES
            &&& (space->0).map.wf()
            &&& below(stack_top, 8) >= 0
        },
    ensures
        final(sched).wf(),
        match space {
            Some(s) => {
                let m = old(sched)@;
                let i = slot_of(child_proc_nr);
                let n = m.install(
                    i,
                    new_proc(
                        child_proc_nr,
                        name,
                        entry,
                        priority,
                        quantum,
                        preemptible,
                        Some(s.pml4),
                        s.map,
                        below(stack_top, 8) as u64,
                        com::NONE,
                        child_proc_nr,
                        HEAP_BASE,
                    ),
                );
                &&& r matches Some(frame) && frame@ == switch_frame(trampoline)
                &&& final(sched)@ == n.put(
                    i,
                    (Proc { brk: m.inherited_brk(src_proc), ..n.procs[i] }),
                )
                &&& final(sched)@.procs[i].brk == m.procs[slot_of(
                    m.procs[slot_of(src_proc)].team,
                )].brk
            },
            None => r is None && final(sched)@ == old(sched)@,
        },
{
    match space {
        Some(s) => {
            let ghost m = sched@;
            let frame = spawn(
                sched,
                child_proc_nr,
                name,
                entry,
                priority,
                quantum,
                preemptible,
                Some(s),
                stack_top,
                trampoline,
            );
            proof {
                let i = slot_of(child_proc_nr);
                let p = slot_of(src_proc);
                let t = m.procs[p].team;
                assert(crate::proc::soundness::slot_ok(m.procs[p], p, m.sem_seq));
                assert(slot_of(t) != i);
                assert(sched@.procs[p] == m.procs[p]);
                assert(sched@.procs[slot_of(t)] == m.procs[slot_of(t)]);
            }
            inherit_brk(sched, child_proc_nr, src_proc);
            Some(frame)
        },
        None => None,
    }
}

/// Create `child_proc_nr`, a copy of `src_proc` in `space` that resumes
/// `frame`, as a child of the caller's team. Without an address space
/// nothing is created. Returns the words to write at the stack pointer the
/// child was given.
pub fn sys_fork_from_frame(
    sched: &mut Scheduler,
    src_proc: i32,
    child_proc_nr: i32,
    name: &'static str,
    priority: u8,
    quantum: i32,
    preemptible: bool,
    space: Option<AddressSpace>,
    frame: &TrapFrame,
    stack_top: u64,
    resume: u64,
) -> (r: Option<Vec<u64>>)
    requires
        old(sched).wf(),
        space is Some ==> {
            &&& fillable(old(sched)@, child_proc_nr)
            &&& in_table(src_proc)
            &&& holds_process(old(sched)@.procs[slot_of(src_proc)])
            &&& old(sched)@.procs[slot_of(src_proc)].team != child_proc_nr
            &&& priority < NR_SCHED_QUEUES
            &&& (space->0).map.wf()
            &&& below(stack_top, 28) >= 0
        },
    ensures
        final(sched).wf(),
        match space {
            Some(s) => {
                let m = old(sched)@;
                let team = m.procs[slot_of(src_proc)].team;
                &&& r matches Some(words) && words@ == switch_frame(resume) + frame.words()
                &&& final(sched)@ == m.install(
                    slot_of(child_proc_nr),
                    new_proc(
                        child_proc_nr,
                        name,
                        NEVER_SPAWNED,
                        priority,
                        quantum,
                        preemptible,
                        Some(s.pml4),
                        s.map,
                        below(stack_top, 28) as u64,
                        team,
                        child_proc_nr,
                        m.inherited_brk(team),
                    ),
                )
                &&& final(sched)@.procs[slot_of(child_proc_nr)].brk == m.procs[slot_of(team)].brk
            },
            None => r is None && final(sched)@ == old(sched)@,
        },
{
    match space {
        Some(s) => {
            proof {
                let m = sched@;
                let p = slot_of(src_proc);
                let l = slot_of(m.procs[p].team);
                assert(crate::proc::soundness::slot_ok(m.procs[p], p, m.sem_seq));
                assert(crate::proc::soundness::led(m.procs, p));
                assert(crate::proc::soundness::slot_ok(m.procs[l], l, m.sem_seq));
            }
            let team: i32 = team_of(sched, src_proc);
            Some(
                fork_current(
                    sched,
                    team,
                    child_proc_nr,
                    name,
                    priority,
                    quantum,
                    preemptible,
                    s,
                    frame,
                    stack_top,
                    resume,
                ),
            )
        },
        None => None,
    }
}

/// Work out the image that replaces a process's own: an address space that
/// starts from the kernel's, with the arguments on its stack.
pub fn sys_exec(kernel: &[u64], image: &[u8], args: &StartArgs) -> (r: Result<ImagePlan, ElfError>)
    requires
        kernel@.len() == ENTRIES,
    ensures
        match load_fault(kernel@, image@, args.block()) {
            Some(e) => r matches Err(f) && f == e,
            None => r matches Ok(plan) && plans(plan, image@, args.block()),
        },
{
    load_image_with_args(kernel, image, args)
}

/// Point `proc_nr` at the image that was loaded for it.
pub fn finish_exec(sched: &mut Scheduler, proc_nr: i32, loaded: LoadedImage) -> (r: Replaced)
    requires
        old(sched).wf(),
        in_table(proc_nr),
        loaded.map.wf(),
    ensures
        final(sched).wf(),
        ({
            let m = old(sched)@;
            let i = slot_of(proc_nr);
            &&& final(sched)@ == m.put(
                i,
                (Proc {
                    cr3: Some(loaded.pml4),
                    mem_map: loaded.map,
                    brk: HEAP_BASE,
                    ..m.procs[i]
                }),
            )
            &&& r.previous == m.procs[i].cr3
            &&& r.load_now == (if m.current == i {
                Some(m.kernel_cr3.1)
            } else {
                None
            })
        }),
{
    set_address_space(sched, proc_nr, AddressSpace { pml4: loaded.pml4, map: loaded.map })
}

} // verus!
