//! Starting a program as a process of its own.
use crate::com::{slot, slot_of, NONE};
use crate::elf::file::{after_reading, contents, read_file, ENOEXEC};
use crate::elf::load::{load_fault, load_image, plans, ImagePlan, LoadedImage};
use crate::elf::stack::Block;
use crate::fs::{InMemoryFs, Owner};
use crate::memory::paging::ENTRIES;
use crate::proc::births::{below, fillable, new_proc, spawn, switch_frame};
use crate::proc::model::{in_table, AddressSpace, HEAP_BASE, NR_PROCS, NR_SCHED_QUEUES};
use crate::proc::scheduler::Scheduler;
use vstd::prelude::*;

verus! {

/// Where the program of each process slot starts: its entry point and first
/// stack pointer.
pub struct TaskParams {
    params: Vec<(u64, u64)>,
}

impl View for TaskParams {
    type V = Seq<(u64, u64)>;

    closed spec fn view(&self) -> Seq<(u64, u64)> {
        self.params@
    }
}

impl TaskParams {
    pub open spec fn wf(&self) -> bool {
        self@.len() == NR_PROCS
    }

    /// Nothing recorded yet.
    pub fn new() -> (t: TaskParams)
        ensures
            t.wf(),
            t@ == Seq::new(NR_PROCS as nat, |i: int| (0u64, 0u64)),
    {
        let mut params: Vec<(u64, u64)> = Vec::new();
        while params.len() < NR_PROCS
            invariant
                params@.len() <= NR_PROCS,
                params@ == Seq::new(params@.len(), |i: int| (0u64, 0u64)),
            decreases NR_PROCS - params@.len(),
        {
            let ghost n = params@.len();
            params.push((0, 0));
            assert(params@ =~= Seq::new(n + 1, |i: int| (0u64, 0u64)));
        }
        TaskParams { params }
    }

    /// Remember where `proc_nr` starts.
    pub fn record_params(&mut self, proc_nr: i32, loaded: &LoadedImage)
        requires
            old(self).wf(),
            in_table(proc_nr),
        ensures
            final(self).wf(),
            final(self)@ == old(self)@.update(
                slot_of(proc_nr),
                (loaded.entry, loaded.stack_pointer),
            ),
    {
        self.params.set(slot(proc_nr), (loaded.entry, loaded.stack_pointer));
    }

    /// Where `proc_nr` starts.
    pub fn task_entry(&self, proc_nr: i32) -> (r: (u64, u64))
        requires
            self.wf(),
            in_table(proc_nr),
        ensures
            r == self@[slot_of(proc_nr)],
    {
        self.params[slot(proc_nr)]
    }
}

/// Read the program at `path` and work out how to load it over `kernel`, or
/// say why not: as reading the file says, or `ENOEXEC` for a file that is no
/// program.
pub fn spawn_from_fs(fs: &mut InMemoryFs, kernel: &[u64], path: &[u8], owner: Owner) -> (r: Result<
    ImagePlan,
    i64,
>)
    requires
        old(fs)@.wf(),
        old(fs)@.open.len() < i64::MAX,
        kernel@.len() == ENTRIES,
    ensures
        final(fs)@.wf(),
        final(fs)@ == after_reading(old(fs)@, path@, owner),
        match contents(old(fs)@, path@) {
            Err(e) => r matches Err(f) && f == e,
            Ok(image) => {
                let block = Block { argv: Seq::empty(), envp: Seq::empty() };
                if load_fault(kernel@, image, block) is Some {
                    r matches Err(f) && f == ENOEXEC
                } else {
                    r matches Ok(plan) && plans(plan, image, block)
                }
            },
        },
{
    match read_file(fs, path, owner) {
        Ok(image) => match load_image(kernel, image.as_slice()) {
            Ok(plan) => Ok(plan),
            Err(_) => Err(ENOEXEC),
        },
        Err(e) => Err(e),
    }
}

/// Make `loaded` a process of its own: `proc_nr`, which starts through
/// `task_entry` where `params` now says. Returns the words to write at the
/// stack pointer it was given.
pub fn spawn_loaded(
    sched: &mut Scheduler,
    params: &mut TaskParams,
    proc_nr: i32,
    name: &'static str,
    priority: u8,
    quantum: i32,
    loaded: &LoadedImage,
    task_entry: u64,
    stack_top: u64,
    trampoline: u64,
) -> (frame: Vec<u64>)
    requires
        old(sched).wf(),
        old(params).wf(),
        fillable(old(sched)@, proc_nr),
        priority < NR_SCHED_QUEUES,
        loaded.map.wf(),
        below(stack_top, 8) >= 0,
    ensures
        final(sched).wf(),
        final(params).wf(),
        frame@ == switch_frame(trampoline),
        final(params)@ == old(params)@.update(
            slot_of(proc_nr),
            (loaded.entry, loaded.stack_pointer),
        ),
        final(sched)@ == old(sched)@.install(
            slot_of(proc_nr),
            new_proc(
                proc_nr,
                name,
                task_entry,
                priority,
                quantum,
                true,
                Some(loaded.pml4),
                loaded.map,
                below(stack_top, 8) as u64,
                NONE,
                proc_nr,
                HEAP_BASE,
            ),
        ),
{
    params.record_params(proc_nr, loaded);
    spawn(
        sched,
        proc_nr,
        name,
        task_entry,
        priority,
        quantum,
        true,
        Some(AddressSpace { pml4: loaded.pml4, map: loaded.map }),
        stack_top,
        trampoline,
    )
}

} // verus!
