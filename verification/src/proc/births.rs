//! How processes and threads begin.
use vstd::prelude::*;

use crate::com;
use crate::com::{slot, slot_of};
use crate::memory::map::MemMap;
use crate::proc::model::{
    empty_proc, first_from, in_table, AddressSpace, Proc, SchedModel, HEAP_BASE, NEVER_SPAWNED,
    NR_PROCS, NR_SCHED_QUEUES,
};
use crate::proc::rts;
use crate::proc::rts::flagged;
use crate::proc::scheduler::{next_generation, Scheduler};
use crate::proc::soundness::{
    fits_team, frame_sound, holds_process, leader_fits, led, lined_up_is_sending,
    lone_leader_is_alone, put_sound, queued_is_runnable, slot_ok, sound, sound_mono,
};

verus! {

/// A saved trap frame: the fifteen general-purpose registers in the order
/// they are pushed, and above them what the processor pushed itself.
#[derive(Clone, Copy, Debug, PartialEq, Eq, Structural)]
pub struct TrapFrame {
    pub r15: u64,
    pub r14: u64,
    pub r13: u64,
    pub r12: u64,
    pub r11: u64,
    pub r10: u64,
    pub r9: u64,
    pub r8: u64,
    pub rbp: u64,
    pub rdi: u64,
    pub rsi: u64,
    pub rdx: u64,
    pub rcx: u64,
    pub rbx: u64,
    pub rax: u64,
    pub rip: u64,
    pub cs: u64,
    pub rflags: u64,
    pub rsp: u64,
    pub ss: u64,
}

/// The flags a program starts with: the reserved bit, and interrupts on.
pub const USER_RFLAGS: u64 = 0x202;

impl TrapFrame {
    /// The frame as it lies in memory, lowest address first.
    pub open spec fn words(self) -> Seq<u64> {
        seq![
            self.r15,
            self.r14,
            self.r13,
            self.r12,
            self.r11,
            self.r10,
            self.r9,
            self.r8,
            self.rbp,
            self.rdi,
            self.rsi,
            self.rdx,
            self.rcx,
            self.rbx,
            self.rax,
            self.rip,
            self.cs,
            self.rflags,
            self.rsp,
            self.ss,
        ]
    }

    /// The frame that turns a trap's return into the start of a program:
    /// same ring, new entry point and stack, every general-purpose register
    /// zero.
    pub fn exec_into(&self, entry: u64, stack_pointer: u64) -> (r: TrapFrame)
        ensures
            r.rip == entry,
            r.rsp == stack_pointer,
            r.rflags == USER_RFLAGS,
            r.cs == self.cs,
            r.ss == self.ss,
            forall|k: int| 0 <= k < 15 ==> #[trigger] r.words()[k] == 0,
    {
        TrapFrame {
            r15: 0,
            r14: 0,
            r13: 0,
            r12: 0,
            r11: 0,
            r10: 0,
            r9: 0,
            r8: 0,
            rbp: 0,
            rdi: 0,
            rsi: 0,
            rdx: 0,
            rcx: 0,
            rbx: 0,
            rax: 0,
            rip: entry,
            cs: self.cs,
            rflags: USER_RFLAGS,
            rsp: stack_pointer,
            ss: self.ss,
        }
    }
}

/// What the first switch to a process pops off its stack: six zero
/// registers, the flags, and the address it returns to.
pub open spec fn switch_frame(resume: u64) -> Seq<u64> {
    seq![0u64, 0u64, 0u64, 0u64, 0u64, 0u64, USER_RFLAGS, resume]
}

/// The stack pointer below `words` words on a stack that ends at `top`,
/// which is rounded down to a multiple of sixteen first.
pub open spec fn below(top: u64, words: int) -> int {
    top - top % 16 - 8 * words
}

impl SchedModel {
    /// Slot `i` holds a new process, ready to run.
    pub open spec fn install(self, i: int, p: Proc) -> SchedModel {
        SchedModel {
            generations: self.generations.update(i, next_generation(self.generations[i])),
            ..self.refill(i, p)
        }.enqueue(i)
    }

    /// The break that a child of `parent` starts with: that of its team.
    pub open spec fn inherited_brk(self, parent: i32) -> u64 {
        if parent == com::NONE {
            HEAP_BASE
        } else {
            self.procs[slot_of(self.procs[slot_of(parent)].team)].brk
        }
    }

    /// The first number of the dynamic range whose slot is free, counted
    /// from the start of the range.
    pub open spec fn free_dynamic(self) -> Option<int> {
        first_from(
            0,
            com::NR_DYNAMIC_PROCS as int,
            |k: int|
                flagged(
                    self.flags(slot_of((com::FIRST_DYNAMIC_PROC_NR + k) as i32)),
                    rts::SLOT_FREE,
                ),
        )
    }
}

/// The entry of a process that was just created.
pub open spec fn new_proc(
    proc_nr: i32,
    name: &'static str,
    entry: u64,
    priority: u8,
    quantum: i32,
    preemptible: bool,
    cr3: Option<u64>,
    mem_map: MemMap,
    rsp: u64,
    parent: i32,
    team: i32,
    brk: u64,
) -> Proc {
    Proc {
        proc_nr,
        name,
        rts_flags: 0,
        priority,
        max_priority: priority,
        ticks_left: quantum,
        quantum_size: quantum,
        preemptible,
        rsp,
        entry,
        cr3,
        mem_map,
        parent,
        team,
        brk,
        ..empty_proc()
    }
}

/// Whether a new process may be put into the slot of `proc_nr`: nothing
/// there can run or is in line to send.
pub open spec fn fillable(m: SchedModel, proc_nr: i32) -> bool {
    &&& in_table(proc_nr)
    &&& m.flags(slot_of(proc_nr)) != 0
    &&& !flagged(m.flags(slot_of(proc_nr)), rts::SENDING)
}

impl Scheduler {
    /// Fill slot `idx` with a new process, and make it ready.
    fn install(&mut self, idx: usize, p: Proc)
        requires
            old(self).wf(),
            fillable(old(self)@, (idx - com::NR_TASKS) as i32),
            idx < NR_PROCS,
            slot_ok(p, idx as int, old(self)@.sem_seq),
            p.rts_flags == 0,
            p.sem_wait is None,
            fits_team(old(self)@, idx as int, p.team),
        ensures
            final(self).wf(),
            final(self)@ == old(self)@.install(idx as int, p),
    {
        let ghost none = Set::<int>::empty();
        let ghost i = idx as int;
        let ghost xs = none.insert(i);
        let ghost m = self@;
        proof {
            assert(slot_of((idx - com::NR_TASKS) as i32) == i);
            queued_is_runnable(m, none, i);
            lined_up_is_sending(m, none, i);
            sound_mono(m, none, xs);
            rts::none_set();
        }
        self.refill(idx, p, Ghost(xs));
        let ghost m1 = self@;
        proof {
            assert forall|l: int, k: int| #![trigger m1.queues[l][k]] 0 <= l < m1.queues.len() && 0 <= k
                < m1.queues[l].len() implies m1.queues[l][k] != i by {
                assert(m.queues[l][k] == m1.queues[l][k]);
            }
        }
        self.bump_generation(idx);
        proof {
            frame_sound(m1, self@, xs);
        }
        self.enqueue(idx, Ghost(xs));
        proof {
            assert(xs.remove(i) =~= none);
        }
    }
}

/// The words of a switch frame.
fn frame_for(resume: u64) -> (r: Vec<u64>)
    ensures
        r@ == switch_frame(resume),
{
    let mut r: Vec<u64> = Vec::new();
    r.push(0);
    r.push(0);
    r.push(0);
    r.push(0);
    r.push(0);
    r.push(0);
    r.push(USER_RFLAGS);
    r.push(resume);
    r
}

/// Create process `proc_nr`, ready to run from `entry`. `stack_top` is the
/// end of its kernel stack and `trampoline` the code that its first switch
/// returns to. Returns the words to write at the stack pointer it was given.
pub fn spawn(
    sched: &mut Scheduler,
    proc_nr: i32,
    name: &'static str,
    entry: u64,
    priority: u8,
    quantum: i32,
    preemptible: bool,
    address_space: Option<AddressSpace>,
    stack_top: u64,
    trampoline: u64,
) -> (frame: Vec<u64>)
    requires
        old(sched).wf(),
        fillable(old(sched)@, proc_nr),
        priority < NR_SCHED_QUEUES,
        address_space matches Some(space) ==> space.map.wf(),
        below(stack_top, 8) >= 0,
    ensures
        final(sched).wf(),
        frame@ == switch_frame(trampoline),
        final(sched)@ == old(sched)@.install(
            slot_of(proc_nr),
            new_proc(
                proc_nr,
                name,
                entry,
                priority,
                quantum,
                preemptible,
                (match address_space {
                    Some(space) => Some(space.pml4),
                    None => None,
                }),
                (match address_space {
                    Some(space) => space.map,
                    None => MemMap::none(),
                }),
                below(stack_top, 8) as u64,
                com::NONE,
                proc_nr,
                HEAP_BASE,
            ),
        ),
{
    let idx: usize = slot(proc_nr);
    let mut p = Proc::empty();
    p.proc_nr = proc_nr;
    p.name = name;
    p.rts_flags = 0;
    p.priority = priority;
    p.max_priority = priority;
    p.ticks_left = quantum;
    p.quantum_size = quantum;
    p.preemptible = preemptible;
    p.rsp = stack_top - stack_top % 16 - 64;
    p.entry = entry;
    match address_space {
        Some(space) => {
            p.cr3 = Some(space.pml4);
            p.mem_map = space.map;
        },
        None => {},
    }
    p.team = proc_nr;
    proof {
        rts::none_set();
        MemMap::none_is_empty();
        leader_fits(sched@, Set::empty(), idx as int);
    }
    sched.install(idx, p);
    frame_for(trampoline)
}

/// What `fork_current` and `spawn_thread` share: fill the slot of
/// `child_proc_nr` with a process whose first run resumes `frame`.
fn install_trapped(
    sched: &mut Scheduler,
    parent_proc_nr: i32,
    child_proc_nr: i32,
    team: i32,
    name: &'static str,
    priority: u8,
    quantum: i32,
    preemptible: bool,
    address_space: AddressSpace,
    frame: &TrapFrame,
    stack_top: u64,
    resume: u64,
) -> (words: Vec<u64>)
    requires
        old(sched).wf(),
        fillable(old(sched)@, child_proc_nr),
        parent_proc_nr != com::NONE ==> in_table(parent_proc_nr) && holds_process(
            old(sched)@.procs[slot_of(parent_proc_nr)],
        ),
        parent_proc_nr != child_proc_nr,
        in_table(team),
        fits_team(old(sched)@, slot_of(child_proc_nr), team),
        priority < NR_SCHED_QUEUES,
        address_space.map.wf(),
        below(stack_top, 28) >= 0,
    ensures
        final(sched).wf(),
        words@ == switch_frame(resume) + frame.words(),
        final(sched)@ == old(sched)@.install(
            slot_of(child_proc_nr),
            new_proc(
                child_proc_nr,
                name,
                NEVER_SPAWNED,
                priority,
                quantum,
                preemptible,
                Some(address_space.pml4),
                address_space.map,
                below(stack_top, 28) as u64,
                parent_proc_nr,
                team,
                old(sched)@.inherited_brk(parent_proc_nr),
            ),
        ),
        // The break is the one recorded with the leader of the parent's team.
        parent_proc_nr != com::NONE ==> final(sched)@.procs[slot_of(child_proc_nr)].brk == old(
            sched,
        )@.procs[slot_of(old(sched)@.procs[slot_of(parent_proc_nr)].team)].brk,
{
    let ghost m = sched@;
    let idx: usize = slot(child_proc_nr);
    let mut p = Proc::empty();
    if parent_proc_nr != com::NONE {
        let parent = sched.at(slot(parent_proc_nr));
        p.brk = sched.at(slot(parent.team)).brk;
        proof {
            let s = slot_of(parent.team);
            assert(slot_ok(m.procs[s], s, m.sem_seq));
        }
    }
    p.proc_nr = child_proc_nr;
    p.name = name;
    p.rts_flags = 0;
    p.priority = priority;
    p.max_priority = priority;
    p.ticks_left = quantum;
    p.quantum_size = quantum;
    p.preemptible = preemptible;
    p.rsp = stack_top - stack_top % 16 - 224;
    p.cr3 = Some(address_space.pml4);
    p.mem_map = address_space.map;
    p.parent = parent_proc_nr;
    p.team = team;
    proof {
        rts::none_set();
    }
    sched.install(idx, p);
    let mut words: Vec<u64> = frame_for(resume);
    words.push(frame.r15);
    words.push(frame.r14);
    words.push(frame.r13);
    words.push(frame.r12);
    words.push(frame.r11);
    words.push(frame.r10);
    words.push(frame.r9);
    words.push(frame.r8);
    words.push(frame.rbp);
    words.push(frame.rdi);
    words.push(frame.rsi);
    words.push(frame.rdx);
    words.push(frame.rcx);
    words.push(frame.rbx);
    words.push(frame.rax);
    words.push(frame.rip);
    words.push(frame.cs);
    words.push(frame.rflags);
    words.push(frame.rsp);
    words.push(frame.ss);
    assert(words@ =~= switch_frame(resume) + frame.words());
    words
}

/// Create `child_proc_nr`, a copy of `parent_proc_nr` that resumes `frame`.
/// `resume` is the code that pops the frame. Returns the words to write at
/// the stack pointer the child was given.
pub fn fork_current(
    sched: &mut Scheduler,
    parent_proc_nr: i32,
    child_proc_nr: i32,
    name: &'static str,
    priority: u8,
    quantum: i32,
    preemptible: bool,
    address_space: AddressSpace,
    frame: &TrapFrame,
    stack_top: u64,
    resume: u64,
) -> (words: Vec<u64>)
    requires
        old(sched).wf(),
        fillable(old(sched)@, child_proc_nr),
        parent_proc_nr != com::NONE ==> in_table(parent_proc_nr) && holds_process(
            old(sched)@.procs[slot_of(parent_proc_nr)],
        ),
        parent_proc_nr != child_proc_nr,
        priority < NR_SCHED_QUEUES,
        address_space.map.wf(),
        below(stack_top, 28) >= 0,
    ensures
        final(sched).wf(),
        words@ == switch_frame(resume) + frame.words(),
        final(sched)@ == old(sched)@.install(
            slot_of(child_proc_nr),
            new_proc(
                child_proc_nr,
                name,
                NEVER_SPAWNED,
                priority,
                quantum,
                preemptible,
                Some(address_space.pml4),
                address_space.map,
                below(stack_top, 28) as u64,
                parent_proc_nr,
                child_proc_nr,
                old(sched)@.inherited_brk(parent_proc_nr),
            ),
        ),
        // The break is the one recorded with the leader of the parent's team.
        parent_proc_nr != com::NONE ==> final(sched)@.procs[slot_of(child_proc_nr)].brk == old(
            sched,
        )@.procs[slot_of(old(sched)@.procs[slot_of(parent_proc_nr)].team)].brk,
{
    proof {
        leader_fits(sched@, Set::empty(), slot_of(child_proc_nr));
    }
    install_trapped(
        sched,
        parent_proc_nr,
        child_proc_nr,
        child_proc_nr,
        name,
        priority,
        quantum,
        preemptible,
        address_space,
        frame,
        stack_top,
        resume,
    )
}

/// Start thread `child` in the team and the address space of `caller`; it
/// resumes `frame`. Returns the words to write at the stack pointer the
/// thread was given.
pub fn spawn_thread(
    sched: &mut Scheduler,
    caller: i32,
    child: i32,
    frame: &TrapFrame,
    stack_top: u64,
    resume: u64,
) -> (words: Vec<u64>)
    requires
        old(sched).wf(),
        in_table(caller),
        holds_process(old(sched)@.procs[slot_of(caller)]),
        old(sched)@.procs[slot_of(caller)].cr3 is Some,
        // The team has not ended, and the new thread takes no other team's
        // leader's place.
        !flagged(old(sched)@.flags(slot_of(old(sched)@.procs[slot_of(caller)].team)), rts::ZOMBIE),
        fillable(old(sched)@, child),
        child == old(sched)@.procs[slot_of(caller)].team || !old(sched)@.has_other_members(child),
        below(stack_top, 28) >= 0,
    ensures
        final(sched).wf(),
        words@ == switch_frame(resume) + frame.words(),
        ({
            let p = old(sched)@.procs[slot_of(caller)];
            final(sched)@ == old(sched)@.install(
                slot_of(child),
                new_proc(
                    child,
                    "thread",
                    NEVER_SPAWNED,
                    p.max_priority,
                    p.quantum_size,
                    p.preemptible,
                    p.cr3,
                    p.mem_map,
                    below(stack_top, 28) as u64,
                    com::NONE,
                    p.team,
                    HEAP_BASE,
                ),
            )
        }),
{
    let p = sched.at(slot(caller));
    proof {
        let m = sched@;
        let c = slot_of(caller);
        let i = slot_of(child);
        assert(slot_ok(m.procs[c], c, m.sem_seq));
        assert(led(m.procs, c));
        if child != p.team {
            lone_leader_is_alone(m, Set::empty(), i, child);
        } else {
            assert(slot_ok(m.procs[i], i, m.sem_seq));
        }
    }
    let address_space = AddressSpace { pml4: p.cr3.unwrap(), map: p.mem_map };
    install_trapped(
        sched,
        com::NONE,
        child,
        p.team,
        "thread",
        p.max_priority,
        p.quantum_size,
        p.preemptible,
        address_space,
        frame,
        stack_top,
        resume,
    )
}

/// Claim a number of the dynamic range for a process that is being created:
/// the first whose slot is free. `None` if the range is full.
pub fn alloc_proc_nr(sched: &mut Scheduler) -> (r: Option<i32>)
    requires
        old(sched).wf(),
    ensures
        final(sched).wf(),
        match r {
            Some(nr) => {
                &&& old(sched)@.free_dynamic() == Some(nr - com::FIRST_DYNAMIC_PROC_NR)
                &&& final(sched)@ == old(sched)@.with_flags(slot_of(nr), rts::RESERVED)
            },
            None => old(sched)@.free_dynamic() is None && final(sched)@ == old(sched)@,
        },
{
    let ghost m = sched@;
    let ghost f = |k: int|
        flagged(m.flags(slot_of((com::FIRST_DYNAMIC_PROC_NR + k) as i32)), rts::SLOT_FREE);
    let mut k: i32 = 0;
    while k < com::NR_DYNAMIC_PROCS as i32
        invariant
            0 <= k <= com::NR_DYNAMIC_PROCS,
            sched.wf(),
            sched@ == m,
            m == old(sched)@,
            f == (|k: int|
                flagged(m.flags(slot_of((com::FIRST_DYNAMIC_PROC_NR + k) as i32)), rts::SLOT_FREE)),
            first_from(0, com::NR_DYNAMIC_PROCS as int, f) == first_from(
                k as int,
                com::NR_DYNAMIC_PROCS as int,
                f,
            ),
        decreases com::NR_DYNAMIC_PROCS - k,
    {
        let nr: i32 = com::FIRST_DYNAMIC_PROC_NR + k;
        let idx: usize = slot(nr);
        let p = sched.at(idx);
        if p.rts_flags & rts::SLOT_FREE != 0 {
            proof {
                let i = idx as int;
                assert(slot_ok(m.procs[i], i, m.sem_seq));
                rts::only(rts::SLOT_FREE);
                rts::only(rts::RESERVED);
                queued_is_runnable(m, Set::empty(), i);
                lined_up_is_sending(m, Set::empty(), i);
                put_sound(
                    m,
                    Set::empty(),
                    i,
                    Proc { rts_flags: rts::RESERVED, ..m.procs[i] },
                );
            }
            sched.set_flags(idx, rts::RESERVED);
            return Some(nr);
        }
        k = k + 1;
    }
    None
}

/// Give a number that was claimed and not used back.
pub fn release_proc_nr(sched: &mut Scheduler, proc_nr: i32)
    requires
        old(sched).wf(),
        in_table(proc_nr),
        old(sched)@.flags(slot_of(proc_nr)) == rts::RESERVED,
    ensures
        final(sched).wf(),
        final(sched)@ == old(sched)@.with_flags(slot_of(proc_nr), rts::SLOT_FREE),
{
    let idx: usize = slot(proc_nr);
    proof {
        let m = sched@;
        let i = idx as int;
        assert(slot_ok(m.procs[i], i, m.sem_seq));
        rts::only(rts::SLOT_FREE);
        rts::only(rts::RESERVED);
        queued_is_runnable(m, Set::empty(), i);
        lined_up_is_sending(m, Set::empty(), i);
        put_sound(m, Set::empty(), i, Proc { rts_flags: rts::SLOT_FREE, ..m.procs[i] });
    }
    sched.set_flags(idx, rts::SLOT_FREE);
}

/// A number claimed and given back leaves the table as it was.
pub proof fn claim_and_release(m: SchedModel, nr: i32)
    requires
        sound(m),
        m.free_dynamic() == Some(nr - com::FIRST_DYNAMIC_PROC_NR),
    ensures
        m.with_flags(slot_of(nr), rts::RESERVED).with_flags(slot_of(nr), rts::SLOT_FREE) == m,
{
    let f = |k: int|
        flagged(m.flags(slot_of((com::FIRST_DYNAMIC_PROC_NR + k) as i32)), rts::SLOT_FREE);
    first_holds(0, com::NR_DYNAMIC_PROCS as int, f);
    let i = slot_of(nr);
    assert(slot_ok(m.procs[i], i, m.sem_seq));
    let n = m.with_flags(i, rts::RESERVED).with_flags(i, rts::SLOT_FREE);
    assert(n.procs =~= m.procs);
}

/// The first slot with a property has it, and none before it has.
pub proof fn first_holds(i: int, n: int, f: spec_fn(int) -> bool)
    ensures
        first_from(i, n, f) matches Some(k) ==> i <= k < n && f(k) && forall|j: int|
            i <= j < k ==> !#[trigger] f(j),
        first_from(i, n, f) is None ==> forall|j: int| i <= j < n ==> !#[trigger] f(j),
    decreases n - i,
{
    if i < n && !f(i) {
        first_holds(i + 1, n, f);
    }
}

} // verus!
