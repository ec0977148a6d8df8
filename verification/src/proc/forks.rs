//! What a new process starts with, and what its start leaves alone.
use vstd::prelude::*;

use crate::com;
use crate::com::slot_of;
use crate::memory::map::MemMap;
use crate::proc::births::{below, new_proc, switch_frame, TrapFrame};
use crate::proc::model::{in_table, Proc, SchedModel, HEAP_BASE, NEVER_SPAWNED, NR_PROCS};
use crate::proc::queries::BrkPlan;
use crate::proc::rts;
use crate::proc::rts::flagged;
use crate::proc::soundness::{holds_process, led, slot_ok, sound};

verus! {

/// The entry that a fork of `caller` into `child` makes: the address space
/// is the copy at `pml4` with the memory map `map`, and the kernel stack is
/// at `rsp`.
pub open spec fn forked(
    m: SchedModel,
    caller: i32,
    child: i32,
    name: &'static str,
    priority: u8,
    quantum: i32,
    preemptible: bool,
    pml4: u64,
    map: MemMap,
    rsp: u64,
) -> Proc {
    let team = m.procs[slot_of(caller)].team;
    new_proc(
        child,
        name,
        NEVER_SPAWNED,
        priority,
        quantum,
        preemptible,
        Some(pml4),
        map,
        rsp,
        team,
        child,
        m.inherited_brk(team),
    )
}

/// After a fork the child's break is where the break of the parent's team
/// was, wherever that is: it is the one recorded with the team's leader, and
/// a child that asks is told what a parent that asked would have been.
pub proof fn child_has_the_parents_break(
    m: SchedModel,
    caller: i32,
    child: i32,
    name: &'static str,
    priority: u8,
    quantum: i32,
    preemptible: bool,
    pml4: u64,
    map: MemMap,
    rsp: u64,
)
    requires
        sound(m),
        in_table(caller),
        in_table(child),
        holds_process(m.procs[slot_of(caller)]),
        m.flags(slot_of(child)) == rts::RESERVED,
        priority < 16,
        quantum > 0,
    ensures
        ({
            let p = forked(m, caller, child, name, priority, quantum, preemptible, pml4, map, rsp);
            let n = m.install(slot_of(child), p);
            let leader = slot_of(m.procs[slot_of(caller)].team);
            let as_parent = SchedModel { current: slot_of(caller), ..m };
            let as_child = SchedModel { current: slot_of(child), ..n };
            &&& n.procs[slot_of(child)].brk == m.procs[leader].brk
            &&& as_child.brk_plan(0) == BrkPlan::Query(m.procs[leader].brk)
            &&& as_child.brk_plan(0) == as_parent.brk_plan(0)
        }),
{
    let c = slot_of(caller);
    let i = slot_of(child);
    assert(slot_ok(m.procs[c], c, m.sem_seq));
    assert(led(m.procs, c));
    let l = slot_of(m.procs[c].team);
    assert(slot_ok(m.procs[l], l, m.sem_seq));
    rts::only(rts::RESERVED);
}

/// A forked child can run at once, as a team of its own and a child of the
/// parent's team, in the address space that was copied for it, with the
/// priority and quantum it was given and a whole quantum to use; it has no
/// alarm, no message, no semaphore and nothing to collect.
pub proof fn forked_child_starts_afresh(
    m: SchedModel,
    caller: i32,
    child: i32,
    name: &'static str,
    priority: u8,
    quantum: i32,
    preemptible: bool,
    pml4: u64,
    map: MemMap,
    rsp: u64,
)
    requires
        sound(m),
        in_table(caller),
        in_table(child),
        holds_process(m.procs[slot_of(caller)]),
        m.flags(slot_of(child)) == rts::RESERVED,
        priority < 16,
        quantum > 0,
    ensures
        ({
            let p = forked(m, caller, child, name, priority, quantum, preemptible, pml4, map, rsp);
            let i = slot_of(child);
            let n = m.install(i, p);
            let q = n.procs[i];
            &&& q.rts_flags == 0
            &&& n.queues[priority as int] == seq![i] + m.queues[priority as int]
            &&& q.proc_nr == child
            &&& q.team == child
            &&& q.parent == m.procs[slot_of(caller)].team
            &&& q.cr3 == Some(pml4)
            &&& q.mem_map == map
            &&& q.rsp == rsp
            &&& q.priority == priority
            &&& q.max_priority == priority
            &&& q.ticks_left == quantum
            &&& q.quantum_size == quantum
            &&& q.preemptible == preemptible
            &&& q.alarm is None
            &&& q.exit_status is None
            &&& q.wait_result is None
            &&& q.doomed is None
            &&& q.sem_wait is None
            &&& q.sem_granted is None
            &&& q.port_wait is None
            &&& q.wait_deadline is None
            &&& !q.timed_out
            &&& n.callers[i].len() == 0
            &&& n.pending[i] is None
        }),
{
}

/// A new process changes nothing of any other one, nor of the semaphores,
/// the ports, the clock or who runs.
pub proof fn new_process_touches_nobody_else(m: SchedModel, i: int, p: Proc, j: int)
    requires
        sound(m),
        0 <= i < NR_PROCS,
        0 <= j < NR_PROCS,
        i != j,
        p.priority < 16,
        p.max_priority < 16,
    ensures
        m.install(i, p).procs[j] == m.procs[j],
        m.install(i, p).callers[j] == m.callers[j],
        m.install(i, p).pending[j] == m.pending[j],
        m.install(i, p).generations[j] == m.generations[j],
        m.install(i, p).sems == m.sems,
        m.install(i, p).ports == m.ports,
        m.install(i, p).port_generations == m.port_generations,
        m.install(i, p).ticks == m.ticks,
        m.install(i, p).current == m.current,
        m.install(i, p).kernel_cr3 == m.kernel_cr3,
        forall|q: int, k: int|
            0 <= q < 16 && 0 <= k < m.queues[q].len() ==> m.install(i, p).queues[q].contains(
                #[trigger] m.queues[q][k],
            ),
{
    let n = m.install(i, p);
    assert forall|q: int, k: int| 0 <= q < 16 && 0 <= k < m.queues[q].len() implies n.queues[q].contains(
        #[trigger] m.queues[q][k],
    ) by {
        let x = m.queues[q][k];
        if n.procs[i].priority == q {
            if p.ticks_left > 0 {
                assert(n.queues[q][k + 1] == x);
            } else {
                assert(n.queues[q][k] == x);
            }
        } else {
            assert(n.queues[q][k] == x);
        }
    }
}

/// A thread runs in its caller's team and address space, with the same
/// memory map, at its caller's best priority and with its quantum, and is
/// nobody's child.
pub proof fn thread_belongs_to_its_team(m: SchedModel, caller: i32, child: i32, rsp: u64)
    requires
        sound(m),
        in_table(caller),
        in_table(child),
        holds_process(m.procs[slot_of(caller)]),
        child != m.procs[slot_of(caller)].team,
        m.procs[slot_of(caller)].quantum_size > 0,
        slot_of(child) != slot_of(caller),
    ensures
        ({
            let p = m.procs[slot_of(caller)];
            let n = m.install(
                slot_of(child),
                new_proc(
                    child,
                    "thread",
                    NEVER_SPAWNED,
                    p.max_priority,
                    p.quantum_size,
                    p.preemptible,
                    p.cr3,
                    p.mem_map,
                    rsp,
                    com::NONE,
                    p.team,
                    HEAP_BASE,
                ),
            );
            let q = n.procs[slot_of(child)];
            &&& q.team == p.team
            &&& n.is_member(slot_of(child), p.team)
            &&& n.has_other_members(p.team)
            &&& q.cr3 == p.cr3
            &&& q.mem_map == p.mem_map
            &&& q.parent == com::NONE
            &&& q.priority == p.max_priority
            &&& q.ticks_left == p.quantum_size
            &&& (SchedModel { current: slot_of(child), ..n }).brk_plan(0) == BrkPlan::Query(
                m.procs[slot_of(p.team)].brk,
            )
        }),
{
    let c = slot_of(caller);
    assert(slot_ok(m.procs[c], c, m.sem_seq));
    rts::none_set();
    let p = m.procs[c];
    let l = slot_of(p.team);
    assert(led(m.procs, c));
    assert(slot_ok(m.procs[l], l, m.sem_seq));
    let i = slot_of(child);
    let n = m.install(
        i,
        new_proc(
            child,
            "thread",
            NEVER_SPAWNED,
            p.max_priority,
            p.quantum_size,
            p.preemptible,
            p.cr3,
            p.mem_map,
            rsp,
            com::NONE,
            p.team,
            HEAP_BASE,
        ),
    );
    assert(n.is_member(i, p.team));
}

/// A child resumes where its parent is, with zero for its answer: the words
/// on its kernel stack are a switch frame that returns to the code that pops
/// a trap frame, and every register of the parent's frame but `rax`, which
/// is zero, each in its place.
pub proof fn child_resumes_the_parents_frame(frame: TrapFrame, resume: u64, top: u64)
    ensures
        ({
            let seen = TrapFrame { rax: 0, ..frame };
            let words = switch_frame(resume) + seen.words();
            &&& words.len() == 28
            &&& forall|k: int| 0 <= k < 6 ==> #[trigger] words[k] == 0
            &&& words[6] == 0x202
            &&& words[7] == resume
            &&& words[8] == frame.r15
            &&& words[9] == frame.r14
            &&& words[10] == frame.r13
            &&& words[11] == frame.r12
            &&& words[12] == frame.r11
            &&& words[13] == frame.r10
            &&& words[14] == frame.r9
            &&& words[15] == frame.r8
            &&& words[16] == frame.rbp
            &&& words[17] == frame.rdi
            &&& words[18] == frame.rsi
            &&& words[19] == frame.rdx
            &&& words[20] == frame.rcx
            &&& words[21] == frame.rbx
            &&& words[22] == 0
            &&& words[23] == frame.rip
            &&& words[24] == frame.cs
            &&& words[25] == frame.rflags
            &&& words[26] == frame.rsp
            &&& words[27] == frame.ss
        }),
        // The frame ends at the end of the stack, rounded down.
        (below(top, 28) + 8 * 28) % 16 == 0,
        top - 16 < below(top, 28) + 8 * 28 <= top,
{
}

} // verus!
