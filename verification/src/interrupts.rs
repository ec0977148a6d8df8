//! What to do about a trap, before any register is touched.
use crate::com::{slot, slot_of, NR_TASKS};
use vstd::prelude::*;

verus! {

/// The vector of the system call trap, the one gate that user code may use.
pub const SYSCALL_VECTOR: u8 = 0x80;

/// What a processor fault leads to.
#[derive(Clone, Copy, Debug, PartialEq, Eq, Structural)]
pub enum FaultAction {
    /// The process that caused it is killed; the system goes on.
    Kill,
    /// The kernel itself is at fault, and the machine stops.
    Halt,
}

/// What a fault at code selector `cs` leads to: the selector's two low bits
/// are the ring the processor was in, and only ring 3 is a process's own
/// business.
pub fn recover_or_halt(cs: u64) -> (action: FaultAction)
    ensures
        action == (if cs % 4 == 3 {
            FaultAction::Kill
        } else {
            FaultAction::Halt
        }),
{
    assert(cs & 3 == cs % 4) by (bit_vector);
    if cs & 3 == 3 {
        FaultAction::Kill
    } else {
        FaultAction::Halt
    }
}

/// How many traps a demo process may make before it is parked.
pub const DEMO_TRAPS: u32 = 5;

/// Process-table slots whose traps are counted.
pub const MAX_SYSCALL_SLOTS: usize = 16;

/// How often the process of each slot has trapped.
pub struct TrapCounts {
    counts: Vec<u32>,
}

impl View for TrapCounts {
    type V = Seq<u32>;

    closed spec fn view(&self) -> Seq<u32> {
        self.counts@
    }
}

/// One more trap, and back to none after the largest count.
pub open spec fn one_more(count: u32) -> u32 {
    if count == u32::MAX {
        0
    } else {
        (count + 1) as u32
    }
}

impl TrapCounts {
    /// No traps yet.
    pub fn new() -> (t: TrapCounts)
        ensures
            t@ == Seq::new(MAX_SYSCALL_SLOTS as nat, |i: int| 0u32),
    {
        let mut counts: Vec<u32> = Vec::new();
        while counts.len() < MAX_SYSCALL_SLOTS
            invariant
                counts@.len() <= MAX_SYSCALL_SLOTS,
                counts@ == Seq::new(counts@.len(), |i: int| 0u32),
            decreases MAX_SYSCALL_SLOTS - counts@.len(),
        {
            let ghost n = counts@.len();
            counts.push(0);
            assert(counts@ =~= Seq::new(n + 1, |i: int| 0u32));
        }
        TrapCounts { counts }
    }

    /// Count a trap of `proc_nr`. Returns its number, and whether the
    /// process is to be parked.
    pub fn record(&mut self, proc_nr: i32) -> (r: (u32, bool))
        requires
            old(self)@.len() == MAX_SYSCALL_SLOTS,
            -NR_TASKS <= proc_nr < MAX_SYSCALL_SLOTS - NR_TASKS,
        ensures
            ({
                let i = slot_of(proc_nr);
                let n = one_more(old(self)@[i]);
                &&& final(self)@ == old(self)@.update(i, n)
                &&& r.0 == n
                &&& r.1 == (n >= DEMO_TRAPS)
            }),
            old(self)@[slot_of(proc_nr)] < u32::MAX ==> r.0 == old(self)@[slot_of(proc_nr)] + 1,
    {
        let i: usize = slot(proc_nr);
        let n: u32 = self.counts[i].wrapping_add(1);
        self.counts.set(i, n);
        (n, n >= DEMO_TRAPS)
    }
}

} // verus!
