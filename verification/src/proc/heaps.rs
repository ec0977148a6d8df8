//! How the break moves.
use vstd::prelude::*;

use crate::com;
use crate::com::slot_of;
use crate::memory::map::{segment_at, with_segment, Segment, MAX_SEGMENTS};
use crate::proc::model::{Proc, SchedModel};
use crate::proc::queries::{heap_pages, BrkPlan};
use crate::proc::soundness::{holds_process, led, slot_ok, sound};

verus! {

/// Where every heap starts.
pub open spec fn heap_start() -> int {
    0x3800_0000_0000
}

/// `end` rounded up to a whole page is `page`.
pub open spec fn rounds_up_to(end: int, page: int) -> bool {
    page % 4096 == 0 && end <= page < end + 4096
}

/// Asking where the break is gives the one recorded with the leader of the
/// team, whichever of its threads asks.
pub proof fn whole_team_has_one_break(m: SchedModel)
    requires
        sound(m),
        holds_process(m.procs[m.current]),
    ensures
        m.brk_plan(0) == BrkPlan::Query(m.procs[slot_of(m.procs[m.current].team)].brk),
{
    assert(slot_ok(m.procs[m.current], m.current, m.sem_seq));
}

/// A break outside the 16 MiB of the heap is refused, and so is any to a
/// process without an address space of its own.
pub proof fn break_stays_in_the_heap(m: SchedModel, new_end: u64)
    requires
        sound(m),
        new_end != 0,
        new_end < heap_start() || new_end > heap_start() + 16 * 1024 * 1024
            || m.procs[m.current].cr3 is None,
    ensures
        m.brk_plan(new_end) == BrkPlan::Refuse,
{
}

/// Any other is granted, as long as the memory map has room for a heap or
/// has one already: pages are added up to the new end, or taken away down to
/// it, or neither if it is in the same page. What changes is whole pages,
/// from the end of the smaller heap to that of the larger one.
pub proof fn break_moves_by_whole_pages(m: SchedModel, new_end: u64)
    requires
        sound(m),
        holds_process(m.procs[m.current]),
        m.procs[m.current].cr3 is Some,
        heap_start() <= new_end <= heap_start() + 16 * 1024 * 1024,
        ({
            let map = m.procs[slot_of(m.procs[m.current].team)].mem_map@;
            map.len() < MAX_SEGMENTS || exists|k: int| 0 <= k < map.len() && (#[trigger]
            map[k]).base == heap_start()
        }),
    ensures
        ({
            let old_end = m.procs[slot_of(m.procs[m.current].team)].brk;
            let own = m.procs[m.current].cr3->0;
            match m.brk_plan(new_end) {
                BrkPlan::Grow { pml4, from, pages } => {
                    &&& pml4 == own
                    &&& pages > 0
                    &&& old_end < new_end
                    &&& rounds_up_to(old_end as int, from as int)
                    &&& rounds_up_to(new_end as int, from + 4096 * pages)
                },
                BrkPlan::Shrink { pml4, from, pages } => {
                    &&& pml4 == own
                    &&& pages > 0
                    &&& new_end < old_end
                    &&& rounds_up_to(new_end as int, from as int)
                    &&& rounds_up_to(old_end as int, from + 4096 * pages)
                },
                BrkPlan::Keep => exists|page: int|
                    rounds_up_to(old_end as int, page) && rounds_up_to(new_end as int, page),
                _ => false,
            }
        }),
{
    let c = m.current;
    assert(slot_ok(m.procs[c], c, m.sem_seq));
    let l = slot_of(m.procs[c].team);
    assert(led(m.procs, c));
    assert(slot_ok(m.procs[l], l, m.sem_seq));
    let p = m.procs[l];
    let map = p.mem_map@;
    if map.len() >= MAX_SEGMENTS {
        let k = choose|k: int| 0 <= k < map.len() && (#[trigger] map[k]).base == heap_start();
        segment_is_found(map, 0x3800_0000_0000, k);
    }
    let page = heap_start() + 4096 * heap_pages(new_end);
    let old_page = heap_start() + 4096 * heap_pages(p.brk);
    assert(rounds_up_to(new_end as int, page));
    assert(rounds_up_to(p.brk as int, old_page));
    assert(0 <= heap_pages(new_end) <= 4096 && 0 <= heap_pages(p.brk) <= 4096);
}

proof fn segment_is_found(segments: Seq<Segment>, base: u64, k: int)
    requires
        0 <= k < segments.len(),
        segments[k].base == base,
    ensures
        0 <= segment_at(segments, base) <= k,
        segments[segment_at(segments, base)].base == base,
    decreases segments.len(),
{
    let front = segments.drop_last();
    if k < front.len() {
        assert(front[k] == segments[k]);
        segment_is_found(front, base, k);
        assert(front[segment_at(front, base)] == segments[segment_at(front, base)]);
    } else {
        segment_place(front, base);
        if segment_at(front, base) < front.len() {
            assert(front[segment_at(front, base)] == segments[segment_at(front, base)]);
        }
    }
}

/// The place of a segment is that of the first one there, or behind all.
proof fn segment_place(segments: Seq<Segment>, base: u64)
    ensures
        0 <= segment_at(segments, base) <= segments.len(),
        segment_at(segments, base) < segments.len() ==> segments[segment_at(segments, base)].base
            == base,
        forall|k: int|
            0 <= k < segment_at(segments, base) && k < segments.len() ==> (#[trigger]
            segments[k]).base != base,
    decreases segments.len(),
{
    if segments.len() > 0 {
        let front = segments.drop_last();
        segment_place(front, base);
        let i = segment_at(front, base);
        if i < front.len() {
            assert(front[i] == segments[i]);
        }
        assert forall|k: int|
            0 <= k < segment_at(segments, base) && k < segments.len() implies (#[trigger]
        segments[k]).base != base by {
            if k < front.len() {
                assert(front[k] == segments[k]);
            }
        }
    }
}

/// Recording a heap in a memory map makes the segment at its start so many
/// pages long, adding one if there is none, and changes no other segment.
pub proof fn heap_is_recorded(segments: Seq<Segment>, base: u64, pages: usize, k: int)
    requires
        0 <= k < segments.len(),
        segments[k].base != base,
    ensures
        ({
            let after = with_segment(segments, base, pages);
            &&& after[k] == segments[k]
            &&& segments.len() <= after.len() <= segments.len() + 1
            &&& exists|j: int|
                0 <= j < after.len() && #[trigger] after[j] == (Segment { base, pages })
            &&& after.len() == segments.len() + 1 <==> forall|j: int|
                0 <= j < segments.len() ==> (#[trigger] segments[j]).base != base
        }),
{
    segment_place(segments, base);
    let i = segment_at(segments, base);
    let after = with_segment(segments, base, pages);
    assert(after[i] == (Segment { base, pages }));
}

/// A process that starts another program starts with an empty heap.
pub proof fn new_program_has_an_empty_heap(m: SchedModel, i: int, pml4: u64, p: Proc)
    requires
        sound(m),
        0 <= i < m.procs.len(),
        p == (Proc { cr3: Some(pml4), mem_map: p.mem_map, brk: p.brk, ..m.procs[i] }),
        p.brk == heap_start(),
        m.procs[i].team == i - com::NR_TASKS,
        holds_process(m.procs[i]),
    ensures
        (SchedModel { current: i, ..m.put(i, p) }).brk_plan(0) == BrkPlan::Query(0x3800_0000_0000),
{
    assert(slot_of((i - com::NR_TASKS) as i32) == i);
}

} // verus!
