//! What the operations promise over time: which of them change a thing at
//! all, and what several of them do one after the other.
use vstd::prelude::*;

use crate::com;
use crate::com::slot_of;
use crate::ipc::Message;
use crate::proc::births::first_holds;
use crate::proc::endings::Step;
use crate::proc::lifecycle::longest_waiter_waits;
use crate::proc::model::{PortModel, Proc, SchedModel, Sem, NR_PORTS, NR_PROCS, NR_SEMS};
use crate::proc::rts;
use crate::proc::rts::flagged;
use crate::proc::scheduler::next_generation;
use crate::proc::sems::BadSem;
use crate::proc::soundness::{holds_process, slot_ok, sound, sound_but};

verus! {

// Generations.

proof fn timers_keep_generations(m: SchedModel, n: int)
    ensures
        m.timers(n).generations == m.generations,
    decreases n,
{
    if n > 0 {
        timers_keep_generations(m, n - 1);
    }
}

proof fn waking_keeps_generations(m: SchedModel, port: usize, n: int)
    ensures
        m.wake_port_waiters(port, n).generations == m.generations,
        m.wake_all_port_waiters(n).generations == m.generations,
    decreases n,
{
    if n > 0 {
        waking_keeps_generations(m, port, n - 1);
    }
}

proof fn letting_go_keeps_generations(m: SchedModel, id: usize, n: int)
    ensures
        m.let_all_go(id, n).generations == m.generations,
    decreases n,
{
    if n > 0 {
        letting_go_keeps_generations(m, id, n - 1);
    }
}

proof fn joiners_keep_generations(m: SchedModel, team: i32, target: i32, n: int)
    ensures
        m.wake_joiners(team, target, n).generations == m.generations,
    decreases n,
{
    if n > 0 {
        joiners_keep_generations(m, team, target, n - 1);
    }
}

proof fn forfeit_keeps_generations(m: SchedModel, i: int)
    ensures
        m.forfeit_grant(i).generations == m.generations,
{
}

proof fn leader_end_keeps_generations(m: SchedModel, i: int, status: i32, crashed: bool)
    ensures
        m.finish_leader(i, status, crashed).generations == m.generations,
{
    forfeit_keeps_generations(m, i);
    let n = m.out_of_line(i);
    assert(n.terminate(i, status, crashed).generations == n.generations);
}

proof fn thread_end_keeps_generations(m: SchedModel, i: int)
    ensures
        m.finish_thread(i).generations == m.generations,
{
    let team = m.procs[i].team;
    let l = slot_of(team);
    forfeit_keeps_generations(m, i);
    let n = m.forfeit_grant(i).discard(i);
    leader_end_keeps_generations(n.resume_leader(team), l, n.verdict(l).0, n.verdict(l).1);
}

proof fn members_keep_generations(m: SchedModel, n: int, team: i32, status: i32, crashed: bool)
    ensures
        m.end_members(n, team, status, crashed).generations == m.generations,
    decreases n,
{
    if n > 0 {
        members_keep_generations(m, n - 1, team, status, crashed);
        thread_end_keeps_generations(m.end_members(n - 1, team, status, crashed), n - 1);
    }
}

proof fn team_sems_keep_generations(m: SchedModel, team: i32, n: int)
    ensures
        m.delete_team_sems(team, n).generations == m.generations,
    decreases n,
{
    if n > 0 {
        team_sems_keep_generations(m, team, n - 1);
        letting_go_keeps_generations(
            m.delete_team_sems(team, n - 1),
            (n - 1) as usize,
            NR_PROCS as int,
        );
    }
}

proof fn team_ports_keep_generations(m: SchedModel, team: i32, n: int)
    ensures
        m.delete_team_ports(team, n).generations == m.generations,
    decreases n,
{
    if n > 0 {
        team_ports_keep_generations(m, team, n - 1);
        waking_keeps_generations(
            m.delete_team_ports(team, n - 1).with_port(n - 1, None),
            0,
            NR_PROCS as int,
        );
    }
}

proof fn team_end_keeps_generations(m: SchedModel, team: i32, status: i32, crashed: bool)
    ensures
        m.end_team(team, status, crashed).generations == m.generations,
{
    let m1 = m.end_members(NR_PROCS as int, team, status, crashed);
    let m2 = m1.delete_team_sems(team, NR_SEMS as int);
    let m3 = m2.delete_team_ports(team, NR_PORTS as int);
    members_keep_generations(m, NR_PROCS as int, team, status, crashed);
    team_sems_keep_generations(m1, team, NR_SEMS as int);
    team_ports_keep_generations(m2, team, NR_PORTS as int);
    leader_end_keeps_generations(m3, slot_of(team), status, crashed);
}

/// The generation of a slot stays the same through everything that happens
/// to the process in it: time passing, messages, being blocked and woken, a
/// new address space or break, claims, and processes ending. Only a new
/// process in the slot makes it the next one.
pub proof fn only_a_new_process_changes_a_generation(
    m: SchedModel,
    i: int,
    p: Proc,
    nr: i32,
    status: i32,
    crashed: bool,
    msg: Message,
)
    requires
        sound(m),
        0 <= i < NR_PROCS,
    ensures
        // Time, and who runs.
        m.tick().generations == m.generations,
        m.put(i, p).dequeue(i).enqueue(i).generations == m.generations,
        (SchedModel { current: i, ..m }).generations == m.generations,
        // What is recorded of a process: its alarm, address space, break,
        // stack pointer; a claim, and giving it back.
        m.put(i, p).generations == m.generations,
        m.with_flags(i, p.rts_flags).generations == m.generations,
        // Messages.
        m.send(nr, msg).generations == m.generations,
        m.receive_step(nr).0.generations == m.generations,
        m.notify(i, nr, status).generations == m.generations,
        // Ends.
        m.wait_step().0.generations == m.generations,
        m.join_step(nr).0.generations == m.generations,
        m.thread_end(status).generations == m.generations,
        m.end_team(nr, status, crashed).generations == m.generations,
        m.end_doomed().generations == m.generations,
        // A new process.
        m.install(i, p).generations == m.generations.update(i, next_generation(m.generations[i])),
        forall|j: int|
            0 <= j < NR_PROCS && j != i ==> m.install(i, p).generations[j] == #[trigger] m.generations[j],
{
    let c = m.current;
    let q = m.procs[c];
    timers_keep_generations(
        (SchedModel { ticks: (m.ticks + 1) as u64, ..m }).charge(),
        NR_PROCS as int,
    );
    team_end_keeps_generations(m, nr, status, crashed);
    let u = m.put(c, Proc { doomed: None, ..q });
    leader_end_keeps_generations(u, c, (q.doomed->0).0, (q.doomed->0).1);
    thread_end_keeps_generations(u, c);
    let first = m.first_joiner(q.team, q.proc_nr)->0;
    let told = m.put(
        first,
        Proc { wait_result: Some((q.proc_nr, status)), ..m.procs[first] },
    );
    joiners_keep_generations(told, q.team, q.proc_nr, NR_PROCS as int);
    thread_end_keeps_generations(m.status_to_joiners(status), c);
}

/// Nor do semaphores and ports touch it.
pub proof fn semaphores_and_ports_keep_generations(
    m: SchedModel,
    id: usize,
    port: i32,
    s: int,
    p: Option<PortModel>,
    deadline: Result<Option<u64>, i32>,
    take: bool,
    capacity: i32,
    name: Seq<u8>,
)
    ensures
        with_sem(m, id, capacity).generations == m.generations,
        m.acquire_step(id).0.generations == m.generations,
        m.release_unit(id).generations == m.generations,
        m.delete_sem(id).generations == m.generations,
        m.write_step(port, deadline).0.generations == m.generations,
        m.read_step(port, deadline, take).0.generations == m.generations,
        m.open_port(s, capacity, name).generations == m.generations,
        m.delete_port_slot(s).generations == m.generations,
        m.with_port(s, p).generations == m.generations,
        m.with_port(s, p).wake_port_waiters(s as usize, NR_PROCS as int).generations
            == m.generations,
        m.timeout_seen().give_up_write().generations == m.generations,
{
    letting_go_keeps_generations(m, id, NR_PROCS as int);
    waking_keeps_generations(m.with_port(s, None), 0, NR_PROCS as int);
    waking_keeps_generations(m.with_port(s, p), s as usize, NR_PROCS as int);
    match m.port_slot(port) {
        Some(t) => {
            let q = m.ports[t]->0;
            let queued = m.with_port(
                t,
                Some(PortModel { queue: q.queue.push(m.pending[m.current]->0), ..q }),
            ).give_up_write();
            waking_keeps_generations(queued, t as usize, NR_PROCS as int);
            waking_keeps_generations(m.with_port(t, Some(q.read_one())), 0, NR_PROCS as int);
        },
        None => {},
    }
}

/// What a slot's generation tells: that of the process in it, nothing while
/// it is free, and the next one once a new process is there.
pub proof fn generation_names_a_process(m: SchedModel, i: int, p: Proc)
    requires
        sound(m),
        0 <= i < com::NR_PROC_SLOTS,
        p.rts_flags == 0,
    ensures
        ({
            let nr = (i - com::NR_TASKS) as i32;
            let n = m.install(i, p);
            &&& m.generation_at(nr) == (if flagged(m.flags(i), rts::SLOT_FREE) {
                None
            } else {
                Some(m.generations[i])
            })
            &&& n.generation_at(nr) == Some(next_generation(m.generations[i]))
        }),
{
    let nr = (i - com::NR_TASKS) as i32;
    assert(slot_of(nr) == i);
    rts::none_set();
}

// Alarms.

/// The message that an alarm is.
pub open spec fn alarm_message() -> Message {
    Message { source: com::CLOCK, m_type: com::SYN_ALARM, args: [0, 0, 0, 0] }
}

/// Whether slot `i` waits for an alarm at tick `target`, and for nothing
/// else.
pub open spec fn awaits_alarm(m: SchedModel, i: int, target: u64) -> bool {
    &&& m.flags(i) == rts::RECEIVING
    &&& m.procs[i].get_from == com::CLOCK
    &&& m.procs[i].alarm == Some(target)
}

/// Whether slot `i` has been woken by an alarm, and has none pending.
pub open spec fn woken_by_alarm(m: SchedModel, i: int) -> bool {
    &&& m.flags(i) == 0
    &&& m.procs[i].alarm is None
    &&& m.procs[i].messbuf == alarm_message()
}

/// The timers of other slots do not touch slot `i`.
pub proof fn timers_elsewhere(m: SchedModel, n: int, i: int)
    requires
        0 <= i < m.procs.len(),
        n <= m.procs.len(),
    ensures
        n <= i ==> m.timers(n).procs[i] == m.procs[i],
        n > i ==> m.timers(n).procs[i] == m.timers(i).ring(i).expire(i).procs[i],
        m.timers(n).procs.len() == m.procs.len(),
        m.timers(n).ticks == m.ticks,
        m.timers(n).current == m.current,
    decreases n,
{
    if n > 0 {
        timers_elsewhere(m, n - 1, i);
    }
}

/// A process that waits for an alarm goes on waiting on a tick before its
/// time, and is woken by the alarm on one that reaches it; a process that an
/// alarm has woken is not woken again.
pub proof fn alarm_waits_for_its_tick(m: SchedModel, i: int, target: u64)
    requires
        sound(m),
        0 <= i < NR_PROCS,
        m.ticks < u64::MAX,
    ensures
        m.tick().ticks == m.ticks + 1,
        m.tick().procs.len() == m.procs.len(),
        awaits_alarm(m, i, target) && m.ticks + 1 < target ==> awaits_alarm(m.tick(), i, target),
        awaits_alarm(m, i, target) && m.ticks + 1 >= target ==> woken_by_alarm(m.tick(), i),
        woken_by_alarm(m, i) ==> woken_by_alarm(m.tick(), i),
{
    tick_on_alarm(m, i, target);
}

proof fn tick_on_alarm(m: SchedModel, i: int, target: u64)
    requires
        m.procs.len() == NR_PROCS,
        0 <= m.current < NR_PROCS,
        0 <= i < NR_PROCS,
        m.ticks < u64::MAX,
    ensures
        m.tick().ticks == m.ticks + 1,
        m.tick().procs.len() == m.procs.len(),
        m.tick().current == m.current,
        awaits_alarm(m, i, target) && m.ticks + 1 < target ==> awaits_alarm(m.tick(), i, target),
        awaits_alarm(m, i, target) && m.ticks + 1 >= target ==> woken_by_alarm(m.tick(), i),
        woken_by_alarm(m, i) ==> woken_by_alarm(m.tick(), i),
{
    let a = SchedModel { ticks: (m.ticks + 1) as u64, ..m };
    let b = a.charge();
    timers_elsewhere(b, NR_PROCS as int, i);
    timers_elsewhere(b, i, i);
    rts::only(rts::RECEIVING);
    rts::none_set();
    assert(rts::RECEIVING & !rts::RECEIVING == 0) by (bit_vector);
    let p = b.procs[i];
    assert(p.alarm == m.procs[i].alarm && p.messbuf == m.procs[i].messbuf && p.rts_flags
        == m.flags(i) && p.get_from == m.procs[i].get_from);
}

/// The state after `k` ticks.
pub open spec fn after_ticks(m: SchedModel, k: nat) -> SchedModel
    decreases k,
{
    if k == 0 {
        m
    } else {
        after_ticks(m, (k - 1) as nat).tick()
    }
}

/// The running process asks for an alarm.
pub open spec fn with_alarm(m: SchedModel, delay: u64) -> SchedModel {
    m.put(m.current, Proc { alarm: Some((m.ticks + delay) as u64), ..m.procs[m.current] })
}

/// A process that sets an alarm twice and then waits for the clock is woken
/// once, by one alarm, on the first tick that reaches the second target and
/// not before: the first alarm is replaced.
pub proof fn second_alarm_replaces_the_first(m: SchedModel, d1: u64, d2: u64, k: nat)
    requires
        sound(m),
        m.flags(m.current) == 0,
        m.sender_for(com::CLOCK) is None,
        m.ticks + d1 <= u64::MAX,
        m.ticks + d2 <= u64::MAX,
        m.ticks + k <= u64::MAX,
    ensures
        ({
            let (asleep, r) = with_alarm(with_alarm(m, d1), d2).receive_step(com::CLOCK);
            let i = m.current;
            let later = after_ticks(asleep, k);
            &&& r == Step::<Message>::Blocked
            &&& later.ticks == m.ticks + k
            &&& k == 0 || k < d2 ==> awaits_alarm(later, i, (m.ticks + d2) as u64)
            &&& k > 0 && k >= d2 ==> woken_by_alarm(later, i)
        }),
    decreases k,
{
    let i = m.current;
    let set = with_alarm(with_alarm(m, d1), d2);
    let line = m.callers[i];
    let f = |k: int| com::CLOCK == com::ANY || com::CLOCK == m.procs[line[k]].proc_nr;
    let g = |k: int| com::CLOCK == com::ANY || com::CLOCK == set.procs[line[k]].proc_nr;
    first_holds(0, line.len() as int, f);
    first_holds(0, line.len() as int, g);
    assert forall|j: int| 0 <= j < line.len() implies !#[trigger] g(j) by {
        assert(!f(j));
        assert(m.callers[i][j] == line[j]);
    }
    assert(set.sender_for(com::CLOCK) is None);
    assert(0u16 | rts::RECEIVING == rts::RECEIVING) by (bit_vector);
    let asleep = set.receive_step(com::CLOCK).0;
    assert(awaits_alarm(asleep, i, (m.ticks + d2) as u64));
    ticks_keep_shape(asleep, k);
    if k > 0 {
        ticks_keep_shape(asleep, (k - 1) as nat);
        second_alarm_replaces_the_first(m, d1, d2, (k - 1) as nat);
        tick_on_alarm(after_ticks(asleep, (k - 1) as nat), i, (m.ticks + d2) as u64);
    }
}

proof fn ticks_keep_shape(m: SchedModel, k: nat)
    requires
        m.procs.len() == NR_PROCS,
        0 <= m.current < NR_PROCS,
        m.ticks + k <= u64::MAX,
    ensures
        after_ticks(m, k).procs.len() == NR_PROCS,
        after_ticks(m, k).ticks == m.ticks + k,
        after_ticks(m, k).current == m.current,
    decreases k,
{
    if k > 0 {
        ticks_keep_shape(m, (k - 1) as nat);
        tick_on_alarm(after_ticks(m, (k - 1) as nat), 0, 0);
    }
}

// Semaphores.

/// The state after a semaphore with `count` units was created in slot `id`.
pub open spec fn with_sem(m: SchedModel, id: usize, count: i32) -> SchedModel {
    SchedModel {
        sems: m.sems.update(
            id as int,
            Sem { in_use: true, count, owner_team: m.procs[m.current].team },
        ),
        ..m
    }
}

/// The state after the processes in the slots of `who` took a unit of
/// semaphore `id` each, one after the other.
pub open spec fn after_acquiring(m: SchedModel, id: usize, who: Seq<int>) -> SchedModel
    decreases who.len(),
{
    if who.len() == 0 {
        m
    } else {
        (SchedModel { current: who.last(), ..after_acquiring(m, id, who.drop_last()) }).acquire_step(
            id,
        ).0
    }
}

/// Whether each of them got its unit at once.
pub open spec fn all_acquire(m: SchedModel, id: usize, who: Seq<int>) -> bool
    decreases who.len(),
{
    who.len() == 0 || {
        &&& all_acquire(m, id, who.drop_last())
        &&& (SchedModel {
            current: who.last(),
            ..after_acquiring(m, id, who.drop_last())
        }).acquire_step(id).1 == Step::<Result<(), BadSem>>::Done(Ok(()))
    }
}

/// Whether slot `i` neither waits for a semaphore nor was handed a unit.
pub open spec fn free_of_sems(m: SchedModel, i: int) -> bool {
    0 <= i < NR_PROCS && m.procs[i].sem_wait is None && m.procs[i].sem_granted is None
}

proof fn acquiring_counts_down(m: SchedModel, id: usize, who: Seq<int>)
    requires
        m.sems.len() == NR_SEMS,
        m.sem_exists(id),
        who.len() <= m.sems[id as int].count,
        forall|k: int| 0 <= k < who.len() ==> free_of_sems(m, #[trigger] who[k]),
    ensures
        all_acquire(m, id, who),
        ({
            let n = after_acquiring(m, id, who);
            let s = m.sems[id as int];
            &&& n.procs == m.procs
            &&& n.queues == m.queues
            &&& n.sem_seq == m.sem_seq
            &&& n.sems == m.sems.update(id as int, Sem { count: (s.count - who.len()) as i32, ..s })
        }),
    decreases who.len(),
{
    if who.len() == 0 {
        assert(m.sems =~= m.sems.update(id as int, m.sems[id as int]));
    } else {
        let front = who.drop_last();
        assert forall|k: int| 0 <= k < front.len() implies free_of_sems(m, #[trigger] front[k]) by {
            assert(front[k] == who[k]);
        }
        acquiring_counts_down(m, id, front);
        assert(free_of_sems(m, who[who.len() - 1]));
        let n = after_acquiring(m, id, who);
        let s = m.sems[id as int];
        assert(n.sems =~= m.sems.update(id as int, Sem { count: (s.count - who.len()) as i32, ..s }));
    }
}

/// A semaphore made with `count` units gives as many, one to each who asks,
/// and nobody of them waits; the next who asks waits.
pub proof fn semaphore_gives_its_units(
    m: SchedModel,
    id: usize,
    count: i32,
    who: Seq<int>,
    next: int,
)
    requires
        sound(m),
        m.free_sem_slot() == Some(id as int),
        0 <= count,
        who.len() <= count,
        forall|k: int| 0 <= k < who.len() ==> free_of_sems(m, #[trigger] who[k]),
        free_of_sems(m, next),
        m.sem_seq < u64::MAX,
    ensures
        all_acquire(with_sem(m, id, count), id, who),
        ({
            let taken = after_acquiring(with_sem(m, id, count), id, who);
            let (n, r) = (SchedModel { current: next, ..taken }).acquire_step(id);
            if who.len() < count {
                r == Step::<Result<(), BadSem>>::Done(Ok(()))
            } else {
                &&& r == Step::<Result<(), BadSem>>::Blocked
                &&& n.procs[next].sem_wait == Some((id, m.sem_seq))
                &&& flagged(n.flags(next), rts::SEM_WAIT)
            }
        }),
{
    first_holds(0, NR_SEMS as int, |i: int| !m.sems[i].in_use);
    let a = with_sem(m, id, count);
    assert forall|k: int| 0 <= k < who.len() implies free_of_sems(a, #[trigger] who[k]) by {
        assert(free_of_sems(m, who[k]));
    }
    acquiring_counts_down(a, id, who);
    rts::raise(m.flags(next), rts::SEM_WAIT);
}

/// Whoever asks for a unit of a semaphore that does not exist is told so at
/// once.
pub proof fn no_such_semaphore(m: SchedModel, id: usize)
    requires
        free_of_sems(m, m.current),
        !m.sem_exists(id),
    ensures
        m.acquire_step(id) == (m, Step::<Result<(), BadSem>>::Done(Err(BadSem))),
{
}

proof fn let_go_of(m: SchedModel, id: usize, n: int, i: int)
    requires
        0 <= i < m.procs.len(),
        n <= m.procs.len(),
    ensures
        m.let_all_go(id, n).procs.len() == m.procs.len(),
        n <= i ==> m.let_all_go(id, n).procs[i] == m.procs[i],
        n > i && m.procs[i].sem_wait is Some && (m.procs[i].sem_wait->0).0 == id ==> {
            &&& m.let_all_go(id, n).procs[i].sem_wait is None
            &&& m.let_all_go(id, n).procs[i].sem_granted == m.procs[i].sem_granted
        },
    decreases n,
{
    if n > 0 {
        let_go_of(m, id, n - 1, i);
    }
}

/// A process in line for a semaphore goes on waiting until a unit is
/// released to it, which it then has, or the semaphore is deleted, which it
/// is then told.
pub proof fn waiter_is_answered(m: SchedModel, id: usize, i: int)
    requires
        sound(m),
        0 <= i < NR_PROCS,
        m.procs[i].sem_wait is Some,
        (m.procs[i].sem_wait->0).0 == id,
    ensures
        // Nothing has happened yet.
        ({
            let now = SchedModel { current: i, ..m };
            &&& !now.lost_sem()
            &&& now.acquire_step(id) == (now, Step::<Result<(), BadSem>>::Blocked)
        }),
        // A unit is released, and nobody has waited longer.
        m.longest_waiter(id, NR_PROCS as int) == Some(i) ==> {
            let now = SchedModel { current: i, ..m.release_unit(id) };
            &&& !now.lost_sem()
            &&& now.acquire_step(id).1 == Step::<Result<(), BadSem>>::Done(Ok(()))
        },
        // Somebody has waited longer, and gets it.
        m.longest_waiter(id, NR_PROCS as int) != Some(i) ==> {
            let now = SchedModel { current: i, ..m.release_unit(id) };
            now.acquire_step(id) == (now, Step::<Result<(), BadSem>>::Blocked)
        },
        // The semaphore is deleted.
        ({
            let now = SchedModel { current: i, ..m.delete_sem(id) };
            now.lost_sem()
        }),
{
    assert(slot_ok(m.procs[i], i, m.sem_seq));
    longest_waiter_waits(m, id, NR_PROCS as int);
    let_go_of(m, id, NR_PROCS as int, i);
}

// Children.

/// "No children" is the answer exactly if no status was handed over and no
/// slot in use is a child of the team, and it comes at once.
pub proof fn no_children_is_known_at_once(m: SchedModel)
    requires
        sound(m),
        holds_process(m.procs[m.current]),
    ensures
        ({
            let t = m.procs[m.current].team;
            let none = forall|j: int|
                0 <= j < NR_PROCS && !flagged(#[trigger] m.flags(j), rts::SLOT_FREE)
                    ==> m.procs[j].parent != t;
            &&& m.wait_step().1 == Step::<Option<(i32, i32)>>::Done(None)
                <==> m.procs[m.current].wait_result is None && none
            &&& m.wait_step().1 == Step::<Option<(i32, i32)>>::Done(None) ==> m.wait_step().0 == m
        }),
{
    let t = m.procs[m.current].team;
    let f = |j: int| m.procs[j].parent == t && m.procs[j].exit_status is Some;
    first_holds(0, NR_PROCS as int, f);
    rts::only(rts::SLOT_FREE);
    match m.zombie_of(t) {
        Some(z) => {
            assert(f(z));
            assert(slot_ok(m.procs[z], z, m.sem_seq));
            assert(!flagged(m.flags(z), rts::SLOT_FREE));
        },
        None => {},
    }
    if !m.has_children(t) {
        assert forall|j: int| 0 <= j < NR_PROCS && !flagged(#[trigger] m.flags(j), rts::SLOT_FREE)
            implies m.procs[j].parent != t by {
            assert(m.procs[j].rts_flags == m.flags(j));
        }
    }
}

/// What a wait reports was kept in one place, as that process's number and
/// status: handed to the waiter, or in the slot of a child that has ended,
/// which is then free. That place is empty afterwards and no other has
/// changed, so that the report is not given again.
pub proof fn termination_is_reported_once(m: SchedModel, child: i32, status: i32)
    requires
        sound(m),
        holds_process(m.procs[m.current]),
        m.wait_step().1 == Step::Done(Some((child, status))),
    ensures
        ({
            let i = m.current;
            let n = m.wait_step().0;
            let z = slot_of(child);
            if m.procs[i].wait_result is Some {
                &&& m.procs[i].wait_result == Some((child, status))
                &&& n.procs[i].wait_result is None
                &&& n.procs[i].exit_status == m.procs[i].exit_status
                &&& forall|j: int|
                    0 <= j < NR_PROCS && j != i ==> #[trigger] n.procs[j] == m.procs[j]
            } else {
                &&& 0 <= z < NR_PROCS
                &&& m.procs[z].parent == m.procs[i].team
                &&& m.procs[z].exit_status == Some(status)
                &&& n.flags(z) == rts::SLOT_FREE
                &&& n.procs[z].exit_status is None
                &&& forall|j: int|
                    0 <= j < NR_PROCS && j != z ==> #[trigger] n.procs[j] == m.procs[j]
            }
        }),
{
    let t = m.procs[m.current].team;
    let f = |j: int| m.procs[j].parent == t && m.procs[j].exit_status is Some;
    first_holds(0, NR_PROCS as int, f);
    if m.procs[m.current].wait_result is None {
        let z = m.zombie_of(t)->0;
        assert(f(z));
        assert(slot_ok(m.procs[z], z, m.sem_seq));
        rts::only(rts::SLOT_FREE);
        rts::only(rts::RESERVED);
    }
}

/// A process that ends leaves its status in one place only: with a thread of
/// its parent's team that waits, or in its own slot.
pub proof fn status_is_left_in_one_place(m: SchedModel, i: int, status: i32)
    requires
        sound_but(m, Set::empty().insert(i)),
        0 <= i < NR_PROCS,
        m.procs[i].exit_status is None,
        m.child_waiter(m.procs[i].parent) != Some(i),
    ensures
        ({
            let n = m.bury(i, status);
            let nr = m.procs[i].proc_nr;
            if !m.parent_lives(m.procs[i].parent) {
                &&& n.procs[i].exit_status is None
                &&& forall|j: int|
                    0 <= j < NR_PROCS && j != i ==> #[trigger] n.procs[j] == m.procs[j]
            } else {
                match m.child_waiter(m.procs[i].parent) {
                    Some(w) => {
                        &&& n.procs[w].wait_result == Some((nr, status))
                        &&& n.flags(i) == rts::SLOT_FREE
                        &&& n.procs[i].exit_status is None
                        &&& forall|j: int|
                            0 <= j < NR_PROCS && j != i && j != w ==> #[trigger] n.procs[j]
                                == m.procs[j]
                    },
                    None => {
                        &&& n.procs[i].exit_status == Some(status)
                        &&& n.procs[i].wait_result == m.procs[i].wait_result
                        &&& forall|j: int|
                            0 <= j < NR_PROCS && j != i ==> #[trigger] n.procs[j] == m.procs[j]
                    },
                }
            }
        }),
{
    let parent = m.procs[i].parent;
    let team = m.procs[slot_of(parent)].team;
    first_holds(
        0,
        NR_PROCS as int,
        |j: int| m.is_member(j, team) && flagged(m.flags(j), rts::WAITING),
    );
}

} // verus!
