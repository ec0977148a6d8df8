//! What ports promise to those who open, name, write and read them.
use vstd::prelude::*;

use crate::proc::births::first_holds;
use crate::proc::endings::Step;
use crate::proc::haiku;
use crate::proc::laws::{wake_all_keeps_ports, wake_keeps_ports};
use crate::proc::model::{
    next_port_generation, total_bytes, PortModel, SchedModel, NR_PORTS, NR_PROCS,
};
use crate::proc::ports::{kept_part, name_part, port_id, read_view, size_view, stored_name};
use crate::proc::rts;
use crate::proc::rts::flagged;
use crate::proc::soundness::{slot_ok, sound};

verus! {

/// An id names the port in the slot that is its remainder by 64, if there is
/// one of the generation that is its quotient.
pub proof fn id_names_slot_and_generation(m: SchedModel, id: i32, s: int)
    requires
        sound(m),
    ensures
        m.port_slot(id) == Some(s) <==> {
            &&& id >= 0
            &&& 0 <= s < 64
            &&& id == m.port_generations[s] * 64 + s
            &&& m.ports[s] is Some
        },
{
}

/// A new port is open and empty, takes as many messages as was asked for,
/// belongs to the team of the process that opened it, and is found by its
/// id. No other port changes.
pub proof fn new_port_is_empty(m: SchedModel, capacity: i32, name: Seq<u8>, t: int)
    requires
        sound(m),
        m.free_port() is Some,
        0 <= t < NR_PORTS,
        t != m.free_port()->0,
    ensures
        ({
            let s = m.free_port()->0;
            let n = m.open_port(s, capacity, name);
            let p = n.ports[s]->0;
            let id = port_id(next_port_generation(m.port_generations[s]), s);
            &&& 0 <= s < NR_PORTS
            &&& m.ports[s] is None
            &&& n.port_slot(id) == Some(s)
            &&& p.queue.len() == 0
            &&& !p.closed
            &&& p.capacity == capacity
            &&& p.owner_team == m.procs[m.current].team
            &&& p.total_read == 0
            &&& n.ports[t] == m.ports[t]
            &&& n.port_generations[t] == m.port_generations[t]
            &&& n.procs == m.procs
        }),
        t < m.free_port()->0 ==> m.ports[t] is Some,
{
    let f = |s: int| m.ports[s] is None;
    first_holds(0, NR_PORTS as int, f);
    let s = m.free_port()->0;
    assert(f(s));
    assert(m.port_generations[s] < crate::proc::model::PORT_GENERATIONS);
    if t < s {
        assert(!f(t));
    }
}

/// There is no room for another port exactly if all of them are there.
pub proof fn no_free_port_means_all_taken(m: SchedModel)
    requires
        sound(m),
    ensures
        m.free_port() is None <==> forall|s: int| 0 <= s < 64 ==> (#[trigger] m.ports[s]) is Some,
{
    let f = |s: int| m.ports[s] is None;
    first_holds(0, NR_PORTS as int, f);
    if m.free_port() is None {
        assert forall|s: int| 0 <= s < 64 implies (#[trigger] m.ports[s]) is Some by {
            assert(!f(s));
        }
    } else {
        assert(f(m.free_port()->0));
    }
}

/// A port keeps the first 31 bytes of its name, and NULs behind them.
pub proof fn name_is_kept(name: Seq<u8>, i: int)
    requires
        0 <= i < 32,
    ensures
        stored_name(name).len() == 32,
        i < 31 && i < name.len() ==> stored_name(name)[i] == name[i],
        i >= 31 || i >= name.len() ==> stored_name(name)[i] == 0,
{
}

/// A port is found by the name it was given, if no port before it has that
/// name; names that differ only behind the first 31 bytes are the same.
pub proof fn port_is_found_by_its_name(m: SchedModel, s: int, name: Seq<u8>, capacity: i32)
    requires
        sound(m),
        m.free_port() == Some(s),
        forall|i: int| 0 <= i < name.len() ==> #[trigger] name[i] != 0,
        m.port_named(name) is None,
    ensures
        m.open_port(s, capacity, name).port_named(name) == Some(s),
{
    let n = m.open_port(s, capacity, name);
    let free = |s: int| m.ports[s] is None;
    first_holds(0, NR_PORTS as int, free);
    assert(free(s));
    let f = |t: int| m.ports[t] is Some && name_part((m.ports[t]->0).name) == kept_part(name);
    let g = |t: int| n.ports[t] is Some && name_part((n.ports[t]->0).name) == kept_part(name);
    first_holds(0, NR_PORTS as int, f);
    first_holds(0, NR_PORTS as int, g);
    part_of_kept_name(name);
    assert(g(s));
    assert forall|t: int| 0 <= t < s implies !#[trigger] g(t) by {
        assert(!f(t));
        assert(n.ports[t] == m.ports[t]);
    }
}

proof fn part_of_kept_name(name: Seq<u8>)
    requires
        forall|i: int| 0 <= i < name.len() ==> #[trigger] name[i] != 0,
    ensures
        name_part(stored_name(name)) == kept_part(name),
        kept_part(name).len() == (if name.len() > 31 {
            31
        } else {
            name.len()
        }),
{
    let stored = stored_name(name);
    let len = if name.len() > 31 {
        31
    } else {
        name.len() as int
    };
    let f = |k: int| stored[k] == 0;
    first_holds(0, stored.len() as int, f);
    assert(f(len));
    assert forall|k: int| 0 <= k < len implies !#[trigger] f(k) by {
        assert(name[k] != 0);
    }
    assert(stored.take(len) =~= kept_part(name));
}

/// Whatever port is found by a name has it, as far as a port keeps it, and
/// no port before it has; if none is found, none has.
pub proof fn name_search_finds_the_first(m: SchedModel, name: Seq<u8>, t: int)
    requires
        sound(m),
        0 <= t < NR_PORTS,
        m.ports[t] is Some,
        m.port_named(name) matches Some(s) ==> t < s,
    ensures
        name_part((m.ports[t]->0).name) != kept_part(name),
        m.port_named(name) matches Some(s) ==> {
            &&& 0 <= s < NR_PORTS
            &&& m.ports[s] is Some
            &&& name_part((m.ports[s]->0).name) == kept_part(name)
        },
{
    let f = |s: int| m.ports[s] is Some && name_part((m.ports[s]->0).name) == kept_part(name);
    first_holds(0, NR_PORTS as int, f);
    assert(!f(t));
    if m.port_named(name) is Some {
        assert(f(m.port_named(name)->0));
    }
}

/// A message finds room exactly if its port holds fewer than it may and all
/// ports together stay within 262144 bytes.
pub proof fn room_is_bounded(m: SchedModel, s: int)
    requires
        sound(m),
        0 <= s < NR_PORTS,
        m.ports[s] is Some,
        m.pending[m.current] is Some,
    ensures
        m.room_in(s) <==> (m.ports[s]->0).queue.len() < (m.ports[s]->0).capacity && total_bytes(
            m.ports,
        ) + (m.pending[m.current]->0).1.len() <= 262144,
{
}

/// Waking those who wait on a port leaves none of them waiting, and the
/// others alone.
pub proof fn woken_from(m: SchedModel, port: usize, n: int, i: int)
    requires
        0 <= i < m.procs.len(),
        n <= m.procs.len(),
    ensures
        ({
            let a = m.wake_port_waiters(port, n);
            &&& a.procs.len() == m.procs.len()
            &&& n <= i || m.procs[i].port_wait != Some(port) ==> a.procs[i] == m.procs[i]
            &&& n > i && m.procs[i].port_wait == Some(port) ==> {
                &&& a.procs[i].port_wait is None
                &&& !flagged(a.flags(i), rts::PORT_WAIT)
                &&& !a.procs[i].timed_out || m.procs[i].timed_out
            }
        }),
    decreases n,
{
    if n > 0 {
        woken_from(m, port, n - 1, i);
        if n - 1 == i {
            rts::lower(m.flags(i), rts::PORT_WAIT);
        }
    }
}

/// Those that wait on any port are woken when there is room or a port is
/// gone, and nobody else is disturbed.
pub proof fn all_woken(m: SchedModel, n: int, i: int)
    requires
        0 <= i < m.procs.len(),
        n <= m.procs.len(),
    ensures
        ({
            let a = m.wake_all_port_waiters(n);
            &&& a.procs.len() == m.procs.len()
            &&& n <= i || !flagged(m.flags(i), rts::PORT_WAIT) ==> a.procs[i] == m.procs[i]
            &&& n > i && flagged(m.flags(i), rts::PORT_WAIT) ==> {
                &&& a.procs[i].port_wait is None
                &&& !flagged(a.flags(i), rts::PORT_WAIT)
                &&& !a.procs[i].timed_out || m.procs[i].timed_out
            }
        }),
    decreases n,
{
    if n > 0 {
        all_woken(m, n - 1, i);
        if n - 1 == i {
            rts::lower(m.flags(i), rts::PORT_WAIT);
        }
    }
}

/// A write that finds room puts the message behind those that are queued,
/// changes nothing else of any port, and wakes whoever waits on that port,
/// who has not timed out; nobody who waits on another one is disturbed.
pub proof fn write_wakes_the_readers(
    m: SchedModel,
    id: i32,
    s: int,
    d: Result<Option<u64>, i32>,
    i: int,
    t: int,
)
    requires
        sound(m),
        m.port_slot(id) == Some(s),
        !(m.ports[s]->0).closed,
        m.pending[m.current] is Some,
        m.room_in(s),
        0 <= i < NR_PROCS,
        0 <= t < NR_PORTS,
        t != s,
    ensures
        ({
            let (n, r) = m.write_step(id, d);
            let p = m.ports[s]->0;
            &&& r == Step::Done(haiku::B_OK)
            &&& n.ports[s] == Some(
                PortModel { queue: p.queue.push(m.pending[m.current]->0), ..p },
            )
            &&& n.ports[t] == m.ports[t]
            &&& n.pending[m.current] is None
            &&& m.procs[i].port_wait == Some(s as usize) ==> {
                &&& n.procs[i].port_wait is None
                &&& !flagged(n.flags(i), rts::PORT_WAIT)
                &&& !n.procs[i].timed_out || m.procs[i].timed_out
            }
            &&& m.procs[i].port_wait != Some(s as usize) ==> n.procs[i] == m.procs[i]
        }),
{
    let p = m.ports[s]->0;
    let m1 = m.with_port(
        s,
        Some(PortModel { queue: p.queue.push(m.pending[m.current]->0), ..p }),
    ).give_up_write();
    wake_keeps_ports(m1, s as usize, NR_PROCS as int);
    woken_from(m1, s as usize, NR_PROCS as int, i);
}

/// A read takes the message that was queued first and leaves the rest in
/// their order, counts it, and wakes whoever waits on a port, for there is
/// more room now.
pub proof fn read_takes_the_oldest(
    m: SchedModel,
    id: i32,
    s: int,
    d: Result<Option<u64>, i32>,
    i: int,
    t: int,
)
    requires
        sound(m),
        m.port_slot(id) == Some(s),
        (m.ports[s]->0).queue.len() > 0,
        0 <= i < NR_PROCS,
        0 <= t < NR_PORTS,
        t != s,
    ensures
        ({
            let (n, r) = m.read_step(id, d, true);
            let p = m.ports[s]->0;
            let q = n.ports[s]->0;
            &&& r == Step::<Result<(i32, Seq<u8>), i32>>::Done(Ok(p.queue[0]))
            &&& n.ports[s] is Some
            &&& q.queue == p.queue.subrange(1, p.queue.len() as int)
            &&& p.total_read < i32::MAX ==> q.total_read == p.total_read + 1
            &&& q.name == p.name && q.capacity == p.capacity && q.owner_team == p.owner_team
                && q.closed == p.closed
            &&& n.ports[t] == m.ports[t]
            &&& m.procs[i].port_wait is Some ==> {
                &&& n.procs[i].port_wait is None
                &&& !flagged(n.flags(i), rts::PORT_WAIT)
            }
            &&& m.procs[i].port_wait is None ==> n.procs[i] == m.procs[i]
        }),
{
    let m1 = m.with_port(s, Some((m.ports[s]->0).read_one()));
    wake_all_keeps_ports(m1, NR_PROCS as int);
    all_woken(m1, NR_PROCS as int, i);
    assert(slot_ok(m.procs[i], i, m.sem_seq));
}

/// Asking for the size of the next message tells the length of the one that
/// a read would take, and changes nothing.
pub proof fn size_is_that_of_the_oldest(m: SchedModel, id: i32, s: int, d: Result<Option<u64>, i32>)
    requires
        sound(m),
        m.port_slot(id) == Some(s),
        (m.ports[s]->0).queue.len() > 0,
    ensures
        m.read_step(id, d, false).0 == m,
        m.read_step(id, d, false).1 matches Step::Done(Ok(size)) && size.0 == (
        m.ports[s]->0).queue[0].1.len(),
{
    let p = m.ports[s]->0;
    assert(crate::proc::soundness::port_ok(p));
    assert(p.queue[0].1.len() <= crate::proc::model::PORT_MAX_MESSAGE);
}

/// Messages come out in the order in which they went in, however many are
/// queued between: after `k` messages have been read, the next read gives
/// what was number `k` in the queue.
pub proof fn messages_keep_their_order(m: SchedModel, id: i32, s: int, k: nat)
    requires
        sound(m),
        m.port_slot(id) == Some(s),
        k < (m.ports[s]->0).queue.len(),
    ensures
        ({
            let n = after_reads(m, id, k);
            &&& n.port_slot(id) == Some(s)
            &&& (n.ports[s]->0).queue == (m.ports[s]->0).queue.skip(k as int)
            &&& n.read_step(id, Ok(None), true).1 == Step::<Result<(i32, Seq<u8>), i32>>::Done(
                Ok((m.ports[s]->0).queue[k as int]),
            )
        }),
    decreases k,
{
    let all = (m.ports[s]->0).queue;
    if k == 0 {
        assert(all.skip(0) =~= all);
    } else {
        let before = after_reads(m, id, (k - 1) as nat);
        messages_keep_their_order(m, id, s, (k - 1) as nat);
        let m1 = before.with_port(s, Some((before.ports[s]->0).read_one()));
        reads_keep_count(m, id, s, (k - 1) as nat);
        wake_all_keeps_ports(m1, NR_PROCS as int);
        assert(all.skip(k - 1).subrange(1, all.len() - k + 1) =~= all.skip(k as int));
    }
}

/// The state after `k` reads of port `id`.
pub open spec fn after_reads(m: SchedModel, id: i32, k: nat) -> SchedModel
    decreases k,
{
    if k == 0 {
        m
    } else {
        after_reads(m, id, (k - 1) as nat).read_step(id, Ok(None), true).0
    }
}

proof fn reads_keep_count(m: SchedModel, id: i32, s: int, k: nat)
    requires
        m.ports.len() == NR_PORTS,
    ensures
        after_reads(m, id, k).ports.len() == NR_PORTS,
    decreases k,
{
    if k > 0 {
        reads_keep_count(m, id, s, (k - 1) as nat);
        let n = after_reads(m, id, (k - 1) as nat);
        match n.port_slot(id) {
            Some(t) => {
                wake_all_keeps_ports(
                    n.with_port(t, Some((n.ports[t]->0).read_one())),
                    NR_PROCS as int,
                );
            },
            None => {},
        }
    }
}

/// A port that is deleted is not there any more, with all that was queued,
/// and whoever waits on a port looks again; every other port is as it was.
pub proof fn deleted_port_is_gone(m: SchedModel, s: int, t: int, i: int)
    requires
        sound(m),
        0 <= s < NR_PORTS,
        0 <= t < NR_PORTS,
        t != s,
        0 <= i < NR_PROCS,
    ensures
        m.delete_port_slot(s).ports[s] is None,
        m.delete_port_slot(s).ports[t] == m.ports[t],
        !flagged(m.delete_port_slot(s).flags(i), rts::PORT_WAIT),
{
    wake_all_keeps_ports(m.with_port(s, None), NR_PROCS as int);
    all_woken(m.with_port(s, None), NR_PROCS as int, i);
}

/// When a team ends, the ports it owns go with it, and no others.
pub proof fn ports_go_with_their_team(m: SchedModel, team: i32, n: int, s: int)
    requires
        m.ports.len() == NR_PORTS,
        0 <= n <= NR_PORTS,
        0 <= s < NR_PORTS,
    ensures
        ({
            let owned = m.ports[s] is Some && (m.ports[s]->0).owner_team == team;
            let a = m.delete_team_ports(team, n);
            &&& a.ports.len() == NR_PORTS
            &&& owned && s < n ==> a.ports[s] is None
            &&& !owned || s >= n ==> a.ports[s] == m.ports[s]
        }),
    decreases n,
{
    if n > 0 {
        ports_go_with_their_team(m, team, n - 1, s);
        ports_go_with_their_team(m, team, n - 1, n - 1);
        let a = m.delete_team_ports(team, n - 1);
        wake_all_keeps_ports(a.with_port(n - 1, None), NR_PROCS as int);
    }
}

/// When a team ends, the semaphores it owns go with it, and no others.
pub proof fn semaphores_go_with_their_team(m: SchedModel, team: i32, n: int, id: int)
    requires
        m.sems.len() == crate::proc::model::NR_SEMS,
        0 <= n <= m.sems.len(),
        0 <= id < m.sems.len(),
    ensures
        ({
            let owned = m.sems[id].in_use && m.sems[id].owner_team == team;
            let a = m.delete_team_sems(team, n);
            &&& a.sems.len() == m.sems.len()
            &&& owned && id < n ==> !a.sems[id].in_use
            &&& !owned || id >= n ==> a.sems[id] == m.sems[id]
        }),
    decreases n,
{
    if n > 0 {
        semaphores_go_with_their_team(m, team, n - 1, id);
        semaphores_go_with_their_team(m, team, n - 1, n - 1);
        let a = m.delete_team_sems(team, n - 1);
        letting_go_keeps_semaphores(a, (n - 1) as usize, NR_PROCS as int);
    }
}

proof fn letting_go_keeps_semaphores(m: SchedModel, id: usize, n: int)
    ensures
        m.let_all_go(id, n).sems == m.sems,
    decreases n,
{
    if n > 0 {
        letting_go_keeps_semaphores(m, id, n - 1);
    }
}

/// What a read of a port gives back is what was read, and a question for the
/// size gives the size; a process that has to wait does so either way.
pub proof fn what_was_read_is_given_back(
    read: Step<Result<(i32, Vec<u8>), i32>>,
    asked: Step<Result<(i32, Seq<u8>), i32>>,
)
    ensures
        read matches Step::Done(Ok(message)) ==> read_view(read)
            == Step::<Result<(i32, Seq<u8>), i32>>::Done(Ok((message.0, message.1@))),
        read matches Step::Done(Err(status)) ==> read_view(read)
            == Step::<Result<(i32, Seq<u8>), i32>>::Done(Err(status)),
        read is Blocked ==> read_view(read) is Blocked,
        asked matches Step::Done(Ok(message)) ==> size_view(asked) == Step::Done(message.0),
        asked matches Step::Done(Err(status)) ==> size_view(asked) == Step::Done(status),
        asked is Blocked ==> size_view(asked) is Blocked,
{
}

} // verus!
