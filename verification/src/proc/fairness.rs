//! How long a process may run, and how it makes way for others.
use vstd::prelude::*;

use crate::com;
use crate::proc::histories::timers_elsewhere;
use crate::proc::laws::next_is_best;
use crate::proc::lists::front_from;
use crate::proc::model::{Proc, SchedModel, BOOTSTRAP, NR_PROCS};
use crate::proc::rts;
use crate::proc::soundness::{
    dequeue_sound, enqueue_sound, frame_sound, put_same_sound, slot_ok, sound,
};

verus! {

/// A process that becomes ready with its quantum used up gets a whole new
/// one; one with time left keeps what it has.
pub proof fn quantum_is_renewed(m: SchedModel, i: int)
    requires
        sound(m),
        0 <= i < NR_PROCS,
    ensures
        m.procs[i].ticks_left <= 0 ==> m.enqueue(i).procs[i].ticks_left == m.procs[i].quantum_size,
        m.procs[i].ticks_left > 0 ==> m.enqueue(i).procs[i] == m.procs[i],
        m.enqueue(i).procs[i].quantum_size == m.procs[i].quantum_size,
        m.enqueue(i).procs[i].max_priority == m.procs[i].max_priority,
{
}

/// A process outside the kernel tasks that uses up two quanta in a row is
/// one priority worse off, down to the one above the idle queue.
pub proof fn two_quanta_in_a_row_cost_a_priority(m: SchedModel, i: int)
    requires
        sound(m),
        com::NR_TASKS <= i < NR_PROCS,
        m.procs[i].ticks_left <= 0,
        m.last_expired == Some(i),
        m.procs[i].max_priority <= m.procs[i].priority,
    ensures
        m.procs[i].priority < 14 ==> m.enqueue(i).procs[i].priority == m.procs[i].priority + 1,
        m.procs[i].priority >= 14 ==> m.enqueue(i).procs[i].priority == 14,
        m.enqueue(i).last_expired == Some(i),
{
}

/// One that uses up a quantum after another process did is one better off,
/// up to its own best.
pub proof fn letting_others_run_earns_a_priority(m: SchedModel, i: int)
    requires
        sound(m),
        com::NR_TASKS <= i < NR_PROCS,
        m.procs[i].ticks_left <= 0,
        m.last_expired != Some(i),
        m.procs[i].max_priority <= m.procs[i].priority <= 14,
    ensures
        m.procs[i].priority > m.procs[i].max_priority ==> m.enqueue(i).procs[i].priority
            == m.procs[i].priority - 1,
        m.procs[i].priority == m.procs[i].max_priority ==> m.enqueue(i).procs[i].priority
            == m.procs[i].priority,
        m.enqueue(i).last_expired == Some(i),
{
}

/// Kernel tasks keep their priority, and so does everyone who becomes ready
/// with time left.
pub proof fn priority_is_kept(m: SchedModel, i: int)
    requires
        sound(m),
        0 <= i < NR_PROCS,
        i < com::NR_TASKS || m.procs[i].ticks_left > 0,
    ensures
        m.enqueue(i).procs[i].priority == m.procs[i].priority,
        m.procs[i].ticks_left > 0 ==> m.enqueue(i).last_expired == m.last_expired,
{
}

/// A tick takes one from the quantum of the running process if it counts;
/// the last one renews it, and the process pays with its priority if it was
/// the last to run out, or earns one if it was not. Nothing is taken from
/// any other process.
pub proof fn tick_is_charged_to_the_running_process(m: SchedModel, j: int)
    requires
        sound(m),
        m.ticks < u64::MAX,
        m.current != BOOTSTRAP,
        m.procs[m.current].preemptible,
        m.flags(m.current) == 0,
        0 <= j < NR_PROCS,
        j != m.current,
    ensures
        ({
            let i = m.current;
            let p = m.procs[i];
            let q = m.tick().procs[i];
            &&& m.tick().ticks == m.ticks + 1
            &&& m.tick().current == i
            &&& p.ticks_left > 1 ==> q.ticks_left == p.ticks_left - 1 && q.priority == p.priority
            &&& p.ticks_left <= 1 ==> q.ticks_left == p.quantum_size
            &&& p.ticks_left <= 1 && i >= com::NR_TASKS && m.last_expired == Some(i)
                && p.max_priority <= p.priority < 14 ==> q.priority == p.priority + 1
            &&& p.ticks_left <= 1 && i >= com::NR_TASKS && m.last_expired != Some(i)
                && p.max_priority < p.priority <= 14 ==> q.priority == p.priority - 1
            &&& i < com::NR_TASKS ==> q.priority == p.priority
            &&& m.flags(j) == 0 ==> m.tick().procs[j].ticks_left == m.procs[j].ticks_left
        }),
{
    let i = m.current;
    let b = SchedModel { ticks: (m.ticks + 1) as u64, ..m }.charge();
    rts::none_set();
    assert(slot_ok(m.procs[i], i, m.sem_seq));
    timers_elsewhere(b, NR_PROCS as int, i);
    timers_elsewhere(b, i, i);
    timers_elsewhere(b, NR_PROCS as int, j);
    timers_elsewhere(b, j, j);
}

/// A process whose quantum does not count runs on: a tick changes neither
/// its quantum nor its priority.
pub proof fn tick_spares_who_is_not_preemptible(m: SchedModel)
    requires
        sound(m),
        m.ticks < u64::MAX,
        !m.procs[m.current].preemptible,
        m.flags(m.current) == 0,
    ensures
        m.tick().procs[m.current].ticks_left == m.procs[m.current].ticks_left,
        m.tick().procs[m.current].priority == m.procs[m.current].priority,
        m.tick().ticks == m.ticks + 1,
{
    let i = m.current;
    let b = SchedModel { ticks: (m.ticks + 1) as u64, ..m }.charge();
    rts::none_set();
    timers_elsewhere(b, NR_PROCS as int, i);
    timers_elsewhere(b, i, i);
}

/// The state after `k` ticks that the running process computes through, on
/// none of which a timer is due.
pub open spec fn after_computing(m: SchedModel, k: nat) -> SchedModel
    decreases k,
{
    if k == 0 {
        m
    } else {
        let n = after_computing(m, (k - 1) as nat);
        SchedModel { ticks: (n.ticks + 1) as u64, ..n }.charge()
    }
}

/// Being charged keeps the process table sound.
proof fn charge_sound(m: SchedModel)
    requires
        sound(m),
        m.flags(m.current) == 0,
    ensures
        sound(m.charge()),
{
    let none = Set::<int>::empty();
    let i = m.current;
    let p = m.procs[i];
    let q = Proc { ticks_left: crate::proc::clock::one_less(p.ticks_left), ..p };
    assert(slot_ok(p, i, m.sem_seq));
    if m.counts_down() {
        put_same_sound(m, none, i, q);
        let n = m.put(i, q);
        if p.ticks_left <= 1 {
            dequeue_sound(n, none, i);
            enqueue_sound(n.dequeue(i), none.insert(i), i);
            assert(none.insert(i).remove(i) =~= none);
        }
    }
}

/// One tick of computing.
proof fn computing_one_tick(m: SchedModel, i: int, j: int)
    requires
        sound(m),
        m.ticks < u64::MAX,
        m.current == i,
        com::NR_TASKS <= i < NR_PROCS,
        i != BOOTSTRAP,
        m.procs[i].preemptible,
        m.flags(i) == 0,
        m.procs[i].quantum_size >= 1,
        m.procs[i].max_priority <= m.procs[i].priority <= 14,
        0 <= j < NR_PROCS,
        j != i,
    ensures
        ({
            let n = SchedModel { ticks: (m.ticks + 1) as u64, ..m }.charge();
            let p = m.procs[i];
            let q = n.procs[i];
            &&& sound(n)
            &&& n.ticks == m.ticks + 1
            &&& n.current == i
            &&& n.procs[j] == m.procs[j]
            &&& q == (Proc { ticks_left: q.ticks_left, priority: q.priority, ..p })
            &&& p.ticks_left > 1 ==> n.last_expired == m.last_expired && q.ticks_left == p.ticks_left
                - 1 && q.priority == p.priority && n.queues == m.queues
            &&& p.ticks_left <= 1 ==> n.last_expired == Some(i) && q.ticks_left == p.quantum_size
                && n.queues[q.priority as int].len() > 0 && n.queues[q.priority as int].last() == i
            &&& p.ticks_left <= 1 && m.last_expired == Some(i) ==> q.priority == (if p.priority
                < 14 {
                p.priority + 1
            } else {
                14
            })
            &&& p.max_priority <= q.priority <= 14
        }),
{
    let t = SchedModel { ticks: (m.ticks + 1) as u64, ..m };
    frame_sound(m, t, Set::empty());
    charge_sound(t);
    assert(slot_ok(m.procs[i], i, m.sem_seq));
    let n = t.charge();
    if m.procs[i].ticks_left <= 1 {
        let q = n.procs[i].priority as int;
        let a = t.put(
            i,
            Proc { ticks_left: crate::proc::clock::one_less(m.procs[i].ticks_left), ..m.procs[i] },
        ).dequeue(i);
        assert(n == a.enqueue(i));
        assert(n.queues[q] == a.queues[q].push(i));
    }
}

/// A process behind another one in the queue of its priority, or of a worse
/// priority, is not the next to run.
proof fn not_next(m: SchedModel, i: int, j: int)
    requires
        sound(m),
        0 <= i < NR_PROCS,
        0 <= j < NR_PROCS,
        i != j,
        m.flags(i) == 0,
        m.flags(j) == 0,
        m.procs[j].priority <= m.procs[i].priority,
        m.queues[m.procs[i].priority as int].len() > 0,
        m.queues[m.procs[i].priority as int].last() == i,
    ensures
        m.next() is Some,
        m.next()->0 != i,
        m.procs[m.next()->0].priority <= m.procs[j].priority,
{
    next_is_best(m, j);
    let x = m.next()->0;
    if x == i {
        let q = m.procs[i].priority as int;
        assert(slot_ok(m.procs[i], i, m.sem_seq));
        assert(m.procs[j].priority == q);
        assert(m.queues[q].contains(j));
        let k = m.queues[q].index_of(j);
        let last = m.queues[q].len() - 1;
        assert(m.queues[q][last] == i);
        assert(m.queues[q][k] == j);
        front_is_head(m.queues, 0, q, i);
        assert(m.queues[q][0] == i);
        assert(0 == last);
        assert(false);
    }
}

/// If the first entry of the first non-empty list is in list `q` and no
/// other, it is the head of list `q`.
proof fn front_is_head(lists: Seq<Seq<int>>, from: int, q: int, x: int)
    requires
        0 <= from <= q < lists.len(),
        front_from(lists, from) == Some(x),
        forall|l: int, k: int|
            #![trigger lists[l][k]]
            0 <= l < lists.len() && 0 <= k < lists[l].len() && lists[l][k] == x ==> l == q,
    ensures
        lists[q].len() > 0,
        lists[q][0] == x,
    decreases q - from,
{
    if lists[from].len() > 0 {
        assert(lists[from][0] == x);
    } else {
        if from == q {
            past_the_end(lists, from + 1, x);
            let (l, k) = choose|l: int, k: int|
                from + 1 <= l < lists.len() && 0 <= k < lists[l].len() && #[trigger] lists[l][k] == x;
            assert(lists[l][k] == x);
        } else {
            front_is_head(lists, from + 1, q, x);
        }
    }
}

/// The first entry of the first non-empty list is an entry.
proof fn past_the_end(lists: Seq<Seq<int>>, from: int, x: int)
    requires
        0 <= from,
        front_from(lists, from) == Some(x),
    ensures
        exists|l: int, k: int|
            from <= l < lists.len() && 0 <= k < lists[l].len() && #[trigger] lists[l][k] == x,
    decreases lists.len() - from,
{
    if lists[from].len() > 0 {
        assert(lists[from][0] == x);
    } else {
        past_the_end(lists, from + 1, x);
    }
}

/// How many ticks of computing it takes until another process's turn has
/// come, at most: what is left of the quantum, one quantum for each priority
/// in between, and one more.
pub open spec fn patience(m: SchedModel, i: int, j: int) -> int {
    let p = m.procs[i];
    let own = if p.ticks_left > 0 {
        p.ticks_left as int
    } else {
        1
    };
    let between = m.procs[j].priority - p.priority;
    own + p.quantum_size * (if between > 0 {
        between + 2
    } else {
        2
    })
}

/// A process that only computes does not keep the processor for ever from
/// one that can run, whatever the priority of that one above the idle queue:
/// after so many ticks, at most, it is not the next to run, and whoever is
/// has no worse a priority than the one that waited.
pub proof fn computing_process_makes_way(m: SchedModel, i: int, j: int)
    requires
        sound(m),
        m.current == i,
        com::NR_TASKS <= i < NR_PROCS,
        i != BOOTSTRAP,
        m.procs[i].preemptible,
        m.flags(i) == 0,
        m.procs[i].quantum_size >= 1,
        m.procs[i].max_priority <= m.procs[i].priority <= 14,
        0 <= j < NR_PROCS,
        j != i,
        m.flags(j) == 0,
        m.procs[j].priority <= 14,
        m.ticks + patience(m, i, j) <= u64::MAX,
    ensures
        exists|k: nat|
            k <= patience(m, i, j) && {
                let n = #[trigger] after_computing(m, k);
                &&& n.next() is Some
                &&& n.next()->0 != i
                &&& n.procs[n.next()->0].priority <= m.procs[j].priority
            },
{
    let own = if m.procs[i].ticks_left > 0 {
        m.procs[i].ticks_left as nat
    } else {
        1nat
    };
    let size = m.procs[i].quantum_size as nat;
    quantum_is_used_up(m, i, j, own);
    let n = after_computing(m, own);
    let worst = if m.procs[j].priority > n.procs[i].priority {
        m.procs[j].priority - n.procs[i].priority
    } else {
        0int
    };
    let between = m.procs[j].priority - m.procs[i].priority;
    assert(own + size * worst <= patience(m, i, j)) by (nonlinear_arith)
        requires
            size >= 1,
            worst <= (if between > 0 {
                between + 2
            } else {
                2
            }),
            worst >= 0,
            patience(m, i, j) == own + size * (if between > 0 {
                between + 2
            } else {
                2
            }),
    ;
    quanta_pass(m, i, j, own, worst as nat);
    let k = own + size * worst as nat;
    let e = after_computing(m, k);
    not_next(e, i, j);
}

/// Computing through what is left of a quantum.
proof fn quantum_is_used_up(m: SchedModel, i: int, j: int, k: nat)
    requires
        sound(m),
        m.current == i,
        com::NR_TASKS <= i < NR_PROCS,
        i != BOOTSTRAP,
        m.procs[i].preemptible,
        m.flags(i) == 0,
        m.procs[i].quantum_size >= 1,
        m.procs[i].max_priority <= m.procs[i].priority <= 14,
        0 <= j < NR_PROCS,
        j != i,
        k >= 1,
        k <= m.procs[i].ticks_left || k == 1,
        m.ticks + k <= u64::MAX,
    ensures
        ({
            let n = after_computing(m, k);
            let p = m.procs[i];
            let q = n.procs[i];
            &&& sound(n)
            &&& n.ticks == m.ticks + k
            &&& n.current == i
            &&& n.procs[j] == m.procs[j]
            &&& q == (Proc { ticks_left: q.ticks_left, priority: q.priority, ..p })
            &&& p.max_priority <= q.priority <= 14
            &&& k < p.ticks_left ==> n.last_expired == m.last_expired && q.ticks_left == p.ticks_left
                - k && q.priority == p.priority && n.queues == m.queues
            &&& k >= p.ticks_left ==> {
                &&& n.last_expired == Some(i)
                &&& q.ticks_left == p.quantum_size
                &&& n.queues[q.priority as int].len() > 0
                &&& n.queues[q.priority as int].last() == i
                &&& q.priority >= p.priority - 1
                &&& m.last_expired == Some(i) ==> q.priority == (if p.priority < 14 {
                    p.priority + 1
                } else {
                    14
                })
            }
        }),
    decreases k,
{
    let before = after_computing(m, (k - 1) as nat);
    if k > 1 {
        quantum_is_used_up(m, i, j, (k - 1) as nat);
    } else {
        assert(before == m);
    }
    computing_one_tick(before, i, j);
    computing_costs_at_most_one(before, i);
}

/// A tick improves a priority by one at most.
proof fn computing_costs_at_most_one(m: SchedModel, i: int)
    requires
        sound(m),
        m.current == i,
        0 <= i < NR_PROCS,
        m.procs[i].max_priority <= m.procs[i].priority <= 14,
    ensures
        (SchedModel { ticks: (m.ticks + 1) as u64, ..m }).charge().procs[i].priority
            >= m.procs[i].priority - 1,
{
}

/// Computing through `c` whole quanta after the first.
proof fn quanta_pass(m: SchedModel, i: int, j: int, own: nat, c: nat)
    requires
        sound(m),
        m.current == i,
        com::NR_TASKS <= i < NR_PROCS,
        i != BOOTSTRAP,
        m.procs[i].preemptible,
        m.flags(i) == 0,
        m.procs[i].quantum_size >= 1,
        m.procs[i].max_priority <= m.procs[i].priority <= 14,
        0 <= j < NR_PROCS,
        j != i,
        own >= 1,
        own == m.procs[i].ticks_left || own == 1 && m.procs[i].ticks_left <= 0,
        m.ticks + own + m.procs[i].quantum_size * c <= u64::MAX,
    ensures
        ({
            let s = after_computing(m, own);
            let n = after_computing(m, own + (m.procs[i].quantum_size as nat) * c);
            let q = n.procs[i];
            &&& sound(n)
            &&& n.current == i
            &&& n.ticks == m.ticks + own + m.procs[i].quantum_size * c
            &&& n.procs[j] == m.procs[j]
            &&& q == (Proc { ticks_left: q.ticks_left, priority: q.priority, ..m.procs[i] })
            &&& q.ticks_left == q.quantum_size
            &&& q.max_priority <= q.priority <= 14
            &&& n.last_expired == Some(i)
            &&& n.queues[q.priority as int].len() > 0
            &&& n.queues[q.priority as int].last() == i
            &&& q.priority == (if s.procs[i].priority + c < 14 {
                s.procs[i].priority + c
            } else {
                14
            })
        }),
    decreases c,
{
    let size = m.procs[i].quantum_size as nat;
    if c == 0 {
        assert(size * 0 == 0) by (nonlinear_arith);
        quantum_is_used_up(m, i, j, own);
    } else {
        let d = (c - 1) as nat;
        assert(size * c == size * d + size) by (nonlinear_arith)
            requires
                c == d + 1,
        ;
        quanta_pass(m, i, j, own, d);
        quantum_is_used_up(after_computing(m, own + size * d), i, j, size);
        computing_goes_on(m, own + size * d, size);
    }
}

/// Computing for a while and then for another while is computing through
/// both.
proof fn computing_goes_on(m: SchedModel, a: nat, b: nat)
    ensures
        after_computing(after_computing(m, a), b) == after_computing(m, a + b),
    decreases b,
{
    if b > 0 {
        computing_goes_on(m, a, (b - 1) as nat);
    }
}

} // verus!
