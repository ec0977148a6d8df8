//! When a timed wait gives up.
use vstd::prelude::*;

use crate::pit;
use crate::proc::endings::Step;
use crate::proc::haiku;
use crate::proc::model::{Proc, SchedModel};
use crate::proc::ports::deadline;
use crate::proc::rts;
use crate::proc::rts::flagged;
use crate::proc::soundness::sound;

verus! {

/// A relative timeout counts from the tick it begins at: it gives up at the
/// first tick by which that many microseconds have passed since. Only one so
/// far off that no tick can be named for it waits for ever.
pub proof fn relative_timeout_counts_from_now(flags: u32, us: i64, now: u64)
    requires
        flags & haiku::B_RELATIVE_TIMEOUT != 0,
        0 < us < i64::MAX,
    ensures
        match deadline(flags, us, now) {
            Ok(Some(d)) => {
                &&& d > now
                &&& (d - now) * 1000000 >= us * pit::HZ
                &&& (d - now - 1) * 1000000 < us * pit::HZ
            },
            Ok(None) => us * pit::HZ > u64::MAX || us * pit::HZ > (u64::MAX - now) * 1000000,
            Err(_) => false,
        },
{
}

/// A relative timeout that is over before it begins must not wait.
pub proof fn past_relative_timeout_does_not_wait(flags: u32, us: i64, now: u64)
    requires
        flags & haiku::B_RELATIVE_TIMEOUT != 0,
        us <= 0,
    ensures
        deadline(flags, us, now) == Err::<Option<u64>, i32>(haiku::B_WOULD_BLOCK),
{
}

/// An absolute timeout is the first tick at or after that moment, counted
/// from the start of the system, whenever the wait begins.
pub proof fn absolute_timeout_counts_from_boot(flags: u32, us: i64, now: u64)
    requires
        flags & haiku::B_RELATIVE_TIMEOUT == 0,
        flags & haiku::B_ABSOLUTE_TIMEOUT != 0,
        us < i64::MAX,
    ensures
        match deadline(flags, us, now) {
            Ok(Some(d)) => {
                &&& d * 1000000 >= us * pit::HZ
                &&& us > 0 ==> (d - 1) * 1000000 < us * pit::HZ
                &&& us <= 0 ==> d == 0
            },
            Ok(None) => us * pit::HZ > u64::MAX,
            Err(_) => false,
        },
{
}

/// The largest timeout, and one without either flag, wait for ever.
pub proof fn no_timeout_waits_for_ever(flags: u32, us: i64, now: u64)
    requires
        us == i64::MAX || flags & haiku::B_RELATIVE_TIMEOUT == 0 && flags
            & haiku::B_ABSOLUTE_TIMEOUT == 0,
    ensures
        deadline(flags, us, now) == Ok::<Option<u64>, i32>(None),
{
}

/// A later moment is never due before an earlier one, and neither is the
/// same timeout when its wait begins later.
pub proof fn timeouts_keep_their_order(flags: u32, us: i64, vs: i64, now: u64, later: u64)
    requires
        us <= vs < i64::MAX,
        now <= later,
        deadline(flags, us, now) matches Ok(Some(_)),
        deadline(flags, vs, later) matches Ok(Some(_)),
    ensures
        (deadline(flags, us, now)->Ok_0)->0 <= (deadline(flags, vs, later)->Ok_0)->0,
{
}

/// Reading an empty open port with a relative timeout that is not over
/// blocks the reader, until that deadline and no other.
pub proof fn timed_read_of_an_empty_port_blocks(
    m: SchedModel,
    id: i32,
    s: int,
    flags: u32,
    us: i64,
    take: bool,
)
    requires
        sound(m),
        m.port_slot(id) == Some(s),
        !(m.ports[s]->0).closed,
        (m.ports[s]->0).queue.len() == 0,
        flags & haiku::B_RELATIVE_TIMEOUT != 0,
        us > 0,
    ensures
        ({
            let (n, r) = m.read_step(id, deadline(flags, us, m.ticks), take);
            let p = n.procs[m.current];
            &&& r == Step::<Result<(i32, Seq<u8>), i32>>::Blocked
            &&& flagged(p.rts_flags, rts::PORT_WAIT)
            &&& p.port_wait == Some(s as usize)
            &&& !p.timed_out
            &&& n.ports == m.ports
            &&& p.wait_deadline matches Some(d) ==> d > m.ticks && (d - m.ticks) * 1000000 >= us
                * pit::HZ && (d - m.ticks - 1) * 1000000 < us * pit::HZ
            &&& us * pit::HZ <= u64::MAX && us * pit::HZ <= (u64::MAX - m.ticks) * 1000000
                ==> p.wait_deadline is Some
        }),
{
    rts::raise(m.flags(m.current), rts::PORT_WAIT);
    if us < i64::MAX {
        relative_timeout_counts_from_now(flags, us, m.ticks);
    }
}

/// So does writing to an open port without room.
pub proof fn timed_write_to_a_full_port_blocks(m: SchedModel, id: i32, s: int, flags: u32, us: i64)
    requires
        sound(m),
        m.port_slot(id) == Some(s),
        !(m.ports[s]->0).closed,
        (m.ports[s]->0).queue.len() >= (m.ports[s]->0).capacity,
        flags & haiku::B_RELATIVE_TIMEOUT != 0,
        us > 0,
    ensures
        ({
            let (n, r) = m.write_step(id, deadline(flags, us, m.ticks));
            let p = n.procs[m.current];
            &&& r == Step::<i32>::Blocked
            &&& flagged(p.rts_flags, rts::PORT_WAIT)
            &&& p.port_wait == Some(s as usize)
            &&& !p.timed_out
            &&& n.ports == m.ports
            &&& n.pending == m.pending
            &&& p.wait_deadline matches Some(d) ==> d > m.ticks && (d - m.ticks) * 1000000 >= us
                * pit::HZ && (d - m.ticks - 1) * 1000000 < us * pit::HZ
            &&& us * pit::HZ <= u64::MAX && us * pit::HZ <= (u64::MAX - m.ticks) * 1000000
                ==> p.wait_deadline is Some
        }),
{
    rts::raise(m.flags(m.current), rts::PORT_WAIT);
    if us < i64::MAX {
        relative_timeout_counts_from_now(flags, us, m.ticks);
    }
}

/// With a timeout that must not wait, or one that is over, a read of an
/// empty open port and a write to a full one say so at once, and nothing but
/// the message that was to be written is gone.
pub proof fn over_is_over(m: SchedModel, id: i32, s: int, d: u64, take: bool)
    requires
        sound(m),
        m.port_slot(id) == Some(s),
        !(m.ports[s]->0).closed,
        d <= m.ticks,
    ensures
        (m.ports[s]->0).queue.len() == 0 ==> {
            &&& m.read_step(id, Ok(Some(d)), take) == (
                m,
                Step::<Result<(i32, Seq<u8>), i32>>::Done(Err(haiku::B_TIMED_OUT)),
            )
            &&& m.read_step(id, Err(haiku::B_WOULD_BLOCK), take) == (
                m,
                Step::<Result<(i32, Seq<u8>), i32>>::Done(Err(haiku::B_WOULD_BLOCK)),
            )
        },
        (m.ports[s]->0).queue.len() >= (m.ports[s]->0).capacity ==> {
            &&& m.write_step(id, Ok(Some(d))).1 == Step::Done(haiku::B_TIMED_OUT)
            &&& m.write_step(id, Err(haiku::B_WOULD_BLOCK)).1 == Step::Done(haiku::B_WOULD_BLOCK)
            &&& m.write_step(id, Ok(Some(d))).0.ports == m.ports
            &&& m.write_step(id, Ok(Some(d))).0.procs == m.procs
            &&& m.write_step(id, Ok(Some(d))).0.pending[m.current] is None
        },
{
}

/// A timed wait ends at the first look at or after its deadline, marked as
/// timed out, and not before.
pub proof fn wait_ends_at_its_deadline(m: SchedModel, i: int, d: u64)
    requires
        sound(m),
        0 <= i < m.procs.len(),
        flagged(m.flags(i), rts::PORT_WAIT),
        m.procs[i].wait_deadline == Some(d),
    ensures
        m.ticks < d ==> m.expire(i) == m,
        m.ticks >= d ==> {
            let p = m.expire(i).procs[i];
            &&& !flagged(p.rts_flags, rts::PORT_WAIT)
            &&& p.port_wait is None
            &&& p.wait_deadline is None
            &&& p.timed_out
        },
{
    let n = m.put(i, Proc { timed_out: true, ..m.procs[i] });
    rts::lower(m.flags(i), rts::PORT_WAIT);
}

/// A wait without a deadline never ends by itself.
pub proof fn wait_without_a_deadline_stays(m: SchedModel, i: int)
    requires
        m.procs[i].wait_deadline is None,
    ensures
        m.expire(i) == m,
{
}

} // verus!
