//! Bits of a process's run-time state. A process is runnable exactly when
//! none of them is set.
use vstd::prelude::*;

verus! {

/// The slot holds no process.
pub const SLOT_FREE: u16 = 0x01;
/// Blocked until the destination receives.
pub const SENDING: u16 = 0x04;
/// Blocked until a message arrives.
pub const RECEIVING: u16 = 0x08;
/// Terminated by a fault; never cleared until the slot is filled anew.
pub const DEAD: u16 = 0x10;
/// Claimed for a process that is still being built.
pub const RESERVED: u16 = 0x20;
/// Terminated and holding a status nobody has collected yet.
pub const ZOMBIE: u16 = 0x40;
/// Blocked until a child terminates.
pub const WAITING: u16 = 0x80;
/// Blocked until the thread it joins exits.
pub const JOINING: u16 = 0x100;
/// Blocked until a unit of a semaphore is released to it.
pub const SEM_WAIT: u16 = 0x200;
/// A team's leader that has ended while other members are still finishing
/// calls they were blocked in.
pub const DRAINING: u16 = 0x400;
/// Blocked in a port operation until the port changes or time runs out.
pub const PORT_WAIT: u16 = 0x800;

/// Whether bit `b` is set in `f`.
pub open spec fn flagged(f: u16, b: u16) -> bool {
    f & b != 0
}

/// Whether `b` is one of the state bits.
pub open spec fn is_bit(b: u16) -> bool {
    b == SLOT_FREE || b == SENDING || b == RECEIVING || b == DEAD || b == RESERVED || b == ZOMBIE || b
        == WAITING || b == JOINING || b == SEM_WAIT || b == DRAINING || b == PORT_WAIT
}

/// Setting a bit sets that bit and changes no other.
pub proof fn raise(f: u16, b: u16)
    requires
        is_bit(b),
    ensures
        f | b != 0,
        forall|c: u16| is_bit(c) ==> #[trigger] flagged(f | b, c) == (flagged(f, c) || c == b),
{
    assert(f | b != 0) by (bit_vector)
        requires
            b != 0,
    ;
    assert forall|c: u16| is_bit(c) implies #[trigger] flagged(f | b, c) == (flagged(f, c) || c == b) by {
        if b == c {
            assert((f | b) & b != 0) by (bit_vector)
                requires
                    b != 0,
            ;
        } else {
            bits_apart(b, c);
            assert((f | b) & c == f & c) by (bit_vector)
                requires
                    b & c == 0,
            ;
        }
    }
}

/// Clearing a bit clears that bit and changes no other.
pub proof fn lower(f: u16, b: u16)
    requires
        is_bit(b),
    ensures
        forall|c: u16| is_bit(c) ==> #[trigger] flagged(f & !b, c) == (flagged(f, c) && c != b),
{
    assert forall|c: u16| is_bit(c) implies #[trigger] flagged(f & !b, c) == (flagged(f, c) && c != b) by {
        if b == c {
            assert((f & !b) & b == 0) by (bit_vector);
        } else {
            bits_apart(b, c);
            assert((f & !b) & c == f & c) by (bit_vector)
                requires
                    b & c == 0,
            ;
        }
    }
}

/// Two different state bits have no bit in common.
proof fn bits_apart(b: u16, c: u16)
    requires
        is_bit(b),
        is_bit(c),
        b != c,
    ensures
        b & c == 0,
{
    assert(b & c == 0) by (bit_vector)
        requires
            b == 0x01u16 || b == 0x04u16 || b == 0x08u16 || b == 0x10u16 || b == 0x20u16 || b == 0x40u16
                || b == 0x80u16 || b == 0x100u16 || b == 0x200u16 || b == 0x400u16 || b == 0x800u16,
            c == 0x01u16 || c == 0x04u16 || c == 0x08u16 || c == 0x10u16 || c == 0x20u16 || c == 0x40u16
                || c == 0x80u16 || c == 0x100u16 || c == 0x200u16 || c == 0x400u16 || c == 0x800u16,
            b != c,
    ;
}

/// No bit is set in zero.
pub proof fn none_set()
    ensures
        forall|c: u16| !#[trigger] flagged(0, c),
{
    assert forall|c: u16| !#[trigger] flagged(0, c) by {
        assert(0u16 & c == 0) by (bit_vector);
    }
}

/// A state made of one bit alone has that bit and no other.
pub proof fn only(b: u16)
    requires
        is_bit(b),
    ensures
        flagged(b, b),
        forall|c: u16| is_bit(c) ==> #[trigger] flagged(b, c) == (c == b),
{
    assert forall|c: u16| is_bit(c) implies #[trigger] flagged(b, c) == (c == b) by {
        if b == c {
            assert(b & b == b) by (bit_vector);
        } else {
            bits_apart(b, c);
        }
    }
    assert(b & b == b) by (bit_vector);
}

} // verus!
