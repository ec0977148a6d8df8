//! The memory of a calling process, as far as it is the caller's own.
use vstd::prelude::*;

use crate::bytes::{le64, read64};
use crate::elf::stack::{Block, MAX_START_ARGS_BYTES};
use crate::memory::cow::COW;
use crate::memory::paging::{
    canonical, is_canonical, p4_slot, pml4_slots_unused, slots_unused, ENTRIES, PML4_SLOT_BYTES,
    WRITABLE,
};
use crate::memory::walk::{find_entry, mapped, page_at, page_of, pages_are_whole};
use crate::rt::args::{all_nul_free, arrives, nul_free, plain_arguments_arrive};

verus! {

/// The caller named memory that is not its own.
pub const ERR_BAD_ARG_PTR: u64 = 0xffff_ffff_ffff_fff4;
/// Arguments and environment are larger than will be copied.
pub const ERR_ARGS_TOO_BIG: u64 = 0xffff_ffff_ffff_fff3;

/// Most strings that an argument or environment vector may have.
pub const MAX_EXEC_VECTOR: usize = 64;

/// A page of the caller: the physical address it is at, and whether the
/// caller may write to it.
#[derive(Clone, Copy, Debug, PartialEq, Eq, Structural)]
pub struct UserPage {
    pub frame: u64,
    pub writable: bool,
}

/// The entries of the kernel's top-level page table, the frame of the
/// caller's, and physical memory.
pub struct CallerMemory<'a> {
    pub kernel: &'a [u64],
    pub pml4: u64,
    pub mem: &'a [u8],
}

impl<'a> CallerMemory<'a> {
    /// The kernel's table has its size.
    pub open spec fn wf(self) -> bool {
        self.kernel@.len() == ENTRIES
    }

    /// The caller's page that holds address `a`. One that a fork shares may
    /// be written to: it is copied then.
    #[verifier::opaque]
    pub open spec fn page_of(self, a: int) -> Option<UserPage> {
        if !(0 <= a <= u64::MAX) {
            None
        } else {
            match (mapped(self.mem@, self.pml4, a as u64), page_at(self.mem@, self.pml4, a as u64)) {
                (Some(m), Some(frame)) => Some(
                    UserPage { frame, writable: m.entry & (WRITABLE | COW) != 0 },
                ),
                _ => None,
            }
        }
    }

    /// Whether address `a` is in a slot that the kernel does not use.
    pub open spec fn private(self, a: int) -> bool {
        0 <= a <= u64::MAX && self.kernel@[p4_slot(a as u64)] == 0
    }

    /// The caller's own byte at address `a`.
    pub open spec fn byte(self, a: int) -> Option<u8> {
        if self.private(a) && self.page_of(a) is Some {
            Some(self.mem@[(self.page_of(a)->0).frame + a % 4096])
        } else {
            None
        }
    }

    /// Whether the caller owns the `n` bytes at `a`.
    pub open spec fn readable(self, a: int, n: int) -> bool {
        forall|i: int| a <= i < a + n ==> (#[trigger] self.byte(i)) is Some
    }

    /// Whether the caller owns the `n` bytes at `a` and may write to them.
    pub open spec fn writable(self, a: int, n: int) -> bool {
        forall|i: int|
            a <= i < a + n ==> (#[trigger] self.byte(i)) is Some && (self.page_of(i)->0).writable
    }

    /// The caller's `n` bytes at `a`.
    pub open spec fn bytes(self, a: int, n: int) -> Seq<u8> {
        Seq::new(n as nat, |i: int| self.byte(a + i)->0)
    }

    /// The string at `a`, up to its NUL, if it costs no more than `budget`
    /// with the NUL counted.
    pub open spec fn string_at(self, a: int, budget: int) -> Result<Seq<u8>, u64>
        decreases budget,
    {
        match self.byte(a) {
            None => Err(ERR_BAD_ARG_PTR),
            Some(b) => if budget <= 0 {
                Err(ERR_ARGS_TOO_BIG)
            } else if b == 0 {
                Ok(Seq::empty())
            } else {
                match self.string_at(a + 1, budget - 1) {
                    Ok(rest) => Ok(seq![b] + rest),
                    Err(e) => Err(e),
                }
            },
        }
    }

    /// The strings that the vector at `vec` points at from entry `k` on, up
    /// to its zero entry, if they cost no more than `budget` and the vector
    /// has no more than it may have.
    pub open spec fn vector_from(self, vec: int, k: int, budget: int) -> Result<Seq<Seq<u8>>, u64>
        decreases MAX_EXEC_VECTOR - k,
    {
        let slot = vec + 8 * k;
        if !self.readable(slot, 8) {
            Err(ERR_BAD_ARG_PTR)
        } else if le64(self.bytes(slot, 8), 0) == 0 {
            Ok(Seq::empty())
        } else if k >= MAX_EXEC_VECTOR {
            Err(ERR_ARGS_TOO_BIG)
        } else {
            match self.string_at(le64(self.bytes(slot, 8), 0), budget) {
                Err(e) => Err(e),
                Ok(s) => match self.vector_from(vec, k + 1, budget - s.len() - 1) {
                    Err(e) => Err(e),
                    Ok(rest) => Ok(seq![s] + rest),
                },
            }
        }
    }

    /// The strings of a vector; none for a null one.
    pub open spec fn vector(self, vec: int, budget: int) -> Result<Seq<Seq<u8>>, u64> {
        if vec == 0 {
            Ok(Seq::empty())
        } else {
            self.vector_from(vec, 0, budget)
        }
    }

    /// The caller's page that holds address `a`.
    fn find_page(&self, a: u64) -> (r: Option<UserPage>)
        ensures
            r == self.page_of(a as int),
            r matches Some(p) ==> p.frame + 4096 <= self.mem@.len() && canonical(a),
    {
        reveal(CallerMemory::page_of);
        reveal(mapped);
        match find_entry(self.mem, self.pml4, a) {
            Some(m) => match page_of(self.mem, &m, a) {
                Some(frame) => Some(
                    UserPage { frame, writable: m.entry & (WRITABLE | COW) != 0 },
                ),
                None => None,
            },
            None => None,
        }
    }

    /// Whether all of the `n` bytes at `addr` are where the kernel has
    /// nothing, as far as their slots tell.
    fn slots_private(&self, addr: u64, n: usize) -> (r: bool)
        requires
            self.wf(),
            n > 0,
        ensures
            r ==> addr + n - 1 <= u64::MAX,
            r ==> canonical(addr),
            r ==> canonical((addr + n - 1) as u64),
            r ==> slots_unused(self.kernel@, addr, (addr + n - 1) as u64),
            !r ==> !self.readable(addr as int, n as int),
    {
        match addr.checked_add(n as u64 - 1) {
            None => {
                assert(self.byte(u64::MAX + 1) is None);
                false
            },
            Some(end) => {
                proof {
                    own_is_canonical(*self, addr as int);
                    own_is_canonical(*self, end as int);
                }
                if !is_canonical(addr) || !is_canonical(end) {
                    assert(self.byte(addr as int) is None || self.byte(end as int) is None);
                    return false;
                }
                let r: bool = pml4_slots_unused(self.kernel, addr, end);
                if !r {
                    proof {
                        used_slot_unreadable(*self, addr, n as int);
                    }
                }
                r
            },
        }
    }

    /// The `n` bytes at `addr`, if the caller owns them.
    pub fn copy_from_caller(&self, addr: u64, n: usize) -> (r: Result<Vec<u8>, u64>)
        requires
            self.wf(),
        ensures
            if self.readable(addr as int, n as int) {
                r matches Ok(v) && v@ == self.bytes(addr as int, n as int)
            } else {
                r matches Err(e) && e == ERR_BAD_ARG_PTR
            },
    {
        let mut v: Vec<u8> = Vec::new();
        if n == 0 {
            assert(v@ =~= self.bytes(addr as int, 0));
            return Ok(v);
        }
        if !self.slots_private(addr, n) {
            return Err(ERR_BAD_ARG_PTR);
        }
        let size: usize = self.mem.len();
        let mut i: usize = 0;
        while i < n
            invariant
                i <= n,
                self.wf(),
                n > 0,
                addr + n - 1 <= u64::MAX,
                canonical(addr),
                canonical((addr + n - 1) as u64),
                slots_unused(self.kernel@, addr, (addr + n - 1) as u64),
                size == self.mem@.len(),
                v@ == self.bytes(addr as int, i as int),
                forall|j: int| addr <= j < addr + i ==> (#[trigger] self.byte(j)) is Some,
            decreases n - i,
        {
            let a: u64 = addr + i as u64;
            match self.find_page(a) {
                Some(p) => {
                    proof {
                        private_in_range(*self, addr, n as int, i as int);
                    }
                    let at: usize = p.frame as usize + (a % 4096) as usize;
                    v.push(self.mem[at]);
                    assert(self.byte(a as int) is Some);
                    i = i + 1;
                    assert(v@ =~= self.bytes(addr as int, i as int));
                },
                None => {
                    assert(self.byte(a as int) is None);
                    return Err(ERR_BAD_ARG_PTR);
                },
            }
        }
        Ok(v)
    }

    /// Whether the caller owns the `n` bytes at `addr` and may write to
    /// them.
    pub fn can_write(&self, addr: u64, n: usize) -> (r: bool)
        requires
            self.wf(),
        ensures
            r == self.writable(addr as int, n as int),
    {
        if n == 0 {
            return true;
        }
        if !self.slots_private(addr, n) {
            proof {
                let i = choose|i: int| addr <= i < addr + n && (#[trigger] self.byte(i)) is None;
                assert(self.byte(i) is None);
            }
            return false;
        }
        let mut i: usize = 0;
        while i < n
            invariant
                i <= n,
                self.wf(),
                n > 0,
                addr + n - 1 <= u64::MAX,
                canonical(addr),
                canonical((addr + n - 1) as u64),
                slots_unused(self.kernel@, addr, (addr + n - 1) as u64),
                forall|j: int|
                    addr <= j < addr + i ==> (#[trigger] self.byte(j)) is Some && (
                    self.page_of(j)->0).writable,
            decreases n - i,
        {
            let a: u64 = addr + i as u64;
            match self.find_page(a) {
                Some(p) => {
                    proof {
                        private_in_range(*self, addr, n as int, i as int);
                    }
                    assert(self.byte(a as int) is Some);
                    if !p.writable {
                        return false;
                    }
                },
                None => {
                    assert(self.byte(a as int) is None);
                    return false;
                },
            }
            i = i + 1;
        }
        true
    }

    /// Read the vector of strings at `vec` into buffers of the kernel's own:
    /// what both vectors of a call cost together comes off `budget`.
    pub fn copy_in_vector(&self, vec: u64, budget: &mut usize) -> (r: Result<Vec<Vec<u8>>, u64>)
        requires
            self.wf(),
        ensures
            match self.vector(vec as int, *old(budget) as int) {
                Ok(strings) => {
                    &&& r matches Ok(v) && views(v@) == strings
                    &&& *final(budget) == *old(budget) - cost(strings)
                    &&& strings.len() <= MAX_EXEC_VECTOR
                },
                Err(e) => r matches Err(f) && f == e,
            },
    {
        let mut out: Vec<Vec<u8>> = Vec::new();
        assert(views(out@) =~= Seq::<Seq<u8>>::empty());
        if vec == 0 {
            return Ok(out);
        }
        let ghost b0 = *budget as int;
        let ghost whole = self.vector_from(vec as int, 0, b0);
        loop
            invariant
                self.wf(),
                vec != 0,
                b0 == *old(budget),
                out@.len() <= MAX_EXEC_VECTOR,
                *budget == b0 - cost(views(out@)),
                whole == self.vector(vec as int, b0),
                whole == prepended(
                    views(out@),
                    self.vector_from(vec as int, out@.len() as int, *budget as int),
                ),
            decreases MAX_EXEC_VECTOR - out@.len(),
        {
            let ghost k = out@.len() as int;
            let ghost slot_int = vec + 8 * k;
            let slot: u64 = match vec.checked_add(out.len() as u64 * 8) {
                Some(slot) => slot,
                None => {
                    assert(self.byte(slot_int) is None);
                    return Err(ERR_BAD_ARG_PTR);
                },
            };
            let word = match self.copy_from_caller(slot, 8) {
                Ok(word) => word,
                Err(e) => {
                    return Err(e);
                },
            };
            let ptr: u64 = read64(&word, 0);
            if ptr == 0 {
                assert(views(out@) + Seq::<Seq<u8>>::empty() =~= views(out@));
                return Ok(out);
            }
            if out.len() == MAX_EXEC_VECTOR {
                return Err(ERR_ARGS_TOO_BIG);
            }
            let ghost before = views(out@);
            let ghost left = *budget as int;
            match self.copy_in_string(ptr, budget) {
                Ok(s) => {
                    let ghost sv = s@;
                    out.push(s);
                    proof {
                        assert(views(out@) =~= before.push(sv));
                        assert(views(out@).drop_last() =~= before);
                        assert forall|t: Seq<Seq<u8>>| #[trigger] (before + (seq![sv] + t)) =~= before.push(sv) + t by {
                        }
                    }
                },
                Err(e) => {
                    return Err(e);
                },
            }
        }
    }

    /// Read the string at `ptr`, without its NUL; its cost comes off
    /// `budget`.
    fn copy_in_string(&self, ptr: u64, budget: &mut usize) -> (r: Result<Vec<u8>, u64>)
        requires
            self.wf(),
        ensures
            match self.string_at(ptr as int, *old(budget) as int) {
                Ok(s) => {
                    &&& r matches Ok(v) && v@ == s
                    &&& *final(budget) == *old(budget) - s.len() - 1
                },
                Err(e) => r matches Err(f) && f == e,
            },
    {
        let mut s: Vec<u8> = Vec::new();
        let mut at: u64 = ptr;
        let ghost b0 = *budget as int;
        let ghost whole = self.string_at(ptr as int, b0);
        assert forall|t: Seq<u8>| #[trigger] (s@ + t) =~= t by {
        }
        loop
            invariant
                self.wf(),
                b0 == *old(budget),
                at == ptr + s@.len(),
                s@.len() + *budget == b0,
                whole == self.string_at(ptr as int, b0),
                whole == prefixed(s@, self.string_at(at as int, *budget as int)),
            decreases *budget,
        {
            // A piece never crosses a page: a string that ends just short of
            // a page that is not mapped is in order.
            let to_page_end: u64 = 4096 - (at % 4096);
            let n: usize = if to_page_end < 64 {
                to_page_end as usize
            } else {
                64
            };
            proof {
                piece_is_whole(*self, at as int, n as int);
            }
            let chunk = match self.copy_from_caller(at, n) {
                Ok(chunk) => chunk,
                Err(e) => {
                    assert(self.byte(at as int) is None);
                    return Err(e);
                },
            };
            let mut len: usize = 0;
            while len < n && chunk[len] != 0
                invariant
                    len <= n,
                    chunk@.len() == n,
                    forall|j: int| 0 <= j < len ==> chunk@[j] != 0,
                decreases n - len,
            {
                len = len + 1;
            }
            let done: bool = len < n;
            let cost: usize = if done {
                len + 1
            } else {
                len
            };
            proof {
                string_pieces(*self, at as int, *budget as int, chunk@, len as int);
            }
            if cost > *budget {
                return Err(ERR_ARGS_TOO_BIG);
            }
            let ghost was = s@;
            let mut j: usize = 0;
            while j < len
                invariant
                    j <= len,
                    len <= chunk@.len(),
                    s@ == was + chunk@.take(j as int),
                decreases len - j,
            {
                s.push(chunk[j]);
                j = j + 1;
                assert(s@ =~= was + chunk@.take(j as int));
            }
            proof {
                let piece = chunk@.take(len as int);
                assert(was + (piece + Seq::<u8>::empty()) =~= s@);
                assert forall|t: Seq<u8>| #[trigger] (was + (piece + t)) =~= s@ + t by {
                }
            }
            *budget = *budget - cost;
            if done {
                return Ok(s);
            }
            at = match at.checked_add(n as u64) {
                Some(next) => next,
                None => {
                    assert(self.byte(at + n) is None);
                    return Err(ERR_BAD_ARG_PTR);
                },
            };
        }
    }
}

/// A result with `s` before it.
pub open spec fn prefixed(s: Seq<u8>, r: Result<Seq<u8>, u64>) -> Result<Seq<u8>, u64> {
    match r {
        Ok(t) => Ok(s + t),
        Err(e) => Err(e),
    }
}

/// A result with `s` before it.
pub open spec fn prepended(s: Seq<Seq<u8>>, r: Result<Seq<Seq<u8>>, u64>) -> Result<
    Seq<Seq<u8>>,
    u64,
> {
    match r {
        Ok(t) => Ok(s + t),
        Err(e) => Err(e),
    }
}

/// Byte strings as sequences.
pub open spec fn views(s: Seq<Vec<u8>>) -> Seq<Seq<u8>> {
    Seq::new(s.len(), |i: int| s[i]@)
}

/// What strings cost: their bytes, and a NUL for each.
pub open spec fn cost(s: Seq<Seq<u8>>) -> int
    decreases s.len(),
{
    if s.len() == 0 {
        0
    } else {
        cost(s.drop_last()) + s.last().len() + 1
    }
}

/// The slots of canonical addresses are in the order of the addresses.
proof fn slots_in_order(a: u64, b: u64)
    requires
        canonical(a),
        canonical(b),
        a <= b,
    ensures
        0 <= p4_slot(a) <= p4_slot(b) < 512,
        a < 0x8000_0000_0000 ==> p4_slot(a) == a as int / PML4_SLOT_BYTES as int,
        b >= 0xffff_8000_0000_0000 ==> p4_slot(b) == b as int / PML4_SLOT_BYTES as int - 0x1ff_fe00,
{
}

/// The slot of an address between two others is between theirs.
proof fn private_in_range(c: CallerMemory, addr: u64, n: int, i: int)
    requires
        c.wf(),
        0 <= i < n,
        addr + n - 1 <= u64::MAX,
        canonical(addr),
        canonical((addr + n - 1) as u64),
        slots_unused(c.kernel@, addr, (addr + n - 1) as u64),
        canonical((addr + i) as u64),
    ensures
        c.private(addr + i),
{
    let a = (addr + i) as u64;
    slots_in_order(addr, a);
    slots_in_order(a, (addr + n - 1) as u64);
    assert(c.kernel@[p4_slot(a)] == 0);
}

/// Every slot between those of two canonical addresses of one half has an
/// address between them.
proof fn address_in_slot(a: u64, b: u64, i: int) -> (x: u64)
    requires
        canonical(a),
        canonical(b),
        a <= b,
        a >= 0x8000_0000_0000 || b < 0x8000_0000_0000,
        p4_slot(a) <= i <= p4_slot(b),
    ensures
        a <= x <= b,
        p4_slot(x) == i,
{
    slots_in_order(a, b);
    let half: int = if a < 0x8000_0000_0000 { 0 } else { 0x1ff_fe00 };
    let n = i + half;
    assert(a as int / 0x80_0000_0000 <= n <= b as int / 0x80_0000_0000);
    let start = n * 0x80_0000_0000;
    assert(start / 0x80_0000_0000 == n);
    let x = if start > a { start } else { a as int };
    assert(x as u64 as int / 0x80_0000_0000 == n);
    assert(n % 512 == i);
    x as u64
}

/// A byte of the caller's own has a canonical address.
proof fn own_is_canonical(c: CallerMemory, a: int)
    ensures
        c.byte(a) is Some ==> 0 <= a <= u64::MAX && canonical(a as u64),
{
    reveal(CallerMemory::page_of);
    reveal(mapped);
}

/// If the kernel uses a slot of a range, some byte of it is not the
/// caller's.
proof fn used_slot_unreadable(c: CallerMemory, addr: u64, n: int)
    requires
        c.wf(),
        n > 0,
        addr + n - 1 <= u64::MAX,
        !slots_unused(c.kernel@, addr, (addr + n - 1) as u64),
    ensures
        !c.readable(addr as int, n),
{
    let end = (addr + n - 1) as u64;
    if c.readable(addr as int, n) {
        assert(c.byte(addr as int) is Some);
        assert(c.byte(end as int) is Some);
        let i = choose|i: int| p4_slot(addr) <= i <= p4_slot(end) && #[trigger] c.kernel@[i] != 0;
        // What lies between the halves is nobody's.
        own_is_canonical(c, addr as int);
        own_is_canonical(c, end as int);
        own_is_canonical(c, 0x8000_0000_0000);
        slots_in_order(addr, end);
        let x = address_in_slot(addr, end, i);
        assert(c.byte(x as int) is Some);
    }
}

/// Within one page, either every byte is the caller's or none.
proof fn piece_is_whole(c: CallerMemory, at: int, n: int)
    requires
        c.wf(),
        0 <= at <= u64::MAX,
        0 < n <= 4096 - at % 4096,
    ensures
        c.byte(at) is Some ==> c.readable(at, n),
{
    reveal(CallerMemory::page_of);
    if c.byte(at) is Some {
        assert forall|i: int| at <= i < at + n implies (#[trigger] c.byte(i)) is Some by {
            assert(i / 4096 == at / 4096);
            assert(i as u64 / PML4_SLOT_BYTES == at as u64 / PML4_SLOT_BYTES);
            pages_are_whole(c.mem@, c.pml4, at as u64, i as u64);
        }
    }
}

/// A string that goes on for `k` bytes.
proof fn string_skip(c: CallerMemory, a: int, budget: int, k: int)
    requires
        0 <= k,
        0 <= budget,
        forall|j: int| a <= j < a + k ==> (#[trigger] c.byte(j)) is Some && c.byte(j) != Some(0u8),
    ensures
        k > budget ==> c.string_at(a, budget) == Err::<Seq<u8>, u64>(ERR_ARGS_TOO_BIG),
        k <= budget ==> c.string_at(a, budget) == prefixed(
            c.bytes(a, k),
            c.string_at(a + k, budget - k),
        ),
    decreases k,
{
    if k == 0 {
        assert(c.bytes(a, 0) =~= Seq::empty());
        match c.string_at(a, budget) {
            Ok(t) => {
                assert(Seq::<u8>::empty() + t =~= t);
            },
            Err(_) => {},
        }
    } else {
        assert(c.byte(a) is Some);
        if budget > 0 {
            string_skip(c, a + 1, budget - 1, k - 1);
            assert(a + 1 + (k - 1) == a + k);
            match c.string_at(a + k, budget - k) {
                Ok(t) => {
                    assert(seq![c.byte(a)->0] + (c.bytes(a + 1, k - 1) + t) =~= c.bytes(a, k) + t);
                },
                Err(_) => {},
            }
        }
    }
}

/// What a piece of a string says of the whole.
proof fn string_pieces(c: CallerMemory, at: int, budget: int, chunk: Seq<u8>, len: int)
    requires
        0 <= budget,
        0 <= len <= chunk.len(),
        c.readable(at, chunk.len() as int),
        chunk == c.bytes(at, chunk.len() as int),
        forall|j: int| 0 <= j < len ==> chunk[j] != 0,
        len < chunk.len() ==> chunk[len] == 0,
    ensures
        len < chunk.len() ==> c.string_at(at, budget) == (if len + 1 > budget {
            Err::<Seq<u8>, u64>(ERR_ARGS_TOO_BIG)
        } else {
            Ok(chunk.take(len))
        }),
        len == chunk.len() ==> c.string_at(at, budget) == (if len > budget {
            Err::<Seq<u8>, u64>(ERR_ARGS_TOO_BIG)
        } else {
            prefixed(chunk.take(len), c.string_at(at + len, budget - len))
        }),
{
    assert forall|j: int| at <= j < at + len implies (#[trigger] c.byte(j)) is Some && c.byte(j)
        != Some(0u8) by {
        assert(chunk[j - at] == c.byte(at + (j - at))->0);
    }
    string_skip(c, at, budget, len);
    assert(chunk.take(len) =~= c.bytes(at, len));
    if len < chunk.len() {
        assert(c.byte(at + len) is Some);
        assert(chunk[len] == c.byte(at + len)->0);
        assert(c.bytes(at, len) + Seq::<u8>::empty() =~= c.bytes(at, len));
    }
}

/// Bytes in a slot that the kernel uses are never the caller's own, whatever
/// is mapped there: such a buffer is neither read nor written for it.
pub proof fn kernel_slots_are_refused(u: CallerMemory, a: int, n: int, i: int)
    requires
        a <= i < a + n,
        0 <= i <= u64::MAX,
        u.kernel@[p4_slot(i as u64)] != 0,
    ensures
        !u.readable(a, n),
        !u.writable(a, n),
{
    assert(u.byte(i) is None);
}

/// A string that was copied in holds no NUL.
proof fn string_nul_free(u: CallerMemory, a: int, budget: int)
    ensures
        u.string_at(a, budget) matches Ok(s) ==> nul_free(s),
    decreases budget,
{
    match u.byte(a) {
        Some(b) => {
            if budget > 0 && b != 0 {
                string_nul_free(u, a + 1, budget - 1);
            }
        },
        None => {},
    }
}

/// Nor does any string of a vector that was copied in.
proof fn vector_nul_free(u: CallerMemory, vec: int, k: int, budget: int)
    ensures
        u.vector_from(vec, k, budget) matches Ok(v) ==> all_nul_free(v),
    decreases MAX_EXEC_VECTOR - k,
{
    let slot = vec + 8 * k;
    if k < MAX_EXEC_VECTOR && u.readable(slot, 8) && le64(u.bytes(slot, 8), 0) != 0 {
        let at = le64(u.bytes(slot, 8), 0);
        string_nul_free(u, at, budget);
        match u.string_at(at, budget) {
            Ok(s) => {
                vector_nul_free(u, vec, k + 1, budget - s.len() - 1);
                match u.vector_from(vec, k + 1, budget - s.len() - 1) {
                    Ok(rest) => {
                        let v = seq![s] + rest;
                        assert forall|i: int| 0 <= i < v.len() implies nul_free(
                            #[trigger] v[i],
                        ) by {
                            if i > 0 {
                                assert(v[i] == rest[i - 1]);
                            }
                        }
                    },
                    Err(_) => {},
                }
            },
            Err(_) => {},
        }
    }
}

/// The vectors that a program hands to an exec are what the new program
/// finds as its arguments and environment.
pub proof fn exec_hands_its_vectors_over(
    u: CallerMemory,
    argv_at: int,
    argv_budget: int,
    envp_at: int,
    envp_budget: int,
    block: Block,
)
    requires
        u.vector(argv_at, argv_budget) == Ok::<Seq<Seq<u8>>, u64>(block.argv),
        u.vector(envp_at, envp_budget) == Ok::<Seq<Seq<u8>>, u64>(block.envp),
        block.size() <= MAX_START_ARGS_BYTES,
    ensures
        arrives(block),
{
    if argv_at != 0 {
        vector_nul_free(u, argv_at, 0, argv_budget);
    }
    if envp_at != 0 {
        vector_nul_free(u, envp_at, 0, envp_budget);
    }
    plain_arguments_arrive(block);
}

} // verus!
