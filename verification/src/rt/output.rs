//! Buffered output.
use crate::rt::text::{append, concat};
use vstd::prelude::*;

verus! {

/// Bytes that the buffer holds.
pub const BUFFER: usize = 256;

/// What comes of writing `bytes` behind `buffered` bytes: the full buffers
/// written out on the way, and what is buffered afterwards. A full buffer
/// is written out only when more is to come.
pub open spec fn fed(buffered: Seq<u8>, bytes: Seq<u8>) -> (Seq<Seq<u8>>, Seq<u8>)
    decreases bytes.len(),
{
    if bytes.len() == 0 {
        (Seq::empty(), buffered)
    } else {
        let full = buffered.len() >= BUFFER;
        let room = if full {
            Seq::empty()
        } else {
            buffered
        };
        let n = if bytes.len() <= BUFFER - room.len() {
            bytes.len() as int
        } else {
            BUFFER - room.len()
        };
        let rest = fed(room + bytes.take(n), bytes.skip(n));
        if full {
            (seq![buffered] + rest.0, rest.1)
        } else {
            rest
        }
    }
}

/// Nothing is lost, added or moved: the buffers written out and what is
/// still buffered make up what was buffered before and what was written,
/// and every buffer written out is full.
pub proof fn output_is_complete(buffered: Seq<u8>, bytes: Seq<u8>)
    requires
        buffered.len() <= BUFFER,
    ensures
        ({
            let (out, left) = fed(buffered, bytes);
            &&& concat(out) + left == buffered + bytes
            &&& left.len() <= BUFFER
            &&& forall|i: int| 0 <= i < out.len() ==> (#[trigger] out[i]).len() == BUFFER
        }),
    decreases bytes.len(),
{
    if bytes.len() == 0 {
        assert(concat(Seq::<Seq<u8>>::empty()) + buffered =~= buffered + bytes);
    } else {
        let full = buffered.len() >= BUFFER;
        let room = if full {
            Seq::empty()
        } else {
            buffered
        };
        let n = if bytes.len() <= BUFFER - room.len() {
            bytes.len() as int
        } else {
            BUFFER - room.len()
        };
        let next = room + bytes.take(n);
        let rest = fed(next, bytes.skip(n));
        output_is_complete(next, bytes.skip(n));
        assert(room + bytes =~= next + bytes.skip(n));
        if full {
            concat_front(buffered, rest.0);
            assert(concat(seq![buffered] + rest.0) + rest.1 =~= buffered + (concat(rest.0)
                + rest.1));
            assert(room + bytes =~= bytes);
            let out = seq![buffered] + rest.0;
            assert forall|i: int| 0 <= i < out.len() implies (#[trigger] out[i]).len() == BUFFER by {
                if i > 0 {
                    assert(out[i] == rest.0[i - 1]);
                }
            }
        }
    }
}

/// The first of several strings comes first.
proof fn concat_front(first: Seq<u8>, rest: Seq<Seq<u8>>)
    ensures
        concat(seq![first] + rest) == first + concat(rest),
    decreases rest.len(),
{
    let all = seq![first] + rest;
    if rest.len() == 0 {
        assert(all.drop_last() =~= Seq::<Seq<u8>>::empty());
        assert(concat(all.drop_last()) =~= Seq::<u8>::empty());
        assert(concat(all) =~= first + concat(rest));
    } else {
        concat_front(first, rest.drop_last());
        assert(all.drop_last() =~= seq![first] + rest.drop_last());
        assert(concat(all) =~= first + concat(rest));
    }
}

/// Byte strings as sequences.
pub open spec fn strings(v: Seq<Vec<u8>>) -> Seq<Seq<u8>> {
    Seq::new(v.len(), |i: int| v[i]@)
}

/// Output that is collected up to one system call's worth.
pub struct Console {
    buf: Vec<u8>,
}

impl View for Console {
    type V = Seq<u8>;

    closed spec fn view(&self) -> Seq<u8> {
        self.buf@
    }
}

impl Console {
    pub open spec fn wf(&self) -> bool {
        self@.len() <= BUFFER
    }

    /// Nothing collected yet.
    pub fn new() -> (c: Console)
        ensures
            c.wf(),
            c@ == Seq::<u8>::empty(),
    {
        Console { buf: Vec::new() }
    }

    /// What is to be written out, if anything is. Nothing is collected
    /// afterwards.
    pub fn flush(&mut self) -> (out: Option<Vec<u8>>)
        requires
            old(self).wf(),
        ensures
            final(self).wf(),
            final(self)@ == Seq::<u8>::empty(),
            match out {
                Some(v) => v@ == old(self)@ && v@.len() > 0,
                None => old(self)@.len() == 0,
            },
    {
        if self.buf.len() > 0 {
            let mut out: Vec<u8> = Vec::new();
            out.append(&mut self.buf);
            assert(out@ =~= old(self)@);
            Some(out)
        } else {
            None
        }
    }

    /// Collect `bytes`. Returns the buffers that are to be written out on
    /// the way.
    pub fn write_bytes(&mut self, bytes: &[u8]) -> (out: Vec<Vec<u8>>)
        requires
            old(self).wf(),
        ensures
            final(self).wf(),
            (strings(out@), final(self)@) == fed(old(self)@, bytes@),
    {
        let ghost start = self@;
        let mut out: Vec<Vec<u8>> = Vec::new();
        let mut i: usize = 0;
        assert(bytes@.skip(0) =~= bytes@);
        assert(strings(out@) + fed(self@, bytes@.skip(0)).0 =~= fed(start, bytes@).0);
        while i < bytes.len()
            invariant
                self.wf(),
                i <= bytes@.len(),
                strings(out@) + fed(self@, bytes@.skip(i as int)).0 == fed(start, bytes@).0,
                fed(self@, bytes@.skip(i as int)).1 == fed(start, bytes@).1,
            decreases bytes@.len() - i,
        {
            let ghost before = self@;
            let ghost written = strings(out@);
            let ghost rest = bytes@.skip(i as int);
            if self.buf.len() == BUFFER {
                let full = self.flush();
                out.push(full.unwrap());
                assert(strings(out@) =~= written.push(before));
            }
            let ghost room = self@;
            let left: usize = bytes.len() - i;
            let n: usize = if left <= BUFFER - self.buf.len() {
                left
            } else {
                BUFFER - self.buf.len()
            };
            append(&mut self.buf, bytes, i, i + n);
            proof {
                assert(rest.take(n as int) =~= bytes@.subrange(i as int, i + n));
                assert(rest.skip(n as int) =~= bytes@.skip(i + n));
                let tail = fed(self@, bytes@.skip(i + n));
                if before.len() == BUFFER {
                    assert(written + (seq![before] + tail.0) =~= strings(out@) + tail.0);
                }
            }
            i += n;
        }
        assert(bytes@.skip(i as int) =~= Seq::<u8>::empty());
        assert(strings(out@) =~= fed(start, bytes@).0);
        out
    }
}

impl Default for Console {
    fn default() -> (c: Console)
        ensures
            c.wf(),
            c@ == Seq::<u8>::empty(),
    {
        Console::new()
    }
}

} // verus!
