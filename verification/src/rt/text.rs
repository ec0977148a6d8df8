//! Text made of bytes.
use vstd::prelude::*;
use vstd::slice::slice_subrange;
use vstd::utf8::valid_utf8;

verus! {

/// Several byte strings one after another.
pub open spec fn concat(parts: Seq<Seq<u8>>) -> Seq<u8>
    decreases parts.len(),
{
    if parts.len() == 0 {
        Seq::empty()
    } else {
        concat(parts.drop_last()) + parts.last()
    }
}

/// Append the bytes of `s` from `from` up to `to`.
pub fn append(out: &mut Vec<u8>, s: &[u8], from: usize, to: usize)
    requires
        from <= to <= s@.len(),
    ensures
        final(out)@ == old(out)@ + s@.subrange(from as int, to as int),
{
    let ghost before = out@;
    let mut i: usize = from;
    assert(out@ =~= before + s@.subrange(from as int, from as int));
    while i < to
        invariant
            from <= i <= to <= s@.len(),
            out@ == before + s@.subrange(from as int, i as int),
        decreases to - i,
    {
        out.push(s[i]);
        i += 1;
        assert(out@ =~= before + s@.subrange(from as int, i as int));
    }
}

/// Append all of `s`.
pub fn append_all(out: &mut Vec<u8>, s: &[u8])
    ensures
        final(out)@ == old(out)@ + s@,
{
    append(out, s, 0, s.len());
    assert(s@.subrange(0, s@.len() as int) =~= s@);
}

/// The decimal digits of `n`, without leading zeros.
pub open spec fn decimal(n: nat) -> Seq<u8>
    decreases n,
{
    if n < 10 {
        seq![(0x30 + n) as u8]
    } else {
        decimal(n / 10).push((0x30 + n % 10) as u8)
    }
}

/// The decimal digits of `n`.
pub fn decimal_digits(n: u64) -> (digits: Vec<u8>)
    ensures
        digits@ == decimal(n as nat),
        1 <= digits@.len(),
    decreases n,
{
    if n < 10 {
        let mut digits: Vec<u8> = Vec::new();
        digits.push(0x30 + n as u8);
        assert(digits@ =~= decimal(n as nat));
        digits
    } else {
        let mut digits = decimal_digits(n / 10);
        digits.push(0x30 + (n % 10) as u8);
        digits
    }
}

/// `n` in decimal, with a minus sign if it is negative.
pub open spec fn signed_decimal(n: int) -> Seq<u8> {
    if n < 0 {
        seq![0x2du8] + decimal((-n) as nat)
    } else {
        decimal(n as nat)
    }
}

/// Append `n` in decimal.
pub fn append_signed(out: &mut Vec<u8>, n: i32)
    ensures
        final(out)@ == old(out)@ + signed_decimal(n as int),
{
    let wide: i64 = n as i64;
    if wide < 0 {
        out.push(0x2d);
        let digits = decimal_digits((-wide) as u64);
        append_all(out, digits.as_slice());
    } else {
        let digits = decimal_digits(wide as u64);
        append_all(out, digits.as_slice());
    }
    assert(out@ =~= old(out)@ + signed_decimal(n as int));
}

/// `s` with spaces before it to make it at least `width` long.
pub open spec fn right_aligned(s: Seq<u8>, width: int) -> Seq<u8> {
    Seq::new(
        (if s.len() < width {
            width - s.len()
        } else {
            0
        }) as nat,
        |i: int| 0x20u8,
    ) + s
}

/// Append `s`, right-aligned in `width` columns.
pub fn append_right_aligned(out: &mut Vec<u8>, s: &[u8], width: usize)
    ensures
        final(out)@ == old(out)@ + right_aligned(s@, width as int),
{
    let ghost before = out@;
    let mut i: usize = s.len();
    assert(out@ =~= before + Seq::new(0, |k: int| 0x20u8));
    while i < width
        invariant
            s@.len() <= i,
            s@.len() < width ==> i <= width,
            s@.len() >= width ==> i == s@.len(),
            out@ == before + Seq::new((i - s@.len()) as nat, |k: int| 0x20u8),
        decreases width - i,
    {
        out.push(0x20);
        i += 1;
        assert(out@ =~= before + Seq::new((i - s@.len()) as nat, |k: int| 0x20u8));
    }
    append_all(out, s);
    assert(out@ =~= before + right_aligned(s@, width as int));
}

/// How a byte string starts: the length of its first valid piece, and of the
/// invalid one behind it.
pub uninterp spec fn first_pieces(bytes: Seq<u8>) -> (nat, nat);

/// The first chunk that `<[u8]>::utf8_chunks` gives, by the lengths of its
/// two parts. The first part is valid UTF-8. The second holds at most three
/// bytes, and only the last chunk has none; valid UTF-8 is all one chunk.
/// Which invalid bytes are taken together is left open.
#[verifier::external_body]
fn first_chunk(bytes: &[u8]) -> (r: (usize, usize))
    requires
        bytes@.len() > 0,
    ensures
        (r.0 as nat, r.1 as nat) == first_pieces(bytes@),
        r.0 + r.1 <= bytes@.len(),
        r.1 <= 3,
        r.1 == 0 ==> r.0 == bytes@.len(),
        valid_utf8(bytes@.take(r.0 as int)),
        valid_utf8(bytes@) ==> r.0 == bytes@.len(),
{
    match bytes.utf8_chunks().next() {
        Some(chunk) => (chunk.valid().len(), chunk.invalid().len()),
        None => (0, 0),
    }
}

/// The text that stands for `bytes`: valid pieces as they are, and a `?` for
/// every invalid one.
pub open spec fn shown(bytes: Seq<u8>) -> Seq<u8>
    decreases bytes.len(),
{
    if bytes.len() == 0 {
        Seq::empty()
    } else {
        let (valid, invalid) = first_pieces(bytes);
        if invalid == 0 || valid + invalid > bytes.len() {
            bytes.take(valid as int)
        } else {
            bytes.take(valid as int).push(0x3f) + shown(bytes.skip((valid + invalid) as int))
        }
    }
}

/// A byte string that is shown as text.
#[derive(Clone, Copy)]
pub struct Bytes<'a>(pub &'a [u8]);

impl<'a> Bytes<'a> {
    /// The text that stands for the bytes. Bytes that are valid UTF-8 stand
    /// for themselves.
    pub fn text(&self) -> (out: Vec<u8>)
        ensures
            out@ == shown(self.0@),
            valid_utf8(self.0@) ==> out@ == self.0@,
    {
        let mut out: Vec<u8> = Vec::new();
        let mut i: usize = 0;
        let ghost all = self.0@;
        let ghost mut whole = false;
        assert(all.skip(0) =~= all);
        assert(out@ + shown(all.skip(0)) =~= shown(all));
        while i < self.0.len()
            invariant
                i <= all.len(),
                all == self.0@,
                out@ + shown(all.skip(i as int)) == shown(all),
                i == 0 ==> out@ == Seq::<u8>::empty(),
                valid_utf8(all) ==> i == 0 || whole,
                whole ==> i == all.len() && out@ == all,
            decreases all.len() - i,
        {
            let ghost before = out@;
            let ghost rest = all.skip(i as int);
            let piece = slice_subrange(self.0, i, self.0.len());
            assert(piece@ =~= rest);
            let (valid, invalid) = first_chunk(piece);
            append(&mut out, self.0, i, i + valid);
            assert(rest.take(valid as int) =~= all.subrange(i as int, i + valid));
            if invalid > 0 {
                out.push(0x3f);
            }
            proof {
                assert(rest.skip(valid + invalid) =~= all.skip(i + valid + invalid));
                if invalid == 0 {
                    assert(all.skip(i + valid + invalid) =~= Seq::<u8>::empty());
                    assert(out@ + Seq::<u8>::empty() =~= before + rest.take(valid as int));
                } else {
                    assert(out@ + shown(all.skip(i + valid + invalid)) =~= before + shown(rest));
                }
                if i == 0 {
                    assert(rest =~= all);
                    if valid == all.len() {
                        whole = true;
                        assert(out@ =~= all);
                    }
                }
            }
            i = i + valid + invalid;
        }
        assert(all.skip(i as int) =~= Seq::<u8>::empty());
        assert(out@ =~= shown(all));
        proof {
            if valid_utf8(all) && !whole {
                assert(all.len() == 0);
                assert(out@ =~= all);
            }
        }
        out
    }
}

} // verus!
