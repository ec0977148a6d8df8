//! Numbers as bytes, lowest byte first.
use vstd::prelude::*;

verus! {

/// The little-endian number in the two bytes of `s` at `at`.
pub open spec fn le16(s: Seq<u8>, at: int) -> int {
    s[at] + 0x100 * s[at + 1]
}

/// The little-endian number in the four bytes of `s` at `at`.
pub open spec fn le32(s: Seq<u8>, at: int) -> int {
    le16(s, at) + 0x1_0000 * le16(s, at + 2)
}

/// The little-endian number in the eight bytes of `s` at `at`.
pub open spec fn le64(s: Seq<u8>, at: int) -> int {
    le32(s, at) + 0x1_0000_0000 * le32(s, at + 4)
}

/// The little-endian number in two bytes.
pub fn read16(s: &[u8], at: usize) -> (r: u16)
    requires
        at + 2 <= s@.len(),
    ensures
        r == le16(s@, at as int),
{
    s[at] as u16 + 0x100 * s[at + 1] as u16
}

/// The little-endian number in four bytes.
pub fn read32(s: &[u8], at: usize) -> (r: u32)
    requires
        at + 4 <= s@.len(),
    ensures
        r == le32(s@, at as int),
{
    let _len: usize = s.len();
    read16(s, at) as u32 + 0x1_0000 * read16(s, at + 2) as u32
}

/// The little-endian number in eight bytes.
pub fn read64(s: &[u8], at: usize) -> (r: u64)
    requires
        at + 8 <= s@.len(),
    ensures
        r == le64(s@, at as int),
{
    let _len: usize = s.len();
    read32(s, at) as u64 + 0x1_0000_0000 * read32(s, at + 4) as u64
}

/// The bytes of a word, lowest first.
pub open spec fn word_bytes(w: u64) -> Seq<u8> {
    seq![
        (w % 0x100) as u8,
        (w / 0x100 % 0x100) as u8,
        (w / 0x1_0000 % 0x100) as u8,
        (w / 0x100_0000 % 0x100) as u8,
        (w / 0x1_0000_0000 % 0x100) as u8,
        (w / 0x100_0000_0000 % 0x100) as u8,
        (w / 0x1_0000_0000_0000 % 0x100) as u8,
        (w / 0x100_0000_0000_0000 % 0x100) as u8,
    ]
}

/// `n` zero bytes.
pub open spec fn zeros(n: int) -> Seq<u8> {
    Seq::new(n as nat, |i: int| 0u8)
}

/// `s` with the bytes from `at` on replaced by `b`.
pub open spec fn overwrite(s: Seq<u8>, at: int, b: Seq<u8>) -> Seq<u8> {
    Seq::new(
        s.len(),
        |i: int|
            if at <= i < at + b.len() {
                b[i - at]
            } else {
                s[i]
            },
    )
}

/// Append one word.
pub fn put_word(page: &mut Vec<u8>, w: u64)
    ensures
        final(page)@ == old(page)@ + word_bytes(w),
{
    page.push((w % 0x100) as u8);
    page.push((w / 0x100 % 0x100) as u8);
    page.push((w / 0x1_0000 % 0x100) as u8);
    page.push((w / 0x100_0000 % 0x100) as u8);
    page.push((w / 0x1_0000_0000 % 0x100) as u8);
    page.push((w / 0x100_0000_0000 % 0x100) as u8);
    page.push((w / 0x1_0000_0000_0000 % 0x100) as u8);
    page.push((w / 0x100_0000_0000_0000 % 0x100) as u8);
    assert(page@ =~= old(page)@ + word_bytes(w));
}

/// Replace the eight bytes of `s` at `at` by those of `w`.
pub fn write64(s: &mut [u8], at: usize, w: u64)
    requires
        at + 8 <= old(s)@.len(),
    ensures
        final(s)@ == overwrite(old(s)@, at as int, word_bytes(w)),
{
    let _len: usize = s.len();
    s[at] = (w % 0x100) as u8;
    s[at + 1] = (w / 0x100 % 0x100) as u8;
    s[at + 2] = (w / 0x1_0000 % 0x100) as u8;
    s[at + 3] = (w / 0x100_0000 % 0x100) as u8;
    s[at + 4] = (w / 0x1_0000_0000 % 0x100) as u8;
    s[at + 5] = (w / 0x100_0000_0000 % 0x100) as u8;
    s[at + 6] = (w / 0x1_0000_0000_0000 % 0x100) as u8;
    s[at + 7] = (w / 0x100_0000_0000_0000 % 0x100) as u8;
    assert(s@ =~= overwrite(old(s)@, at as int, word_bytes(w)));
}

/// A number is made of its digits to the base of 256.
proof fn word_digits(w: u64)
    ensures
        w == (w % 0x100) + 0x100 * (w / 0x100 % 0x100) + 0x1_0000 * (w / 0x1_0000 % 0x100)
            + 0x100_0000 * (w / 0x100_0000 % 0x100) + 0x1_0000_0000 * (w / 0x1_0000_0000 % 0x100)
            + 0x100_0000_0000 * (w / 0x100_0000_0000 % 0x100) + 0x1_0000_0000_0000 * (w
            / 0x1_0000_0000_0000 % 0x100) + 0x100_0000_0000_0000 * (w / 0x100_0000_0000_0000
            % 0x100),
{
    assert(w == (w % 0x100) + 0x100 * (w / 0x100));
    assert(w / 0x100 == (w / 0x100 % 0x100) + 0x100 * (w / 0x1_0000));
    assert(w / 0x1_0000 == (w / 0x1_0000 % 0x100) + 0x100 * (w / 0x100_0000));
    assert(w / 0x100_0000 == (w / 0x100_0000 % 0x100) + 0x100 * (w / 0x1_0000_0000));
    assert(w / 0x1_0000_0000 == (w / 0x1_0000_0000 % 0x100) + 0x100 * (w / 0x100_0000_0000));
    assert(w / 0x100_0000_0000 == (w / 0x100_0000_0000 % 0x100) + 0x100 * (w
        / 0x1_0000_0000_0000));
    assert(w / 0x1_0000_0000_0000 == (w / 0x1_0000_0000_0000 % 0x100) + 0x100 * (w
        / 0x100_0000_0000_0000));
    assert(w / 0x100_0000_0000_0000 < 0x100);
}

/// A word written down reads back as itself.
pub proof fn word_round_trip(w: u64, before: Seq<u8>, after: Seq<u8>)
    ensures
        le64(before + word_bytes(w) + after, before.len() as int) == w,
{
    let s = before + word_bytes(w) + after;
    let at = before.len() as int;
    word_digits(w);
    assert(s[at] == word_bytes(w)[0]);
    assert(s[at + 1] == word_bytes(w)[1]);
    assert(s[at + 2] == word_bytes(w)[2]);
    assert(s[at + 3] == word_bytes(w)[3]);
    assert(s[at + 4] == word_bytes(w)[4]);
    assert(s[at + 5] == word_bytes(w)[5]);
    assert(s[at + 6] == word_bytes(w)[6]);
    assert(s[at + 7] == word_bytes(w)[7]);
}

/// A word written into memory reads back as itself.
pub proof fn stored_word(s: Seq<u8>, at: int, w: u64)
    requires
        0 <= at,
        at + 8 <= s.len(),
    ensures
        le64(overwrite(s, at, word_bytes(w)), at) == w,
{
    word_round_trip(w, s.take(at), s.skip(at + 8));
    assert(s.take(at) + word_bytes(w) + s.skip(at + 8) =~= overwrite(s, at, word_bytes(w)));
}

/// Two memories that agree on eight bytes hold the same word there.
pub proof fn same_word(s: Seq<u8>, t: Seq<u8>, at: int)
    requires
        forall|i: int| at <= i < at + 8 ==> #[trigger] s[i] == t[i],
    ensures
        le64(s, at) == le64(t, at),
{
}

/// A word is a word.
pub proof fn word_range(s: Seq<u8>, at: int)
    ensures
        0 <= le64(s, at) <= u64::MAX,
{
}

} // verus!
