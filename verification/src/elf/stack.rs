//! The block that a new program finds on its stack: argument count,
//! argument and environment pointers, and the strings they point at.
use vstd::prelude::*;

use crate::bytes::{le64, put_word, word_bytes, word_round_trip, zeros};
use crate::elf::check::STACK_ADDR;
use crate::memory::map::PAGE_SIZE;

verus! {

/// Most of the stack page that the block may take.
pub const MAX_START_ARGS_BYTES: usize = 2048;

/// Arguments and environment of a program. Each string stands without its
/// terminating NUL.
#[derive(Clone, Copy)]
pub struct StartArgs<'a> {
    pub argv: &'a [&'a [u8]],
    pub envp: &'a [&'a [u8]],
}

/// Strings as sequences.
pub open spec fn strings_view(strings: Seq<&[u8]>) -> Seq<Seq<u8>> {
    Seq::new(strings.len(), |i: int| strings[i]@)
}

/// The strings one after another, each with a NUL behind it.
pub open spec fn joined(strings: Seq<Seq<u8>>) -> Seq<u8>
    decreases strings.len(),
{
    if strings.len() == 0 {
        Seq::empty()
    } else {
        joined(strings.drop_last()) + strings.last().push(0)
    }
}

/// Words as they lie in memory.
pub open spec fn words_bytes(words: Seq<u64>) -> Seq<u8>
    decreases words.len(),
{
    if words.len() == 0 {
        Seq::empty()
    } else {
        words_bytes(words.drop_last()) + word_bytes(words.last())
    }
}

/// What the stack page of a program with arguments `argv` and environment
/// `envp` looks like.
pub struct Block {
    pub argv: Seq<Seq<u8>>,
    pub envp: Seq<Seq<u8>>,
}

impl Block {
    /// All strings, arguments first.
    pub open spec fn strings(self) -> Seq<Seq<u8>> {
        self.argv + self.envp
    }

    /// Where in the page the strings start.
    pub open spec fn strings_start(self) -> int {
        PAGE_SIZE - joined(self.strings()).len()
    }

    /// How many words there are before the strings.
    pub open spec fn word_count(self) -> int {
        self.argv.len() as int + self.envp.len() + 5
    }

    /// Bytes the block takes, without padding.
    pub open spec fn size(self) -> int {
        joined(self.strings()).len() + 8 * self.word_count()
    }

    /// Where in the page the block starts: a multiple of sixteen.
    pub open spec fn start(self) -> int {
        let raw = self.strings_start() - 8 * self.word_count();
        raw - raw % 16
    }

    /// Where in the page string `k` starts.
    pub open spec fn string_at(self, k: int) -> int {
        self.strings_start() + joined(self.strings().take(k)).len()
    }

    /// The address of string `k`.
    pub open spec fn pointer(self, k: int) -> u64 {
        (STACK_ADDR + self.string_at(k)) as u64
    }

    /// The words: count, argument pointers, zero, environment pointers,
    /// zero, and an empty auxiliary vector.
    pub open spec fn word(self, i: int) -> u64 {
        if i == 0 {
            self.argv.len() as u64
        } else if i <= self.argv.len() {
            self.pointer(i - 1)
        } else if self.argv.len() + 2 <= i < self.argv.len() + 2 + self.envp.len() {
            self.pointer(i - 2)
        } else {
            0
        }
    }

    /// All words.
    pub open spec fn words(self) -> Seq<u64> {
        Seq::new(self.word_count() as nat, |i: int| self.word(i))
    }

    /// The stack page.
    pub open spec fn page(self) -> Seq<u8> {
        zeros(self.start()) + words_bytes(self.words()) + zeros(
            self.strings_start() - self.start() - 8 * self.word_count(),
        ) + joined(self.strings())
    }
}

impl<'a> StartArgs<'a> {
    /// The block these arguments make.
    pub open spec fn block(self) -> Block {
        Block { argv: strings_view(self.argv@), envp: strings_view(self.envp@) }
    }

    /// Bytes the block takes at the top of the stack page, without padding;
    /// `None` if that is more than can be counted.
    pub fn block_size(&self) -> (r: Option<usize>)
        ensures
            r == (if self.block().size() <= usize::MAX {
                Some(self.block().size() as usize)
            } else {
                None
            }),
    {
        let ghost b = self.block();
        let ghost all = b.strings();
        let argc: usize = self.argv.len();
        let envc: usize = self.envp.len();
        let mut bytes: usize = 0;
        let mut k: usize = 0;
        assert(all.take(0) =~= Seq::empty());
        proof {
            joined_grows(all, all.len() as int);
        }
        while k < argc
            invariant
                k <= argc,
                argc == self.argv@.len(),
                b == self.block(),
                all == b.strings(),
                bytes == joined(all.take(k as int)).len(),
            decreases argc - k,
        {
            assert(all[k as int] == self.argv@[k as int]@);
            proof {
                joined_step(all, k as int);
                joined_grows(all, k + 1);
            }
            bytes = match add_string(bytes, self.argv[k]) {
                Some(n) => n,
                None => {
                    return None;
                },
            };
            k = k + 1;
        }
        let mut e: usize = 0;
        while e < envc
            invariant
                e <= envc,
                argc == self.argv@.len(),
                envc == self.envp@.len(),
                b == self.block(),
                all == b.strings(),
                bytes == joined(all.take(argc + e)).len(),
            decreases envc - e,
        {
            assert(all[argc + e] == self.envp@[e as int]@);
            proof {
                joined_step(all, argc + e);
                joined_grows(all, argc + e + 1);
            }
            bytes = match add_string(bytes, self.envp[e]) {
                Some(n) => n,
                None => {
                    return None;
                },
            };
            e = e + 1;
        }
        assert(all.take(argc + envc) =~= all);
        match argc.checked_add(envc) {
            Some(n) => match n.checked_add(5) {
                Some(words) => match words.checked_mul(8) {
                    Some(word_bytes) => bytes.checked_add(word_bytes),
                    None => None,
                },
                None => None,
            },
            None => None,
        }
    }
}

/// `bytes` and the bytes of one more string with its NUL.
fn add_string(bytes: usize, s: &[u8]) -> (r: Option<usize>)
    ensures
        r == (if bytes + s@.len() + 1 <= usize::MAX {
            Some((bytes + s@.len() + 1) as usize)
        } else {
            None
        }),
{
    match bytes.checked_add(s.len()) {
        Some(n) => n.checked_add(1),
        None => None,
    }
}

/// One more string.
proof fn joined_step(strings: Seq<Seq<u8>>, k: int)
    requires
        0 <= k < strings.len(),
    ensures
        joined(strings.take(k + 1)) == joined(strings.take(k)) + strings[k].push(0),
{
    assert(strings.take(k + 1).drop_last() =~= strings.take(k));
}

/// The first `k` strings take no more bytes than all of them.
proof fn joined_grows(strings: Seq<Seq<u8>>, k: int)
    requires
        0 <= k <= strings.len(),
    ensures
        joined(strings.take(k)).len() <= joined(strings).len(),
        joined(strings.take(k)).len() >= k,
    decreases strings.len(),
{
    if k == strings.len() {
        assert(strings.take(k) =~= strings);
        if k > 0 {
            joined_grows(strings.drop_last(), k - 1);
            assert(strings.drop_last().take(k - 1) =~= strings.drop_last());
        }
    } else {
        joined_grows(strings.drop_last(), k);
        assert(strings.drop_last().take(k) =~= strings.take(k));
    }
}

/// Append zero bytes up to length `end`.
fn put_zeros(page: &mut Vec<u8>, end: usize)
    requires
        old(page)@.len() <= end,
    ensures
        final(page)@ == old(page)@ + zeros(end - old(page)@.len()),
{
    let ghost before = page@;
    while page.len() < end
        invariant
            before.len() <= page@.len() <= end,
            page@ == before + zeros(page@.len() - before.len()),
        decreases end - page@.len(),
    {
        let ghost now = page@;
        page.push(0);
        assert(page@ =~= before + zeros(page@.len() - before.len()));
    }
}

/// Append a string and a NUL.
fn put_string(page: &mut Vec<u8>, s: &[u8])
    requires
        old(page)@.len() + s@.len() < usize::MAX,
    ensures
        final(page)@ == old(page)@ + s@.push(0),
{
    let ghost before = page@;
    let mut k: usize = 0;
    while k < s.len()
        invariant
            k <= s@.len(),
            page@ == before + s@.take(k as int),
        decreases s@.len() - k,
    {
        page.push(s[k]);
        k = k + 1;
        assert(page@ =~= before + s@.take(k as int));
    }
    page.push(0);
    assert(page@ =~= before + s@.push(0));
}

/// Length of words in memory.
proof fn words_len(words: Seq<u64>)
    ensures
        words_bytes(words).len() == 8 * words.len(),
    decreases words.len(),
{
    if words.len() > 0 {
        words_len(words.drop_last());
    }
}

/// Word `i` of several in memory reads back as itself.
pub proof fn words_round_trip(words: Seq<u64>, i: int, before: Seq<u8>, after: Seq<u8>)
    requires
        0 <= i < words.len(),
    ensures
        le64(before + words_bytes(words) + after, before.len() + 8 * i) == words[i],
    decreases words.len(),
{
    let init = words.drop_last();
    let last = word_bytes(words.last());
    words_len(words);
    words_len(init);
    if i == words.len() - 1 {
        word_round_trip(words.last(), before + words_bytes(init), after);
        assert(before + words_bytes(init) + last + after =~= before + words_bytes(words) + after);
    } else {
        words_round_trip(init, i, before, last + after);
        assert(before + words_bytes(init) + (last + after) =~= before + words_bytes(words) + after);
    }
}

/// Append the words of a block whose strings start at `strings_start`.
fn put_words(page: &mut Vec<u8>, args: &StartArgs, strings_start: usize)
    requires
        args.block().size() <= MAX_START_ARGS_BYTES,
        strings_start == args.block().strings_start(),
    ensures
        final(page)@ == old(page)@ + words_bytes(args.block().words()),
{
    let ghost b = args.block();
    let ghost all = b.strings();
    let ghost head = page@;
    let ghost w = b.words();
    let argc: usize = args.argv.len();
    let envc: usize = args.envp.len();
    proof {
        words_step(w, 0);
        assert(w.take(0) =~= Seq::empty());
        assert(all.take(0) =~= Seq::empty());
    }
    put_word(page, argc as u64);
    assert(page@ =~= head + words_bytes(w.take(1)));
    let mut at: usize = strings_start;
    let mut k: usize = 0;
    while k < argc
        invariant
            k <= argc,
            argc == args.argv@.len(),
            b == args.block(),
            all == b.strings(),
            w == b.words(),
            joined(all).len() + strings_start == PAGE_SIZE,
            page@ == head + words_bytes(w.take(1 + k)),
            at == strings_start + joined(all.take(k as int)).len(),
            at <= PAGE_SIZE,
        decreases argc - k,
    {
        assert(all[k as int] == args.argv@[k as int]@);
        proof {
            joined_step(all, k as int);
            joined_grows(all, k + 1);
            words_step(w, 1 + k);
            assert(w[1 + k] == b.pointer(k as int));
        }
        put_word(page, STACK_ADDR + at as u64);
        assert(page@ =~= head + words_bytes(w.take(2 + k)));
        at = at + args.argv[k].len() + 1;
        k = k + 1;
    }
    proof {
        words_step(w, 1 + argc);
    }
    put_word(page, 0);
    assert(page@ =~= head + words_bytes(w.take(2 + argc)));
    let mut e: usize = 0;
    while e < envc
        invariant
            e <= envc,
            argc == args.argv@.len(),
            envc == args.envp@.len(),
            b == args.block(),
            all == b.strings(),
            w == b.words(),
            joined(all).len() + strings_start == PAGE_SIZE,
            page@ == head + words_bytes(w.take(2 + argc + e)),
            at == strings_start + joined(all.take(argc + e)).len(),
            at <= PAGE_SIZE,
        decreases envc - e,
    {
        assert(all[argc + e] == args.envp@[e as int]@);
        proof {
            joined_step(all, argc + e);
            joined_grows(all, argc + e + 1);
            words_step(w, 2 + argc + e);
            assert(w[2 + argc + e] == b.pointer(argc + e));
        }
        put_word(page, STACK_ADDR + at as u64);
        assert(page@ =~= head + words_bytes(w.take(3 + argc + e)));
        at = at + args.envp[e].len() + 1;
        e = e + 1;
    }
    proof {
        words_step(w, 2 + argc + envc);
        words_step(w, 3 + argc + envc);
        words_step(w, 4 + argc + envc);
        assert(w.take(5 + argc + envc) =~= w);
    }
    put_word(page, 0);
    put_word(page, 0);
    put_word(page, 0);
    assert(page@ =~= head + words_bytes(w));
}

/// Append all strings, each with a NUL.
fn put_strings(page: &mut Vec<u8>, args: &StartArgs)
    requires
        old(page)@.len() + joined(args.block().strings()).len() <= PAGE_SIZE,
    ensures
        final(page)@ == old(page)@ + joined(args.block().strings()),
{
    let ghost front = page@;
    let ghost all = args.block().strings();
    let argc: usize = args.argv.len();
    let envc: usize = args.envp.len();
    assert(all.take(0) =~= Seq::empty());
    assert(page@ =~= front + joined(all.take(0)));
    let mut i: usize = 0;
    while i < argc
        invariant
            i <= argc,
            argc == args.argv@.len(),
            all == args.block().strings(),
            front.len() + joined(all).len() <= PAGE_SIZE,
            page@ == front + joined(all.take(i as int)),
        decreases argc - i,
    {
        assert(all[i as int] == args.argv@[i as int]@);
        proof {
            joined_step(all, i as int);
            joined_grows(all, i + 1);
        }
        put_string(page, args.argv[i]);
        i = i + 1;
        assert(page@ =~= front + joined(all.take(i as int)));
    }
    let mut j: usize = 0;
    while j < envc
        invariant
            j <= envc,
            argc == args.argv@.len(),
            envc == args.envp@.len(),
            all == args.block().strings(),
            front.len() + joined(all).len() <= PAGE_SIZE,
            page@ == front + joined(all.take(argc + j)),
        decreases envc - j,
    {
        assert(all[argc + j] == args.envp@[j as int]@);
        proof {
            joined_step(all, argc + j);
            joined_grows(all, argc + j + 1);
        }
        put_string(page, args.envp[j]);
        j = j + 1;
        assert(page@ =~= front + joined(all.take(argc + j)));
    }
    assert(all.take(argc + envc) =~= all);
}

/// The stack page for `args`, and the stack pointer its program starts with:
/// the address of the argument count.
pub fn write_initial_stack(args: &StartArgs) -> (r: (Vec<u8>, u64))
    requires
        args.block().size() <= MAX_START_ARGS_BYTES,
    ensures
        r.0@ == args.block().page(),
        r.0@.len() == PAGE_SIZE,
        r.1 == STACK_ADDR + args.block().start(),
        r.1 % 16 == 0,
{
    let ghost b = args.block();
    let size: usize = args.block_size().unwrap();
    let words: usize = args.argv.len() + args.envp.len() + 5;
    let bytes: usize = size - 8 * words;
    let strings_start: usize = PAGE_SIZE as usize - bytes;
    let raw: usize = strings_start - 8 * words;
    let start: usize = raw - raw % 16;
    let mut page: Vec<u8> = Vec::new();
    put_zeros(&mut page, start);
    assert(page@ =~= zeros(b.start()));
    put_words(&mut page, args, strings_start);
    proof {
        words_len(b.words());
    }
    put_zeros(&mut page, strings_start);
    put_strings(&mut page, args);
    assert(page@ =~= b.page());
    (page, STACK_ADDR + start as u64)
}

/// One more word.
proof fn words_step(words: Seq<u64>, k: int)
    requires
        0 <= k < words.len(),
    ensures
        words_bytes(words.take(k + 1)) == words_bytes(words.take(k)) + word_bytes(words[k]),
{
    assert(words.take(k + 1).drop_last() =~= words.take(k));
}

impl Block {
    /// Every word of a block is found at its place in the page.
    pub proof fn words_in_page(self, i: int)
        requires
            self.size() <= MAX_START_ARGS_BYTES,
            0 <= i < self.word_count(),
        ensures
            le64(self.page(), self.start() + 8 * i) == self.word(i),
            self.page().len() == PAGE_SIZE,
    {
        words_len(self.words());
        words_round_trip(
            self.words(),
            i,
            zeros(self.start()),
            zeros(self.strings_start() - self.start() - 8 * self.word_count()) + joined(
                self.strings(),
            ),
        );
        assert(zeros(self.start()) + words_bytes(self.words()) + (zeros(
            self.strings_start() - self.start() - 8 * self.word_count(),
        ) + joined(self.strings())) =~= self.page());
    }

    /// Every string of a block is found at its place in the page, with its
    /// NUL behind it.
    pub proof fn strings_in_page(self, k: int)
        requires
            self.size() <= MAX_START_ARGS_BYTES,
            0 <= k < self.strings().len(),
        ensures
            0 < self.string_at(k),
            self.string_at(k) + self.strings()[k].len() < PAGE_SIZE,
            self.page().subrange(
                self.string_at(k),
                self.string_at(k) + self.strings()[k].len(),
            ) == self.strings()[k],
            self.page()[self.string_at(k) + self.strings()[k].len()] == 0,
    {
        let all = self.strings();
        words_len(self.words());
        joined_step(all, k);
        joined_prefix(all, k + 1);
        joined_grows(all, k + 1);
        let p = self.page();
        let a = self.string_at(k);
        let n = all[k].len();
        let off = joined(all.take(k)).len();
        assert forall|j: int| 0 <= j <= n implies #[trigger] p[a + j] == all[k].push(0)[j] by {
            assert(p[a + j] == joined(all)[off + j]);
            assert(joined(all).take(joined(all.take(k + 1)).len() as int)[off + j] == joined(
                all.take(k + 1),
            )[off + j]);
        }
        assert(p.subrange(a, a + n) =~= all[k]) by {
            assert forall|j: int| 0 <= j < n implies p.subrange(a, a + n)[j] == all[k][j] by {
                assert(p[a + j] == all[k].push(0)[j]);
            }
        }
        assert(p[a + n] == all[k].push(0)[n as int]);
    }
}

/// The first `k` strings come first.
proof fn joined_prefix(strings: Seq<Seq<u8>>, k: int)
    requires
        0 <= k <= strings.len(),
    ensures
        joined(strings).len() >= joined(strings.take(k)).len(),
        joined(strings).take(joined(strings.take(k)).len() as int) == joined(strings.take(k)),
    decreases strings.len(),
{
    if k == strings.len() {
        assert(strings.take(k) =~= strings);
        assert(joined(strings).take(joined(strings).len() as int) =~= joined(strings));
    } else {
        joined_prefix(strings.drop_last(), k);
        assert(strings.drop_last().take(k) =~= strings.take(k));
        let n = joined(strings.take(k)).len() as int;
        assert(joined(strings).take(n) =~= joined(strings.drop_last()).take(n));
    }
}

/// A block that may be loaded lies within the stack page, and starts at a
/// multiple of sixteen.
pub proof fn block_is_in_its_page(block: Block)
    requires
        block.size() <= MAX_START_ARGS_BYTES,
    ensures
        0 <= block.start() < PAGE_SIZE,
        block.start() % 16 == 0,
{
}

} // verus!
