//! A program's arguments and environment, as the loader laid them out on its
//! stack.
use crate::bytes::{le64, read64};
use crate::elf::check::STACK_ADDR;
use crate::elf::stack::{Block, MAX_START_ARGS_BYTES};
use crate::fs::same_bytes;
use vstd::prelude::*;
use vstd::slice::slice_subrange;

verus! {

/// The place of the first NUL of `mem` at or after `i`.
pub open spec fn nul_from(mem: Seq<u8>, i: int) -> Option<int>
    decreases mem.len() - i,
{
    if i < 0 || i >= mem.len() {
        None
    } else if mem[i] == 0 {
        Some(i)
    } else {
        nul_from(mem, i + 1)
    }
}

/// Whether `s` holds no NUL.
pub open spec fn nul_free(s: Seq<u8>) -> bool {
    forall|j: int| 0 <= j < s.len() ==> #[trigger] s[j] != 0
}

/// Whether none of `strings` holds a NUL.
pub open spec fn all_nul_free(strings: Seq<Seq<u8>>) -> bool {
    forall|i: int| 0 <= i < strings.len() ==> nul_free(#[trigger] strings[i])
}

/// `s` up to its first NUL, or all of it.
pub open spec fn until_nul(s: Seq<u8>) -> Seq<u8> {
    match nul_from(s, 0) {
        Some(n) => s.take(n),
        None => s,
    }
}

/// Where the first NUL is found.
pub proof fn nul_bounds(mem: Seq<u8>, i: int)
    requires
        nul_from(mem, i) is Some,
    ensures
        0 <= i <= nul_from(mem, i)->0 < mem.len(),
        mem[nul_from(mem, i)->0] == 0,
        forall|j: int| i <= j < nul_from(mem, i)->0 ==> mem[j] != 0,
    decreases mem.len() - i,
{
    if mem[i] != 0 {
        nul_bounds(mem, i + 1);
    }
}

/// The first NUL is where a NUL is and none before it.
pub proof fn nul_at(mem: Seq<u8>, i: int, n: int)
    requires
        0 <= i <= n < mem.len(),
        mem[n] == 0,
        forall|j: int| i <= j < n ==> mem[j] != 0,
    ensures
        nul_from(mem, i) == Some(n),
    decreases n - i,
{
    if i < n {
        nul_at(mem, i + 1, n);
    }
}

/// No NUL, none found.
pub proof fn no_nul(mem: Seq<u8>, i: int)
    requires
        0 <= i,
        forall|j: int| i <= j < mem.len() ==> mem[j] != 0,
    ensures
        nul_from(mem, i) is None,
    decreases mem.len() - i,
{
    if i < mem.len() {
        no_nul(mem, i + 1);
    }
}

/// A block of arguments in memory that starts at address `base`: how many
/// arguments there are, and where the two lists of pointers start.
pub struct ArgsModel {
    pub mem: Seq<u8>,
    pub base: int,
    pub argc: int,
    pub argv: int,
    pub envp: int,
}

impl ArgsModel {
    /// The block that a program finds at its first stack pointer.
    pub open spec fn at(mem: Seq<u8>, base: int, sp: int) -> ArgsModel {
        let argc = le64(mem, sp - base);
        ArgsModel { mem, base, argc, argv: sp + 8, envp: sp + 8 + 8 * (argc + 1) }
    }

    /// The word at address `a`.
    pub open spec fn word(self, a: int) -> int {
        le64(self.mem, a - self.base)
    }

    /// Whether the word at `a` lies in the memory.
    pub open spec fn has_word(self, a: int) -> bool {
        self.base <= a && a + 8 <= self.base + self.mem.len()
    }

    /// Whether a string with its NUL starts at `p`.
    pub open spec fn has_string(self, p: int) -> bool {
        self.base <= p && nul_from(self.mem, p - self.base) is Some
    }

    /// The string at `p`, without its NUL.
    pub open spec fn text(self, p: int) -> Seq<u8> {
        self.mem.subrange(p - self.base, nul_from(self.mem, p - self.base)->0)
    }

    /// How many pointers there are from `a` on before a zero.
    pub open spec fn pointers_from(self, a: int) -> Option<nat>
        decreases self.base + self.mem.len() - a,
    {
        if !self.has_word(a) {
            None
        } else if self.word(a) == 0 {
            Some(0)
        } else {
            match self.pointers_from(a + 8) {
                Some(n) => Some(n + 1),
                None => None,
            }
        }
    }

    /// How many environment strings there are.
    pub open spec fn envc(self) -> nat {
        self.pointers_from(self.envp)->0
    }

    /// The lists lie in the memory, and every pointer of theirs leads to a
    /// string.
    pub open spec fn wf(self) -> bool {
        &&& 0 <= self.base
        &&& self.base + self.mem.len() <= u64::MAX
        &&& 0 <= self.argc
        &&& self.base <= self.argv
        &&& self.envp == self.argv + 8 * (self.argc + 1)
        &&& self.envp <= self.base + self.mem.len()
        &&& forall|i: int|
            0 <= i < self.argc ==> self.has_string(#[trigger] self.word(self.argv + 8 * i))
        &&& self.pointers_from(self.envp) is Some
        &&& forall|k: int|
            0 <= k < self.envc() ==> self.has_string(#[trigger] self.word(self.envp + 8 * k))
    }

    /// The arguments.
    pub open spec fn args(self) -> Seq<Seq<u8>> {
        Seq::new(self.argc as nat, |i: int| self.text(self.word(self.argv + 8 * i)))
    }

    /// The environment.
    pub open spec fn env(self) -> Seq<Seq<u8>> {
        Seq::new(self.envc(), |k: int| self.text(self.word(self.envp + 8 * k)))
    }

    /// The list of environment pointers lies in the memory.
    pub proof fn pointers_bound(self, a: int, k: int)
        requires
            self.pointers_from(a) is Some,
            0 <= k <= self.pointers_from(a)->0,
        ensures
            self.has_word(a + 8 * k),
            self.word(a + 8 * k) == 0 <==> k == self.pointers_from(a)->0,
        decreases k,
    {
        if k > 0 {
            self.pointers_bound(a + 8, k - 1);
        }
    }
}

/// The value in an environment string `name=value`.
pub open spec fn value_of(entry: Seq<u8>, name: Seq<u8>) -> Option<Seq<u8>> {
    if entry.len() > name.len() && entry.take(name.len() as int) == name && entry[name.len() as int]
        == 0x3d {
        Some(entry.skip(name.len() as int + 1))
    } else {
        None
    }
}

/// The value of the first string of `env` at or after `i` that sets `name`.
pub open spec fn value_in(env: Seq<Seq<u8>>, name: Seq<u8>, i: int) -> Option<Seq<u8>>
    decreases env.len() - i,
{
    if i < 0 || i >= env.len() {
        None
    } else if value_of(env[i], name) is Some {
        value_of(env[i], name)
    } else {
        value_in(env, name, i + 1)
    }
}

/// A program's arguments and environment. `mem` is the memory they lie in,
/// which starts at address `base`.
#[derive(Clone, Copy)]
pub struct Args<'a> {
    mem: &'a [u8],
    base: u64,
    argc: usize,
    argv: u64,
    envp: u64,
}

impl<'a> View for Args<'a> {
    type V = ArgsModel;

    closed spec fn view(&self) -> ArgsModel {
        ArgsModel {
            mem: self.mem@,
            base: self.base as int,
            argc: self.argc as int,
            argv: self.argv as int,
            envp: self.envp as int,
        }
    }
}

/// The string at `p`, without its NUL.
pub fn cstr<'a>(mem: &'a [u8], p: usize) -> (s: &'a [u8])
    requires
        nul_from(mem@, p as int) is Some,
    ensures
        s@ == mem@.subrange(p as int, nul_from(mem@, p as int)->0),
{
    proof {
        nul_bounds(mem@, p as int);
    }
    let _len: usize = mem.len();
    let mut end: usize = p;
    while mem[end] != 0
        invariant
            p <= end < mem@.len(),
            mem@.len() <= usize::MAX,
            nul_from(mem@, p as int) is Some,
            nul_from(mem@, p as int) == nul_from(mem@, end as int),
        decreases mem@.len() - end,
    {
        proof {
            nul_bounds(mem@, end as int);
        }
        end += 1;
    }
    slice_subrange(mem, p, end)
}

impl<'a> Args<'a> {
    pub open spec fn wf(&self) -> bool {
        self@.wf()
    }

    /// The arguments of a program that was started with stack pointer `sp`.
    pub fn from_stack(mem: &'a [u8], base: u64, sp: u64) -> (args: Args<'a>)
        requires
            base <= sp,
            sp + 8 <= base + mem@.len(),
            ArgsModel::at(mem@, base as int, sp as int).wf(),
        ensures
            args.wf(),
            args@ == ArgsModel::at(mem@, base as int, sp as int),
    {
        let _len: usize = mem.len();
        let argc: u64 = read64(mem, (sp - base) as usize);
        let argv: u64 = sp + 8;
        let envp: u64 = argv + 8 * (argc + 1);
        Args { mem, base, argc: argc as usize, argv, envp }
    }

    /// How many arguments there are.
    pub fn len(&self) -> (n: usize)
        ensures
            n == self@.argc,
    {
        self.argc
    }

    /// Whether there are none.
    pub fn is_empty(&self) -> (r: bool)
        ensures
            r == (self@.argc == 0),
    {
        self.argc == 0
    }

    /// The word at address `a`.
    fn word_at(&self, a: u64) -> (w: u64)
        requires
            self.wf(),
            self@.has_word(a as int),
        ensures
            w == self@.word(a as int),
    {
        let _len: usize = self.mem.len();
        read64(self.mem, (a - self.base) as usize)
    }

    /// The string at address `p`.
    fn string_at(&self, p: u64) -> (s: &'a [u8])
        requires
            self.wf(),
            self@.has_string(p as int),
        ensures
            s@ == self@.text(p as int),
    {
        proof {
            nul_bounds(self.mem@, p - self.base);
        }
        let _len: usize = self.mem.len();
        cstr(self.mem, (p - self.base) as usize)
    }

    /// Argument `i`, without its NUL.
    pub fn get(&self, i: usize) -> (r: Option<&'a [u8]>)
        requires
            self.wf(),
        ensures
            match r {
                Some(s) => i < self@.argc && s@ == self@.args()[i as int],
                None => i >= self@.argc,
            },
    {
        if i >= self.argc {
            return None;
        }
        let p = self.word_at(self.argv + 8 * i as u64);
        Some(self.string_at(p))
    }

    /// Every argument, the program's name first.
    pub fn iter(&self) -> (all: Vec<&'a [u8]>)
        requires
            self.wf(),
        ensures
            all@.len() == self@.argc,
            forall|i: int| 0 <= i < self@.argc ==> (#[trigger] all@[i])@ == self@.args()[i],
    {
        let mut all: Vec<&'a [u8]> = Vec::new();
        let mut i: usize = 0;
        while i < self.argc
            invariant
                self.wf(),
                i <= self@.argc,
                self@.argc == self.argc,
                all@.len() == i,
                forall|k: int| 0 <= k < i ==> (#[trigger] all@[k])@ == self@.args()[k],
            decreases self@.argc - i,
        {
            all.push(self.get(i).unwrap());
            i += 1;
        }
        all
    }

    /// Every environment string.
    pub fn env(&self) -> (all: Vec<&'a [u8]>)
        requires
            self.wf(),
        ensures
            all@.len() == self@.envc(),
            forall|k: int| 0 <= k < self@.envc() ==> (#[trigger] all@[k])@ == self@.env()[k],
    {
        let mut all: Vec<&'a [u8]> = Vec::new();
        let ghost m = self@;
        let mut at: u64 = self.envp;
        proof {
            m.pointers_bound(m.envp, 0);
        }
        let mut p = self.word_at(at);
        while p != 0
            invariant
                self.wf(),
                m == self@,
                all@.len() <= m.envc(),
                at == m.envp + 8 * all@.len(),
                m.has_word(at as int),
                p == m.word(at as int),
                p == 0 <==> all@.len() == m.envc(),
                forall|k: int| 0 <= k < all@.len() ==> (#[trigger] all@[k])@ == m.env()[k],
            decreases m.envc() - all@.len(),
        {
            let ghost k = all@.len() as int;
            assert(m.has_string(m.word(m.envp + 8 * k)));
            all.push(self.string_at(p));
            proof {
                m.pointers_bound(m.envp, k + 1);
            }
            at = at + 8;
            p = self.word_at(at);
        }
        all
    }

    /// The value of environment variable `name`, if it is set.
    pub fn var(&self, name: &[u8]) -> (r: Option<&'a [u8]>)
        requires
            self.wf(),
        ensures
            match r {
                Some(v) => value_in(self@.env(), name@, 0) == Some(v@),
                None => value_in(self@.env(), name@, 0) is None,
            },
    {
        let all = self.env();
        let mut i: usize = 0;
        while i < all.len()
            invariant
                i <= all@.len(),
                all@.len() == self@.envc(),
                forall|k: int| 0 <= k < all@.len() ==> (#[trigger] all@[k])@ == self@.env()[k],
                value_in(self@.env(), name@, 0) == value_in(self@.env(), name@, i as int),
            decreases all@.len() - i,
        {
            let entry = all[i];
            let n = name.len();
            if entry.len() > n {
                let front = slice_subrange(entry, 0, n);
                assert(front@ =~= entry@.take(n as int));
                if same_bytes(front, name) && entry[n] == 0x3d {
                    let value = slice_subrange(entry, n + 1, entry.len());
                    assert(value@ =~= entry@.skip(n + 1));
                    return Some(value);
                }
            }
            i += 1;
        }
        None
    }
}

impl Block {
    /// The strings found where the block says, up to their first NUL.
    proof fn text_in_page(self, k: int)
        requires
            self.size() <= MAX_START_ARGS_BYTES,
            0 <= k < self.strings().len(),
        ensures
            self.string_at(k) > 0,
            nul_from(self.page(), self.string_at(k)) is Some,
            self.page().subrange(
                self.string_at(k),
                nul_from(self.page(), self.string_at(k))->0,
            ) == until_nul(self.strings()[k]),
    {
        self.strings_in_page(k);
        let page = self.page();
        let a = self.string_at(k);
        let s = self.strings()[k];
        let there = page.subrange(a, a + s.len());
        self.words_in_page(0);
        match nul_from(s, 0) {
            Some(n) => {
                nul_bounds(s, 0);
                assert forall|j: int| a <= j < a + n implies page[j] != 0 by {
                    assert(page[j] == there[j - a]);
                }
                assert(page[a + n] == there[n]);
                nul_at(page, a, a + n);
                assert(page.subrange(a, a + n) =~= s.take(n));
            },
            None => {
                assert forall|j: int| 0 <= j < s.len() implies s[j] != 0 by {
                    if s[j] == 0 {
                        some_nul(s, 0, j);
                    }
                }
                assert forall|j: int| a <= j < a + s.len() implies page[j] != 0 by {
                    assert(page[j] == there[j - a]);
                }
                nul_at(page, a, a + s.len());
                assert(page.subrange(a, a + s.len()) =~= s);
            },
        }
    }
}

/// A NUL somewhere, one found.
proof fn some_nul(mem: Seq<u8>, i: int, j: int)
    requires
        0 <= i <= j < mem.len(),
        mem[j] == 0,
    ensures
        nul_from(mem, i) is Some,
    decreases j - i,
{
    if mem[i] != 0 {
        some_nul(mem, i + 1, j);
    }
}

/// Where pointers stop.
proof fn pointers_end(m: ArgsModel, a: int, n: nat)
    requires
        forall|k: int| 0 <= k <= n ==> #[trigger] m.has_word(a + 8 * k),
        forall|k: int| 0 <= k < n ==> #[trigger] m.word(a + 8 * k) != 0,
        m.word(a + 8 * n) == 0,
    ensures
        m.pointers_from(a) == Some(n),
    decreases n,
{
    assert(m.has_word(a + 8 * 0));
    if n > 0 {
        assert(m.word(a + 8 * 0) != 0);
        let b = a + 8;
        assert forall|k: int| 0 <= k <= n - 1 implies #[trigger] m.has_word(b + 8 * k) by {
            assert(m.has_word(a + 8 * (k + 1)));
        }
        assert forall|k: int| 0 <= k < n - 1 implies #[trigger] m.word(b + 8 * k) != 0 by {
            assert(m.word(a + 8 * (k + 1)) != 0);
        }
        pointers_end(m, b, (n - 1) as nat);
    }
}

/// The block as a program finds it.
pub open spec fn found(block: Block) -> ArgsModel {
    ArgsModel::at(block.page(), STACK_ADDR as int, STACK_ADDR + block.start())
}

/// Where the lists of a block are.
proof fn found_at(block: Block)
    requires
        block.size() <= MAX_START_ARGS_BYTES,
    ensures
        ({
            let m = found(block);
            &&& m.mem.len() == 4096
            &&& m.argc == block.argv.len()
            &&& m.argv == STACK_ADDR + block.start() + 8
            &&& m.envp == m.argv + 8 * (block.argv.len() + 1)
            &&& m.envp + 8 * block.envp.len() + 8 <= STACK_ADDR + 4096
            &&& block.start() >= 0
        }),
{
    block.words_in_page(0);
}

/// The argument that pointer `i` of a block leads to.
proof fn found_argument(block: Block, i: int)
    requires
        block.size() <= MAX_START_ARGS_BYTES,
        0 <= i < block.argv.len(),
    ensures
        ({
            let m = found(block);
            let p = m.word(m.argv + 8 * i);
            m.has_string(p) && m.text(p) == until_nul(block.argv[i])
        }),
{
    let m = found(block);
    found_at(block);
    block.words_in_page(i + 1);
    block.text_in_page(i);
    nul_bounds(block.page(), block.string_at(i));
    assert(block.strings()[i] == block.argv[i]);
    assert(m.word(m.argv + 8 * i) == STACK_ADDR + block.string_at(i));
}

/// The environment string that pointer `k` of a block leads to.
proof fn found_variable(block: Block, k: int)
    requires
        block.size() <= MAX_START_ARGS_BYTES,
        0 <= k < block.envp.len(),
    ensures
        ({
            let m = found(block);
            let p = m.word(m.envp + 8 * k);
            p != 0 && m.has_string(p) && m.text(p) == until_nul(block.envp[k])
        }),
{
    let m = found(block);
    let argc = block.argv.len() as int;
    found_at(block);
    block.words_in_page(argc + 2 + k);
    block.text_in_page(argc + k);
    nul_bounds(block.page(), block.string_at(argc + k));
    assert(block.strings()[argc + k] == block.envp[k]);
    assert(m.word(m.envp + 8 * k) == STACK_ADDR + block.string_at(argc + k));
}

/// The environment ends where the block says.
proof fn found_end(block: Block)
    requires
        block.size() <= MAX_START_ARGS_BYTES,
    ensures
        found(block).pointers_from(found(block).envp) == Some(block.envp.len()),
{
    let m = found(block);
    let argc = block.argv.len() as int;
    let envc = block.envp.len();
    found_at(block);
    assert forall|k: int| 0 <= k < envc implies #[trigger] m.word(m.envp + 8 * k) != 0 by {
        found_variable(block, k);
    }
    assert forall|k: int| 0 <= k <= envc implies #[trigger] m.has_word(m.envp + 8 * k) by {}
    block.words_in_page(argc + 2 + envc);
    assert(m.word(m.envp + 8 * envc) == block.word(argc + 2 + envc));
    pointers_end(m, m.envp, envc);
}

/// A program finds the arguments and the environment it was started with:
/// each string up to its first NUL, and so whole where it has none.
#[verifier::rlimit(50)]
pub proof fn program_sees_its_arguments(block: Block)
    requires
        block.size() <= MAX_START_ARGS_BYTES,
    ensures
        ({
            let m = found(block);
            &&& m.wf()
            &&& m.args().len() == block.argv.len()
            &&& forall|i: int|
                0 <= i < block.argv.len() ==> #[trigger] m.args()[i] == until_nul(block.argv[i])
            &&& m.env().len() == block.envp.len()
            &&& forall|k: int|
                0 <= k < block.envp.len() ==> #[trigger] m.env()[k] == until_nul(block.envp[k])
        }),
{
    let m = found(block);
    found_at(block);
    found_end(block);
    assert forall|i: int| 0 <= i < block.argv.len() implies ({
        &&& m.has_string(#[trigger] m.word(m.argv + 8 * i))
        &&& m.text(m.word(m.argv + 8 * i)) == until_nul(block.argv[i])
    }) by {
        found_argument(block, i);
    }
    assert forall|k: int| 0 <= k < block.envp.len() implies ({
        &&& m.has_string(#[trigger] m.word(m.envp + 8 * k))
        &&& m.text(m.word(m.envp + 8 * k)) == until_nul(block.envp[k])
    }) by {
        found_variable(block, k);
    }
}

/// Whether a program that is started with that block finds exactly its
/// strings.
pub open spec fn arrives(block: Block) -> bool {
    let m = found(block);
    m.wf() && m.args() == block.argv && m.env() == block.envp
}

/// A program started with strings that hold no NUL finds exactly those.
pub proof fn plain_arguments_arrive(block: Block)
    requires
        block.size() <= MAX_START_ARGS_BYTES,
        all_nul_free(block.argv),
        all_nul_free(block.envp),
    ensures
        arrives(block),
{
    let m = found(block);
    program_sees_its_arguments(block);
    assert forall|i: int| 0 <= i < block.argv.len() implies m.args()[i] == block.argv[i] by {
        assert(nul_free(block.argv[i]));
        no_nul(block.argv[i], 0);
    }
    assert forall|i: int| 0 <= i < block.envp.len() implies m.env()[i] == block.envp[i] by {
        assert(nul_free(block.envp[i]));
        no_nul(block.envp[i], 0);
    }
    assert(m.args() =~= block.argv);
    assert(m.env() =~= block.envp);
}

} // verus!
