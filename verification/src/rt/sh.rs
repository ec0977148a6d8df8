//! The shell: how a line becomes a command.
use crate::elf::stack::joined;
use crate::fs::same_bytes;
use crate::rt::args::{cstr, nul_at, nul_bounds, nul_free, nul_from};
use crate::rt::output::strings;
use crate::rt::sys::{error_text, strerror};
use crate::rt::text::{append_all, append_signed, shown, signed_decimal, Bytes};
use crate::rt::tools::{complain, complaint};
use vstd::prelude::*;
use vstd::string::StringSliceAdditionalSpecFns;

verus! {

/// Most words in one line, the command's name among them.
pub const MAX_WORDS: usize = 16;

/// Longest line.
pub const MAX_LINE: usize = 256;

/// Longest path.
pub const MAX_PATH: usize = 256;

/// The status of a child whose command cannot be run.
pub const NOT_FOUND: i32 = 127;

/// Whether `b` separates words.
pub open spec fn blank(b: u8) -> bool {
    b == 0x20 || b == 0x09
}

/// The words of a line that are complete, and the one that is not yet.
pub open spec fn split(line: Seq<u8>) -> (Seq<Seq<u8>>, Seq<u8>)
    decreases line.len(),
{
    if line.len() == 0 {
        (Seq::empty(), Seq::empty())
    } else {
        let (done, word) = split(line.drop_last());
        if !blank(line.last()) {
            (done, word.push(line.last()))
        } else if word.len() > 0 {
            (done.push(word), Seq::empty())
        } else {
            (done, word)
        }
    }
}

/// The words of a line: its longest pieces without a blank.
pub open spec fn words(line: Seq<u8>) -> Seq<Seq<u8>> {
    let (done, word) = split(line);
    if word.len() > 0 {
        done.push(word)
    } else {
        done
    }
}

/// Where NUL-terminated string number `i` of `s` starts.
pub open spec fn string_start(s: Seq<u8>, i: nat) -> int
    decreases i,
{
    if i == 0 {
        0
    } else {
        nul_from(s, string_start(s, (i - 1) as nat))->0 + 1
    }
}

/// The first `n` NUL-terminated strings of `s`.
pub open spec fn c_strings(s: Seq<u8>, n: nat) -> Seq<Seq<u8>> {
    Seq::new(
        n,
        |i: int|
            s.subrange(string_start(s, i as nat), nul_from(s, string_start(s, i as nat))->0),
    )
}

/// The arguments that a command sees: as many strings as there are words,
/// each of them up to a NUL.
pub open spec fn arguments(line: Seq<u8>) -> Seq<Seq<u8>> {
    c_strings(joined(words(line)), words(line).len())
}

/// Whether every byte of `s` is a digit.
pub open spec fn all_digits(s: Seq<u8>) -> bool {
    forall|i: int| 0 <= i < s.len() ==> 0x30 <= #[trigger] s[i] <= 0x39
}

/// The number that digits stand for.
pub open spec fn number(digits: Seq<u8>) -> int
    decreases digits.len(),
{
    if digits.len() == 0 {
        0
    } else {
        10 * number(digits.drop_last()) + (digits.last() - 0x30)
    }
}

/// The number that a word stands for: digits, perhaps behind a minus sign,
/// of at most `i32::MAX`.
pub open spec fn parsed(word: Seq<u8>) -> Option<i32> {
    let negative = word.len() > 0 && word[0] == 0x2d;
    let digits = if negative {
        word.skip(1)
    } else {
        word
    };
    if digits.len() == 0 || !all_digits(digits) || number(digits) > i32::MAX {
        None
    } else if negative {
        Some((-number(digits)) as i32)
    } else {
        Some(number(digits) as i32)
    }
}

/// More digits make no smaller number.
proof fn number_grows(digits: Seq<u8>, n: int)
    requires
        all_digits(digits),
        0 <= n <= digits.len(),
    ensures
        0 <= number(digits.take(n)) <= number(digits),
    decreases digits.len(),
{
    if n == digits.len() {
        assert(digits.take(n) =~= digits);
        if n > 0 {
            assert forall|i: int| 0 <= i < digits.drop_last().len() implies 0x30
                <= #[trigger] digits.drop_last()[i] <= 0x39 by {
                assert(digits[i] == digits.drop_last()[i]);
            }
            number_grows(digits.drop_last(), n - 1);
        }
    } else {
        assert(digits.drop_last().take(n) =~= digits.take(n));
        assert forall|i: int| 0 <= i < digits.drop_last().len() implies 0x30 <= #[trigger]
        digits.drop_last()[i] <= 0x39 by {
            assert(digits[i] == digits.drop_last()[i]);
        }
        number_grows(digits.drop_last(), n);
    }
}

/// The number that a word stands for.
pub fn parse_i32(word: &[u8]) -> (r: Option<i32>)
    ensures
        r == parsed(word@),
{
    let negative: bool = word.len() > 0 && word[0] == 0x2d;
    let from: usize = if negative {
        1
    } else {
        0
    };
    let ghost digits = word@.skip(from as int);
    assert(word@.skip(0) =~= word@);
    if from == word.len() {
        return None;
    }
    let mut value: i32 = 0;
    let mut i: usize = from;
    assert(digits.take(0) =~= Seq::<u8>::empty());
    while i < word.len()
        invariant
            from <= i <= word@.len(),
            from < word@.len(),
            digits == word@.skip(from as int),
            digits == (if negative {
                word@.skip(1)
            } else {
                word@
            }),
            negative == (word@.len() > 0 && word@[0] == 0x2d),
            0 <= value,
            value == number(digits.take(i - from)),
            forall|k: int| 0 <= k < i - from ==> 0x30 <= #[trigger] digits[k] <= 0x39,
        decreases word@.len() - i,
    {
        let d: u8 = word[i];
        let ghost k = i - from;
        assert(digits[k] == d);
        if d < 0x30 || d > 0x39 {
            return None;
        }
        proof {
            assert(digits.take(k + 1).drop_last() =~= digits.take(k));
            if all_digits(digits) {
                number_grows(digits, k + 1);
            }
        }
        let wide: i64 = 10 * value as i64 + (d - 0x30) as i64;
        if wide > i32::MAX as i64 {
            return None;
        }
        value = wide as i32;
        i += 1;
    }
    assert(digits.take(i - from) =~= digits);
    if negative {
        Some(-value)
    } else {
        Some(value)
    }
}

/// What a line asks for.
pub enum Command {
    /// Nothing.
    Nothing,
    /// It has too many words.
    TooManyWords,
    /// The shell is to end with that status.
    Exit(i32),
    /// The list of what there is.
    Help,
    /// The command's name is too long for a path.
    NameTooLong(Vec<u8>),
    /// Run the program at `path` with the arguments `argv`.
    Run { path: Vec<u8>, argv: Vec<Vec<u8>> },
}

/// The path of a command: its name if that holds a slash, else in `/bin`.
pub open spec fn command_path(name: Seq<u8>) -> Seq<u8> {
    if name.contains(0x2f) {
        name
    } else {
        "/bin/".spec_bytes() + name
    }
}

/// Whether `c` is what `line` asks for.
pub open spec fn asks_for(line: Seq<u8>, c: Command) -> bool {
    let args = arguments(line);
    if words(line).len() > MAX_WORDS {
        c is TooManyWords
    } else if args.len() == 0 {
        c is Nothing
    } else if args[0] == "exit".spec_bytes() {
        c matches Command::Exit(status) && status == (if args.len() > 1 && parsed(
            args[1],
        ) is Some {
            parsed(args[1])->0
        } else {
            0
        })
    } else if args[0] == "help".spec_bytes() {
        c is Help
    } else if args[0].len() + 5 > MAX_PATH {
        c matches Command::NameTooLong(name) && name@ == args[0]
    } else {
        c matches Command::Run { path, argv } && path@ == command_path(args[0]) && strings(argv@)
            == args
    }
}

/// One more word.
proof fn joined_push(done: Seq<Seq<u8>>, word: Seq<u8>)
    ensures
        joined(done.push(word)) == joined(done) + word.push(0),
{
    assert(done.push(word).drop_last() =~= done);
}

/// The words of `line`, each with a NUL behind it, and how many there are;
/// `None` if there are too many.
fn store_words(line: &[u8]) -> (r: Option<(Vec<u8>, usize)>)
    requires
        line@.len() <= MAX_LINE,
    ensures
        match r {
            Some((storage, count)) => count == words(line@).len() && count <= MAX_WORDS
                && storage@ == joined(words(line@)),
            None => words(line@).len() > MAX_WORDS,
        },
{
    let mut storage: Vec<u8> = Vec::new();
    let mut count: usize = 0;
    let mut open: bool = false;
    let mut i: usize = 0;
    let ghost (mut done, mut word) = (Seq::<Seq<u8>>::empty(), Seq::<u8>::empty());
    proof {
        assert(line@.take(0) =~= Seq::<u8>::empty());
        assert(storage@ =~= joined(done) + word);
    }
    while i < line.len()
        invariant
            i <= line@.len(),
            split(line@.take(i as int)) == (done, word),
            storage@ == joined(done) + word,
            count == done.len(),
            count <= i,
            open == (word.len() > 0),
        decreases line@.len() - i,
    {
        let b: u8 = line[i];
        proof {
            let next = line@.take(i + 1);
            assert(next.drop_last() =~= line@.take(i as int));
            assert(next.last() == b);
        }
        if b != 0x20 && b != 0x09 {
            storage.push(b);
            open = true;
            proof {
                assert(storage@ =~= joined(done) + word.push(b));
                word = word.push(b);
            }
        } else if open {
            storage.push(0);
            count += 1;
            open = false;
            proof {
                joined_push(done, word);
                assert(storage@ =~= joined(done) + word.push(0));
                done = done.push(word);
                word = Seq::empty();
                assert(storage@ =~= joined(done) + word);
            }
        }
        i += 1;
    }
    assert(line@.take(i as int) =~= line@);
    if open {
        storage.push(0);
        count += 1;
        proof {
            joined_push(done, word);
            assert(storage@ =~= joined(done) + word.push(0));
            done = done.push(word);
        }
    }
    assert(storage@ =~= joined(words(line@)));
    if count > MAX_WORDS {
        return None;
    }
    Some((storage, count))
}

/// String number `i` starts no later than word number `i`, so that there is
/// one.
proof fn string_starts(all: Seq<Seq<u8>>, i: nat)
    requires
        i <= all.len(),
    ensures
        0 <= string_start(joined(all), i) <= joined(all.take(i as int)).len(),
        i < all.len() ==> nul_from(joined(all), string_start(joined(all), i)) is Some,
    decreases i,
{
    let s = joined(all);
    if i > 0 {
        string_starts(all, (i - 1) as nat);
        word_ends(all, i - 1);
        let at = string_start(s, (i - 1) as nat);
        nul_bounds(s, at);
        nul_no_later(s, at, joined(all.take(i as int)).len() - 1);
    }
    if i < all.len() {
        word_ends(all, i as int);
        nul_no_later(s, string_start(s, i), joined(all.take(i as int + 1)).len() - 1);
    }
}

/// A NUL at `n`, so one found by there.
proof fn nul_no_later(s: Seq<u8>, at: int, n: int)
    requires
        0 <= at <= n < s.len(),
        s[n] == 0,
    ensures
        nul_from(s, at) is Some,
        nul_from(s, at)->0 <= n,
    decreases n - at,
{
    if s[at] != 0 {
        nul_no_later(s, at + 1, n);
    }
}

/// Word number `i` stands behind the words before it, and a NUL behind it.
proof fn word_ends(all: Seq<Seq<u8>>, i: int)
    requires
        0 <= i < all.len(),
    ensures
        ({
            let s = joined(all);
            let at = joined(all.take(i)).len() as int;
            let end = joined(all.take(i + 1)).len() - 1;
            &&& end == at + all[i].len()
            &&& 0 <= at <= end < s.len()
            &&& s[end] == 0
            &&& s.subrange(at, end) == all[i]
        }),
    decreases all.len(),
{
    let s = joined(all);
    assert(all.take(i + 1).drop_last() =~= all.take(i));
    let at = joined(all.take(i)).len() as int;
    let end = joined(all.take(i + 1)).len() - 1;
    if i + 1 == all.len() {
        assert(all.take(i + 1) =~= all);
        assert(all.drop_last() =~= all.take(i));
        assert(s =~= joined(all.take(i)) + all[i].push(0));
        assert(s.subrange(at, end) =~= all[i]);
    } else {
        let front = all.drop_last();
        word_ends(front, i);
        assert(front.take(i) =~= all.take(i));
        assert(front.take(i + 1) =~= all.take(i + 1));
        assert(s =~= joined(front) + all.last().push(0));
        assert(s.subrange(at, end) =~= joined(front).subrange(at, end));
    }
}

/// The first `count` NUL-terminated strings of `storage`.
fn arguments_in(storage: &[u8], count: usize, Ghost(all): Ghost<Seq<Seq<u8>>>) -> (argv: Vec<
    Vec<u8>,
>)
    requires
        storage@ == joined(all),
        count == all.len(),
    ensures
        argv@.len() == count,
        strings(argv@) == c_strings(storage@, count as nat),
{
    let _len: usize = storage.len();
    let mut argv: Vec<Vec<u8>> = Vec::new();
    let mut at: usize = 0;
    let mut i: usize = 0;
    while i < count
        invariant
            i <= count,
            storage@.len() <= usize::MAX,
            count == all.len(),
            storage@ == joined(all),
            at == string_start(storage@, i as nat),
            argv@.len() == i,
            forall|k: int|
                0 <= k < i ==> (#[trigger] argv@[k])@ == c_strings(storage@, count as nat)[k],
        decreases count - i,
    {
        proof {
            string_starts(all, i as nat);
            nul_bounds(storage@, at as int);
        }
        let text = cstr(storage, at);
        let mut arg: Vec<u8> = Vec::new();
        append_all(&mut arg, text);
        assert(arg@ =~= c_strings(storage@, count as nat)[i as int]);
        at = at + text.len() + 1;
        argv.push(arg);
        i += 1;
    }
    assert(strings(argv@) =~= c_strings(storage@, count as nat));
    argv
}

fn contains(s: &[u8], b: u8) -> (r: bool)
    ensures
        r == s@.contains(b),
{
    let mut i: usize = 0;
    while i < s.len()
        invariant
            i <= s@.len(),
            forall|k: int| 0 <= k < i ==> s@[k] != b,
        decreases s@.len() - i,
    {
        if s[i] == b {
            return true;
        }
        i += 1;
    }
    false
}

/// Find out what `line` asks for.
pub fn run_line(line: &[u8]) -> (c: Command)
    requires
        line@.len() <= MAX_LINE,
    ensures
        asks_for(line@, c),
{
    let (storage, count) = match store_words(line) {
        Some(r) => r,
        None => {
            return Command::TooManyWords;
        },
    };
    let argv = arguments_in(storage.as_slice(), count, Ghost(words(line@)));
    if count == 0 {
        return Command::Nothing;
    }
    let ghost args = arguments(line@);
    assert(strings(argv@)[0] == argv@[0]@);
    if same_bytes(argv[0].as_slice(), "exit".as_bytes()) {
        let mut status: i32 = 0;
        if count > 1 {
            assert(strings(argv@)[1] == argv@[1]@);
            if let Some(n) = parse_i32(argv[1].as_slice()) {
                status = n;
            }
        }
        return Command::Exit(status);
    }
    if same_bytes(argv[0].as_slice(), "help".as_bytes()) {
        return Command::Help;
    }
    let mut name: Vec<u8> = Vec::new();
    append_all(&mut name, argv[0].as_slice());
    assert(name@ =~= args[0]);
    if name.len() > MAX_PATH - 5 {
        return Command::NameTooLong(name);
    }
    if contains(name.as_slice(), 0x2f) {
        return Command::Run { path: name, argv };
    }
    let mut path: Vec<u8> = Vec::new();
    append_all(&mut path, "/bin/".as_bytes());
    append_all(&mut path, name.as_slice());
    assert(path@ =~= command_path(args[0]));
    Command::Run { path, argv }
}

/// What `help` prints.
pub fn help_text() -> (text: &'static str)
    ensures
        text@
            == "programs in /bin:\n echo WORDS...\n cat FILE...\n ls [DIR...]\n mkdir DIR...\nbuilt in: exit, help\ntry: ls /bin\n"@,
{
    "programs in /bin:\n echo WORDS...\n cat FILE...\n ls [DIR...]\n mkdir DIR...\nbuilt in: exit, help\ntry: ls /bin\n"
}

/// What the shell does after a fork.
pub enum Forked {
    /// It failed: print this.
    Fail(Vec<u8>),
    /// This is the child: run the command.
    Child,
    /// This is the parent: wait for the child.
    Parent,
}

/// What the shell does about the answer to a fork.
pub fn forked(answer: Result<i64, i64>) -> (f: Forked)
    ensures
        match answer {
            Err(code) => f matches Forked::Fail(line) && line@ == "sh: fork: ".spec_bytes()
                + error_text(code).spec_bytes() + "\n".spec_bytes(),
            Ok(n) => if n == 0 {
                f is Child
            } else {
                f is Parent
            },
        },
{
    match answer {
        Err(code) => {
            let mut line: Vec<u8> = Vec::new();
            append_all(&mut line, "sh: fork: ".as_bytes());
            append_all(&mut line, strerror(code).as_bytes());
            append_all(&mut line, "\n".as_bytes());
            assert(line@ =~= "sh: fork: ".spec_bytes() + error_text(code).spec_bytes()
                + "\n".spec_bytes());
            Forked::Fail(line)
        },
        Ok(n) => if n == 0 {
            Forked::Child
        } else {
            Forked::Parent
        },
    }
}

/// What the child prints when its command cannot be run, before it exits
/// with `NOT_FOUND`.
pub fn exec_failed(name: &[u8], code: i64) -> (line: Vec<u8>)
    ensures
        line@ == complaint("sh", name@, code),
{
    complain("sh", name, code)
}

/// What the parent prints after it has waited: nothing if the child did
/// well, else its status, or why there was no child.
pub open spec fn wait_report(answer: Result<(i64, i32), i64>) -> Seq<u8> {
    match answer {
        Ok((_, status)) => if status == 0 {
            Seq::empty()
        } else {
            "[exit ".spec_bytes() + signed_decimal(status as int) + "]\n".spec_bytes()
        },
        Err(code) => "sh: wait failed: ".spec_bytes() + error_text(code).spec_bytes()
            + "\n".spec_bytes(),
    }
}

/// What the parent prints after it has waited.
pub fn waited(answer: Result<(i64, i32), i64>) -> (line: Vec<u8>)
    ensures
        line@ == wait_report(answer),
{
    let mut line: Vec<u8> = Vec::new();
    match answer {
        Ok((_, status)) => {
            if status != 0 {
                append_all(&mut line, "[exit ".as_bytes());
                append_signed(&mut line, status);
                append_all(&mut line, "]\n".as_bytes());
            }
        },
        Err(code) => {
            append_all(&mut line, "sh: wait failed: ".as_bytes());
            append_all(&mut line, strerror(code).as_bytes());
            append_all(&mut line, "\n".as_bytes());
        },
    }
    assert(line@ =~= wait_report(answer));
    line
}

/// What the shell prints about a name that is too long.
pub fn name_too_long(name: &[u8]) -> (line: Vec<u8>)
    ensures
        line@ == "sh: ".spec_bytes() + shown(name@) + ": name too long\n".spec_bytes(),
{
    let mut line: Vec<u8> = Vec::new();
    append_all(&mut line, "sh: ".as_bytes());
    append_all(&mut line, Bytes(name).text().as_slice());
    append_all(&mut line, ": name too long\n".as_bytes());
    assert(line@ =~= "sh: ".spec_bytes() + shown(name@) + ": name too long\n".spec_bytes());
    line
}

/// A line without NULs gives its command exactly the words it is made of.
pub proof fn words_are_arguments(line: Seq<u8>)
    requires
        nul_free(line),
    ensures
        arguments(line) == words(line),
{
    let all = words(line);
    words_nul_free(line);
    assert forall|i: int| 0 <= i < all.len() implies arguments(line)[i] == all[i] by {
        starts_at_words(all, i as nat);
    }
    assert(arguments(line) =~= all);
}

/// The words of a line without NULs hold none either.
proof fn words_nul_free(line: Seq<u8>)
    requires
        nul_free(line),
    ensures
        forall|w: int| 0 <= w < words(line).len() ==> nul_free(#[trigger] words(line)[w]),
        forall|w: int| 0 <= w < split(line).0.len() ==> nul_free(#[trigger] split(line).0[w]),
        nul_free(split(line).1),
    decreases line.len(),
{
    if line.len() > 0 {
        let front = line.drop_last();
        assert forall|j: int| 0 <= j < front.len() implies #[trigger] front[j] != 0 by {
            assert(line[j] == front[j]);
        }
        words_nul_free(front);
        let (done, word) = split(front);
        assert(line[line.len() - 1] != 0);
        assert(nul_free(split(line).1));
        assert forall|w: int| 0 <= w < split(line).0.len() implies nul_free(
            #[trigger] split(line).0[w],
        ) by {
            if w < done.len() {
                assert(split(line).0[w] == split(front).0[w]);
            }
        }
    }
    assert forall|w: int| 0 <= w < words(line).len() implies nul_free(
        #[trigger] words(line)[w],
    ) by {
        if w < split(line).0.len() {
            assert(words(line)[w] == split(line).0[w]);
        }
    }
}

/// Without NULs in the words, string number `i` starts where word number
/// `i` does.
proof fn starts_at_words(all: Seq<Seq<u8>>, i: nat)
    requires
        i <= all.len(),
        forall|w: int| 0 <= w < all.len() ==> nul_free(#[trigger] all[w]),
    ensures
        string_start(joined(all), i) == joined(all.take(i as int)).len(),
        i < all.len() ==> c_strings(joined(all), all.len())[i as int] == all[i as int],
    decreases i,
{
    let s = joined(all);
    if i > 0 {
        starts_at_words(all, (i - 1) as nat);
        word_found(all, i - 1);
    }
    if i < all.len() {
        word_found(all, i as int);
        word_ends(all, i as int);
    }
}

/// Without NULs in the words, the first NUL from where a word starts is the
/// one behind it.
proof fn word_found(all: Seq<Seq<u8>>, i: int)
    requires
        0 <= i < all.len(),
        forall|w: int| 0 <= w < all.len() ==> nul_free(#[trigger] all[w]),
    ensures
        nul_from(joined(all), joined(all.take(i)).len() as int) == Some(
            joined(all.take(i + 1)).len() - 1,
        ),
{
    word_ends(all, i);
    let s = joined(all);
    let at = joined(all.take(i)).len() as int;
    let end = joined(all.take(i + 1)).len() - 1;
    assert forall|j: int| at <= j < end implies s[j] != 0 by {
        assert(s.subrange(at, end)[j - at] == all[i][j - at]);
        assert(nul_free(all[i]));
    }
    nul_at(s, at, end);
}

} // verus!
