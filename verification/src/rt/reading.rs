//! How what a program writes and reads hangs together: words, numbers,
//! names and variables.
use vstd::prelude::*;
use vstd::string::{is_ascii_spec_bytes, StringSliceAdditionalSpecFns};

use crate::bytes::le64;
use crate::elf::stack::Block;
use crate::rt::args::{nul_free, value_in, value_of};
use crate::rt::output::strings;
use crate::rt::sh::{
    all_digits, arguments, asks_for, command_path, number, parsed, split, wait_report, words,
    words_are_arguments, Command,
};
use crate::rt::sys::{capped, error_text, first_error, piece_calls};
use crate::rt::text::{decimal, right_aligned, shown, signed_decimal};
use crate::rt::tools::{complaint, entry_line, spaced};

verus! {

/// Whether a byte string can be a word: not empty, without spaces and tabs.
pub open spec fn is_word(w: Seq<u8>) -> bool {
    w.len() > 0 && forall|k: int| 0 <= k < w.len() ==> #[trigger] w[k] != 0x20 && w[k] != 0x09
}

/// Every word of a line is one.
pub proof fn words_have_no_blanks(line: Seq<u8>, i: int)
    requires
        0 <= i < words(line).len(),
    ensures
        is_word(words(line)[i]),
{
    split_into_words(line);
    let (done, word) = split(line);
    if i < done.len() {
        assert(is_word(done[i]));
    }
}

proof fn split_into_words(line: Seq<u8>)
    ensures
        forall|i: int| 0 <= i < split(line).0.len() ==> is_word(#[trigger] split(line).0[i]),
        split(line).1.len() > 0 ==> is_word(split(line).1),
    decreases line.len(),
{
    if line.len() > 0 {
        let front = line.drop_last();
        split_into_words(front);
        let (done, word) = split(front);
        assert forall|i: int| 0 <= i < split(line).0.len() implies is_word(
            #[trigger] split(line).0[i],
        ) by {
            if i < done.len() {
                assert(is_word(done[i]));
            }
        }
    }
}

/// A space or a tab ends a word and is otherwise nothing: it may be added at
/// the end of a line or at its start without changing its words.
pub proof fn blanks_around_a_line_do_not_matter(line: Seq<u8>, b: u8)
    requires
        b == 0x20 || b == 0x09,
    ensures
        words(line.push(b)) == words(line),
        words(seq![b] + line) == words(line),
{
    assert(line.push(b).drop_last() =~= line);
    leading_blank(line, b);
}

proof fn leading_blank(line: Seq<u8>, b: u8)
    requires
        b == 0x20 || b == 0x09,
    ensures
        split(seq![b] + line) == split(line),
    decreases line.len(),
{
    let all = seq![b] + line;
    if line.len() == 0 {
        assert(all.drop_last() =~= line);
    } else {
        leading_blank(line.drop_last(), b);
        assert(all.drop_last() =~= seq![b] + line.drop_last());
    }
}

/// One more word behind a blank is one more word of the line.
proof fn one_more_word(line: Seq<u8>, b: u8, w: Seq<u8>)
    requires
        b == 0x20 || b == 0x09,
        is_word(w),
    ensures
        split(line.push(b) + w) == (words(line), w),
    decreases w.len(),
{
    let all = line.push(b) + w;
    let front = w.drop_last();
    assert(w[w.len() - 1] != 0x20 && w[w.len() - 1] != 0x09);
    assert(all.drop_last() =~= line.push(b) + front);
    if front.len() == 0 {
        assert(line.push(b) + front =~= line.push(b));
        assert(line.push(b).drop_last() =~= line);
        assert(Seq::<u8>::empty().push(w.last()) =~= w);
        let (done, word) = split(line);
        if word.len() == 0 {
            assert(word =~= Seq::<u8>::empty());
        }
        assert(split(line.push(b)) == (words(line), Seq::<u8>::empty()));
    } else {
        assert forall|k: int| 0 <= k < front.len() implies #[trigger] front[k] != 0x20 && front[k]
            != 0x09 by {
            assert(w[k] == front[k]);
        }
        one_more_word(line, b, front);
        assert(front.push(w.last()) =~= w);
    }
}

/// A line made of words with one space between any two has exactly those
/// words, in that order.
pub proof fn spaced_words_are_read_back(ws: Seq<Seq<u8>>)
    requires
        forall|i: int| 0 <= i < ws.len() ==> is_word(#[trigger] ws[i]),
    ensures
        words(spaced(ws)) == ws,
    decreases ws.len(),
{
    if ws.len() == 0 {
        assert(words(spaced(ws)) =~= ws);
    } else {
        let w = ws.last();
        assert(is_word(ws[ws.len() - 1]));
        if ws.len() == 1 {
            let none = Seq::<u8>::empty();
            one_more_word(none, 0x20, w);
            leading_blank(w, 0x20);
            assert(none.push(0x20) + w =~= seq![0x20u8] + w);
            assert(words(spaced(ws)) =~= ws);
        } else {
            let front = ws.drop_last();
            assert forall|i: int| 0 <= i < front.len() implies is_word(#[trigger] front[i]) by {
                assert(ws[i] == front[i]);
            }
            spaced_words_are_read_back(front);
            one_more_word(spaced(front), 0x20, w);
            assert(words(spaced(ws)) =~= ws);
        }
    }
}

/// The digits of a number stand for that number, and none of them but the
/// only one is a leading zero.
pub proof fn digits_stand_for_their_number(n: nat)
    ensures
        all_digits(decimal(n)),
        number(decimal(n)) == n,
        decimal(n).len() > 0,
        n > 0 ==> decimal(n)[0] != 0x30,
    decreases n,
{
    if n >= 10 {
        let d = decimal(n);
        digits_stand_for_their_number(n / 10);
        assert(d.drop_last() =~= decimal(n / 10));
        assert forall|i: int| 0 <= i < d.len() implies 0x30 <= #[trigger] d[i] <= 0x39 by {
            if i < d.len() - 1 {
                assert(d[i] == decimal(n / 10)[i]);
            }
        }
    } else {
        assert(decimal(n).drop_last() =~= Seq::<u8>::empty());
        assert(number(Seq::<u8>::empty()) == 0);
    }
}

/// A number that is written out is read back, with its sign.
pub proof fn written_number_is_read_back(n: i32)
    requires
        n > i32::MIN,
    ensures
        parsed(signed_decimal(n as int)) == Some(n),
{
    if n < 0 {
        let d = decimal((-n) as nat);
        digits_stand_for_their_number((-n) as nat);
        assert(signed_decimal(n as int).skip(1) =~= d);
    } else {
        digits_stand_for_their_number(n as nat);
        assert(0x30 <= decimal(n as nat)[0] <= 0x39);
    }
}

/// Whatever is read as a number is digits, perhaps behind a minus sign, and
/// the number they stand for.
pub proof fn only_digits_are_numbers(word: Seq<u8>)
    requires
        parsed(word) is Some,
    ensures
        word.len() > 0,
        word[0] == 0x2d ==> {
            &&& word.len() > 1
            &&& forall|k: int| 1 <= k < word.len() ==> 0x30 <= #[trigger] word[k] <= 0x39
            &&& parsed(word)->0 == -number(word.skip(1))
        },
        word[0] != 0x2d ==> {
            &&& forall|k: int| 0 <= k < word.len() ==> 0x30 <= #[trigger] word[k] <= 0x39
            &&& parsed(word)->0 == number(word)
        },
{
    if word.len() > 0 && word[0] == 0x2d {
        let digits = word.skip(1);
        number_is_not_negative(digits);
        assert forall|k: int| 1 <= k < word.len() implies 0x30 <= #[trigger] word[k] <= 0x39 by {
            assert(digits[k - 1] == word[k]);
        }
    } else {
        number_is_not_negative(word);
    }
}

proof fn number_is_not_negative(digits: Seq<u8>)
    requires
        all_digits(digits),
    ensures
        number(digits) >= 0,
    decreases digits.len(),
{
    if digits.len() > 0 {
        let front = digits.drop_last();
        assert forall|i: int| 0 <= i < front.len() implies 0x30 <= #[trigger] front[i] <= 0x39 by {
            assert(digits[i] == front[i]);
        }
        number_is_not_negative(front);
        assert(0x30 <= digits[digits.len() - 1] <= 0x39);
    }
}

/// Right-aligned text ends with the text, is as wide as asked or as the text
/// is, and has only spaces before it.
pub proof fn right_aligned_text_is_at_the_right(s: Seq<u8>, width: int, k: int)
    requires
        0 <= width,
    ensures
        ({
            let r = right_aligned(s, width);
            let n = r.len() as int;
            &&& n == (if s.len() < width {
                width
            } else {
                s.len() as int
            })
            &&& 0 <= k < s.len() ==> r[n - s.len() + k] == s[k]
            &&& 0 <= k < n - s.len() ==> r[k] == 0x20
        }),
{
}

/// A command with a slash in its name is run from there, any other from the
/// directory of programs.
pub proof fn commands_are_in_bin(name: Seq<u8>, k: int)
    requires
        0 <= k < name.len(),
    ensures
        name[k] == 0x2f ==> command_path(name) == name,
        !name.contains(0x2f) ==> command_path(name).len() == "/bin/".spec_bytes().len() + name.len(),
        !name.contains(0x2f) ==> command_path(name)["/bin/".spec_bytes().len() + k] == name[k],
{
}

/// A command that did well is not reported, one that did not is.
pub proof fn only_failures_are_reported(child: i64, status: i32)
    ensures
        status == 0 ==> wait_report(Ok((child, status))).len() == 0,
        status != 0 ==> wait_report(Ok((child, status))).len() > 0,
{
    if status != 0 {
        let n = status as int;
        digits_stand_for_their_number(
            if n < 0 {
                (-n) as nat
            } else {
                n as nat
            },
        );
    }
}

/// A variable is found under its name: the string `name=value` gives the
/// value of that name, and of no other without an equals sign.
pub proof fn variable_has_the_value_it_was_set_to(name: Seq<u8>, value: Seq<u8>, other: Seq<u8>)
    requires
        forall|k: int| 0 <= k < name.len() ==> #[trigger] name[k] != 0x3d,
        forall|k: int| 0 <= k < other.len() ==> #[trigger] other[k] != 0x3d,
        name != other,
    ensures
        value_of(name.push(0x3d) + value, name) == Some(value),
        value_of(name.push(0x3d) + value, other) is None,
{
    let entry = name.push(0x3d) + value;
    assert(entry.take(name.len() as int) =~= name);
    assert(entry.skip(name.len() as int + 1) =~= value);
    if value_of(entry, other) is Some {
        let front = entry.take(other.len() as int);
        assert(front == other);
        if other.len() > name.len() {
            assert(front[name.len() as int] == 0x3d);
            assert(other[name.len() as int] != 0x3d);
        } else if other.len() < name.len() {
            assert(entry[other.len() as int] == name[other.len() as int]);
        } else {
            assert(front =~= name);
        }
    }
}

/// If a variable is set several times, the first counts.
pub proof fn first_setting_counts(env: Seq<Seq<u8>>, name: Seq<u8>, i: int, value: Seq<u8>)
    requires
        0 <= i < env.len(),
        value_of(env[i], name) == Some(value),
        forall|k: int| 0 <= k < i ==> value_of(#[trigger] env[k], name) is None,
    ensures
        value_in(env, name, 0) == Some(value),
{
    setting_from(env, name, 0, i);
}

proof fn setting_from(env: Seq<Seq<u8>>, name: Seq<u8>, from: int, i: int)
    requires
        0 <= from <= i < env.len(),
        value_of(env[i], name) is Some,
        forall|k: int| 0 <= k < i ==> value_of(#[trigger] env[k], name) is None,
    ensures
        value_in(env, name, from) == value_of(env[i], name),
    decreases i - from,
{
    if from < i {
        assert(value_of(env[from], name) is None);
        setting_from(env, name, from + 1, i);
    }
}

/// A variable that is not set has no value.
pub proof fn unset_variable_has_no_value(env: Seq<Seq<u8>>, name: Seq<u8>, from: int)
    requires
        0 <= from,
        forall|k: int| 0 <= k < env.len() ==> value_of(#[trigger] env[k], name) is None,
    ensures
        value_in(env, name, from) is None,
    decreases env.len() - from,
{
    if from < env.len() {
        assert(value_of(env[from], name) is None);
        unset_variable_has_no_value(env, name, from + 1);
    }
}

/// The word at place `k` of those that a program finds at its first stack
/// pointer.
pub open spec fn stack_word(block: Block, k: int) -> int {
    le64(block.page(), block.start() + 8 * k)
}

/// What a program finds at its first stack pointer: the number of its
/// arguments; behind it, after as many words as there are arguments, a zero;
/// and after as many more as there are strings in the environment, another.
pub proof fn stack_starts_with_the_count(block: Block)
    requires
        block.size() <= 2048,
    ensures
        block.page().len() == 4096,
        stack_word(block, 0) == block.argv.len(),
        stack_word(block, block.argv.len() as int + 1) == 0,
        stack_word(block, block.argv.len() as int + block.envp.len() as int + 2) == 0,
{
    let argc = block.argv.len() as int;
    let envc = block.envp.len() as int;
    block.words_in_page(0);
    block.words_in_page(argc + 1);
    block.words_in_page(argc + envc + 2);
}

/// Each word behind the number of arguments points at the argument of that
/// number, in the stack page, which ends with a NUL.
pub proof fn stack_points_at_the_arguments(block: Block, i: int)
    requires
        block.size() <= 2048,
        0 <= i < block.argv.len(),
    ensures
        ({
            let at = stack_word(block, i + 1) - 0x7777_7777_0000;
            let text = block.argv[i];
            &&& 0 < at
            &&& at + text.len() < 4096
            &&& block.page().subrange(at, at + text.len()) == text
            &&& block.page()[at + text.len()] == 0
        }),
{
    block.words_in_page(i + 1);
    block.strings_in_page(i);
    assert(block.strings()[i] == block.argv[i]);
}

/// Each word behind the first zero points at the string of the environment
/// of that number, in the stack page, which ends with a NUL.
pub proof fn stack_points_at_the_environment(block: Block, i: int)
    requires
        block.size() <= 2048,
        0 <= i < block.envp.len(),
    ensures
        ({
            let at = stack_word(block, block.argv.len() as int + 2 + i) - 0x7777_7777_0000;
            let text = block.envp[i];
            &&& 0 < at
            &&& at + text.len() < 4096
            &&& block.page().subrange(at, at + text.len()) == text
            &&& block.page()[at + text.len()] == 0
        }),
{
    let argc = block.argv.len() as int;
    block.words_in_page(argc + 2 + i);
    block.strings_in_page(argc + i);
    assert(block.strings()[argc + i] == block.envp[i]);
}

/// No call moves more than 256 bytes, nor more than there are.
pub proof fn one_call_moves_so_much(len: u64)
    ensures
        capped(len) <= len,
        capped(len) <= 256,
        capped(len) == len || capped(len) == 256,
{
}

/// A write that takes several calls fails with the first error of any, and
/// only if there is one.
pub proof fn first_error_counts(rets: Seq<i64>, from: int)
    requires
        0 <= from,
    ensures
        match first_error(rets, from) {
            None => forall|i: int| from <= i < rets.len() ==> #[trigger] rets[i] >= 0,
            Some(e) => exists|i: int|
                from <= i < rets.len() && #[trigger] rets[i] == e && e < 0 && (forall|j: int|
                    from <= j < i ==> #[trigger] rets[j] >= 0),
        },
    decreases rets.len() - from,
{
    if from < rets.len() {
        if rets[from] >= 0 {
            first_error_counts(rets, from + 1);
            match first_error(rets, from + 1) {
                Some(e) => {
                    let i = choose|i: int|
                        from + 1 <= i < rets.len() && #[trigger] rets[i] == e && e < 0 && (forall|
                            j: int,
                        |
                            from + 1 <= j < i ==> #[trigger] rets[j] >= 0);
                    assert(rets[i] == e);
                },
                None => {},
            }
        } else {
            assert(rets[from] == first_error(rets, from)->0);
        }
    }
}

proof fn literal_bytes()
    ensures
        "/bin/".spec_bytes() == seq![0x2fu8, 0x62u8, 0x69u8, 0x6eu8, 0x2fu8],
        "exit".spec_bytes() == seq![0x65u8, 0x78u8, 0x69u8, 0x74u8],
        "help".spec_bytes() == seq![0x68u8, 0x65u8, 0x6cu8, 0x70u8],
        ": ".spec_bytes() == seq![0x3au8, 0x20u8],
        "  ".spec_bytes() == seq![0x20u8, 0x20u8],
        "/".spec_bytes() == seq![0x2fu8],
        "\n".spec_bytes() == seq![0x0au8],
{
    reveal_strlit("/bin/");
    reveal_strlit("exit");
    reveal_strlit("help");
    reveal_strlit(": ");
    reveal_strlit("  ");
    reveal_strlit("/");
    reveal_strlit("\n");
    is_ascii_spec_bytes("/bin/");
    is_ascii_spec_bytes("exit");
    is_ascii_spec_bytes("help");
    is_ascii_spec_bytes(": ");
    is_ascii_spec_bytes("  ");
    is_ascii_spec_bytes("/");
    is_ascii_spec_bytes("\n");
    assert("/bin/".spec_bytes() =~= seq![0x2fu8, 0x62u8, 0x69u8, 0x6eu8, 0x2fu8]);
    assert("exit".spec_bytes() =~= seq![0x65u8, 0x78u8, 0x69u8, 0x74u8]);
    assert("help".spec_bytes() =~= seq![0x68u8, 0x65u8, 0x6cu8, 0x70u8]);
    assert(": ".spec_bytes() =~= seq![0x3au8, 0x20u8]);
    assert("  ".spec_bytes() =~= seq![0x20u8, 0x20u8]);
    assert("/".spec_bytes() =~= seq![0x2fu8]);
    assert("\n".spec_bytes() =~= seq![0x0au8]);
}

proof fn spaced_nul_free(ws: Seq<Seq<u8>>)
    requires
        forall|i: int| 0 <= i < ws.len() ==> nul_free(#[trigger] ws[i]),
    ensures
        nul_free(spaced(ws)),
    decreases ws.len(),
{
    if ws.len() > 0 {
        assert(nul_free(ws[ws.len() - 1]));
        if ws.len() > 1 {
            let front = ws.drop_last();
            assert forall|i: int| 0 <= i < front.len() implies nul_free(#[trigger] front[i]) by {
                assert(ws[i] == front[i]);
            }
            spaced_nul_free(front);
        }
    }
}

/// A typed line is its words. Without any there is nothing to do, and more
/// than sixteen are too many. `exit` ends the shell with the number behind
/// it, or with zero; `help` asks for help; any other first word names a
/// program, which is run from `/bin` unless the word holds a slash, and gets
/// all the words as its arguments.
pub proof fn typed_words_are_run(ws: Seq<Seq<u8>>, c: Command, n: i32)
    requires
        forall|i: int| 0 <= i < ws.len() ==> is_word(#[trigger] ws[i]) && nul_free(ws[i]),
        asks_for(spaced(ws), c),
        n > i32::MIN,
    ensures
        ws.len() == 0 ==> c == Command::Nothing,
        ws.len() > 16 ==> c == Command::TooManyWords,
        0 < ws.len() <= 16 ==> {
            let exit = ws[0] == seq![0x65u8, 0x78u8, 0x69u8, 0x74u8];
            let help = ws[0] == seq![0x68u8, 0x65u8, 0x6cu8, 0x70u8];
            &&& exit && ws.len() == 1 ==> c == Command::Exit(0)
            &&& exit && ws.len() > 1 && ws[1] == signed_decimal(n as int) ==> c == Command::Exit(n)
            &&& help ==> c == Command::Help
            &&& !exit && !help && ws[0].len() > 251 ==> (c matches Command::NameTooLong(name)
                && name@ == ws[0])
            &&& !exit && !help && ws[0].len() <= 251 ==> (c matches Command::Run { path, argv }
                && argv@.len() == ws.len() && (forall|i: int|
                0 <= i < ws.len() ==> (#[trigger] argv@[i])@ == ws[i]) && path@ == (
            if ws[0].contains(0x2f) {
                ws[0]
            } else {
                seq![0x2fu8, 0x62u8, 0x69u8, 0x6eu8, 0x2fu8] + ws[0]
            }))
        },
{
    let line = spaced(ws);
    spaced_words_are_read_back(ws);
    spaced_nul_free(ws);
    words_are_arguments(line);
    literal_bytes();
    written_number_is_read_back(n);
    assert(arguments(line) == ws);
    if 0 < ws.len() <= 16 {
        if let Command::Run { path, argv } = c {
            assert forall|i: int| 0 <= i < ws.len() && strings(argv@) == ws implies (
            #[trigger] argv@[i])@ == ws[i] by {
                assert(strings(argv@)[i] == ws[i]);
            }
        }
    }
}

/// A listed entry shows its size at the right of eight columns or as many as
/// it needs, two spaces, its name, a slash if it is a directory, and the end
/// of the line.
pub proof fn listed_entry_shows_size_and_name(size: u64, name: Seq<u8>, is_dir: bool)
    ensures
        ({
            let line = entry_line(size, name, is_dir);
            let d = decimal(size as nat);
            let w = if d.len() < 8 {
                8
            } else {
                d.len() as int
            };
            let n = shown(name).len() as int;
            &&& line.len() == w + 2 + n + (if is_dir {
                2int
            } else {
                1int
            })
            &&& forall|k: int| 0 <= k < w - d.len() ==> #[trigger] line[k] == 0x20
            &&& line.subrange(w - d.len(), w) == d
            &&& line[w] == 0x20
            &&& line[w + 1] == 0x20
            &&& line.subrange(w + 2, w + 2 + n) == shown(name)
            &&& is_dir ==> line[w + 2 + n] == 0x2f
            &&& line.last() == 0x0a
        }),
{
    literal_bytes();
    let line = entry_line(size, name, is_dir);
    let d = decimal(size as nat);
    let r = right_aligned(d, 8);
    let w = r.len() as int;
    let n = shown(name).len() as int;
    assert(line.subrange(w - d.len(), w) =~= d);
    assert(line.subrange(w + 2, w + 2 + n) =~= shown(name));
}

/// A complaint names the program, then what it is about, then what went
/// wrong, with a colon and a space between any two, and ends the line.
pub proof fn complaint_says_who_and_what(program: &str, subject: Seq<u8>, code: i64)
    ensures
        ({
            let line = complaint(program, subject, code);
            let p = program.spec_bytes().len() as int;
            let s = shown(subject).len() as int;
            let e = error_text(code).spec_bytes().len() as int;
            &&& line.len() == p + 2 + s + 2 + e + 1
            &&& line.subrange(0, p) == program.spec_bytes()
            &&& line[p] == 0x3a
            &&& line[p + 1] == 0x20
            &&& line.subrange(p + 2, p + 2 + s) == shown(subject)
            &&& line[p + 2 + s] == 0x3a
            &&& line[p + 3 + s] == 0x20
            &&& line.subrange(p + 4 + s, p + 4 + s + e) == error_text(code).spec_bytes()
            &&& line.last() == 0x0a
        }),
{
    literal_bytes();
    let line = complaint(program, subject, code);
    let p = program.spec_bytes().len() as int;
    let s = shown(subject).len() as int;
    let e = error_text(code).spec_bytes().len() as int;
    assert(line.subrange(0, p) =~= program.spec_bytes());
    assert(line.subrange(p + 2, p + 2 + s) =~= shown(subject));
    assert(line.subrange(p + 4 + s, p + 4 + s + e) =~= error_text(code).spec_bytes());
}

/// A buffer goes to the kernel piece by piece: each call has the number
/// asked for, what stands before the piece, and where the piece is and how
/// long.
pub proof fn every_piece_is_one_call(number: u64, first: Option<u64>, ptr: u64, len: u64, k: int)
    requires
        ptr + len <= u64::MAX,
        0 <= k < piece_calls(number, first, ptr as int, len as int).len(),
    ensures
        ({
            let c = piece_calls(number, first, ptr as int, len as int)[k];
            let at = ptr + 256 * k;
            let n = if len - 256 * k < 256 {
                len - 256 * k
            } else {
                256
            };
            &&& c.number == number
            &&& 256 * (piece_calls(number, first, ptr as int, len as int).len() - 1) < len
            &&& len <= 256 * piece_calls(number, first, ptr as int, len as int).len()
            &&& first is None ==> c.args[0] == at && c.args[1] == n
            &&& first is Some ==> c.args[0] == first->0 && c.args[1] == at && c.args[2] == n
        }),
{
}

} // verus!
