//! What the small programs say and decide: `echo`, `cat`, `ls`, `mkdir`.
use crate::fs::{DirEntry, KIND_DIR};
use crate::rt::sys::{error_text, strerror, ENOTDIR};
use crate::rt::text::{
    append_all, append_right_aligned, decimal, decimal_digits, right_aligned, shown, Bytes,
};
use vstd::prelude::*;
use vstd::string::StringSliceAdditionalSpecFns;

verus! {

/// A line that reports an error: who reports it, about what, and which.
pub open spec fn complaint(program: &str, subject: Seq<u8>, code: i64) -> Seq<u8> {
    program.spec_bytes() + ": ".spec_bytes() + shown(subject) + ": ".spec_bytes() + error_text(
        code,
    ).spec_bytes() + "\n".spec_bytes()
}

/// The line that reports an error.
pub fn complain(program: &str, subject: &[u8], code: i64) -> (line: Vec<u8>)
    ensures
        line@ == complaint(program, subject@, code),
{
    let mut line: Vec<u8> = Vec::new();
    append_all(&mut line, program.as_bytes());
    append_all(&mut line, ": ".as_bytes());
    append_all(&mut line, Bytes(subject).text().as_slice());
    append_all(&mut line, ": ".as_bytes());
    append_all(&mut line, strerror(code).as_bytes());
    append_all(&mut line, "\n".as_bytes());
    assert(line@ =~= complaint(program, subject@, code));
    line
}

/// Words with a space between any two.
pub open spec fn spaced(words: Seq<Seq<u8>>) -> Seq<u8>
    decreases words.len(),
{
    if words.len() == 0 {
        Seq::empty()
    } else if words.len() == 1 {
        words[0]
    } else {
        spaced(words.drop_last()).push(0x20) + words.last()
    }
}

/// Slices as sequences.
pub open spec fn words_view(words: Seq<&[u8]>) -> Seq<Seq<u8>> {
    Seq::new(words.len(), |i: int| words[i]@)
}

/// What `echo` prints: its arguments but for its own name, with a space
/// between any two, and a new line.
pub fn echo(args: &[&[u8]]) -> (out: Vec<u8>)
    ensures
        out@ == spaced(
            words_view(args@).skip(
                if args@.len() == 0 {
                    0
                } else {
                    1
                },
            ),
        ).push(0x0a),
{
    let mut out: Vec<u8> = Vec::new();
    let ghost words = words_view(args@).skip(
        if args@.len() == 0 {
            0
        } else {
            1
        },
    );
    assert(words.take(0) =~= Seq::<Seq<u8>>::empty());
    let mut i: usize = 1;
    while i < args.len()
        invariant
            1 <= i,
            args@.len() > 0 ==> i <= args@.len(),
            args@.len() > 0 ==> words == words_view(args@).skip(1),
            args@.len() > 0 ==> out@ == spaced(words.take(i - 1)),
            args@.len() == 0 ==> words.len() == 0 && i == 1 && out@.len() == 0,
        decreases args@.len() - i,
    {
        let ghost before = words.take(i - 1);
        let ghost after = words.take(i as int);
        if i > 1 {
            out.push(0x20);
        }
        append_all(&mut out, args[i]);
        proof {
            assert(after.last() == args@[i as int]@);
            assert(after.drop_last() =~= before);
            if i == 1 {
                assert(out@ =~= after[0]);
            }
        }
        i += 1;
    }
    proof {
        if args@.len() > 0 {
            assert(words.take(i - 1) =~= words);
        } else {
            assert(words =~= Seq::<Seq<u8>>::empty());
            assert(out@ =~= spaced(words));
        }
    }
    out.push(0x0a);
    out
}

/// What `ls` prints of an entry: its size in eight columns, two spaces, its
/// name, and a slash behind a directory's.
pub open spec fn entry_line(size: u64, name: Seq<u8>, is_dir: bool) -> Seq<u8> {
    right_aligned(decimal(size as nat), 8) + "  ".spec_bytes() + shown(name) + (if is_dir {
        "/".spec_bytes()
    } else {
        Seq::empty()
    }) + "\n".spec_bytes()
}

fn print_entry(entry: &DirEntry) -> (line: Vec<u8>)
    ensures
        line@ == entry_line(entry.size, entry.name_bytes(), entry.kind == KIND_DIR),
{
    let mut line: Vec<u8> = Vec::new();
    append_right_aligned(&mut line, decimal_digits(entry.size).as_slice(), 8);
    append_all(&mut line, "  ".as_bytes());
    append_all(&mut line, Bytes(entry.name()).text().as_slice());
    if entry.is_dir() {
        append_all(&mut line, "/".as_bytes());
    }
    append_all(&mut line, "\n".as_bytes());
    assert(line@ =~= entry_line(entry.size, entry.name_bytes(), entry.kind == KIND_DIR));
    line
}

/// What `ls` does after it has asked for an entry of a directory.
pub enum ListStep {
    /// Print this, and ask for the next entry.
    Print(Vec<u8>),
    /// All entries are listed.
    Done,
    /// It is no directory: see whether it is a file.
    TryFile,
    /// Print this; the directory cannot be listed.
    Fail(Vec<u8>),
}

/// What `ls` does about the answer to its question for one more entry of
/// `dir`.
pub fn list(dir: &[u8], answer: Result<Option<DirEntry>, i64>) -> (step: ListStep)
    ensures
        match answer {
            Ok(Some(entry)) => step matches ListStep::Print(line) && line@ == entry_line(
                entry.size,
                entry.name_bytes(),
                entry.kind == KIND_DIR,
            ),
            Ok(None) => step is Done,
            Err(code) => if code == ENOTDIR {
                step is TryFile
            } else {
                step matches ListStep::Fail(line) && line@ == complaint("ls", dir@, code)
            },
        },
{
    match answer {
        Ok(Some(entry)) => ListStep::Print(print_entry(&entry)),
        Ok(None) => ListStep::Done,
        Err(code) => if code == ENOTDIR {
            ListStep::TryFile
        } else {
            ListStep::Fail(complain("ls", dir, code))
        },
    }
}

/// What `ls` prints of something that is no directory, given how opening it
/// as a file went, and whether that is a success.
pub fn list_file(path: &[u8], opened: Result<i64, i64>) -> (r: (Vec<u8>, bool))
    ensures
        match opened {
            Ok(_) => r.1 && r.0@ == shown(path@) + "\n".spec_bytes(),
            Err(code) => !r.1 && r.0@ == complaint("ls", path@, code),
        },
{
    match opened {
        Ok(_) => {
            let mut line = Bytes(path).text();
            append_all(&mut line, "\n".as_bytes());
            (line, true)
        },
        Err(code) => (complain("ls", path, code), false),
    }
}

/// What `ls` prints before the entries of directory number `i` of `n`: its
/// name if there are several, after an empty line if it is not the first.
pub fn list_heading(dir: &[u8], i: usize, n: usize) -> (out: Vec<u8>)
    ensures
        out@ == (if n <= 1 {
            Seq::empty()
        } else {
            (if i > 0 {
                "\n".spec_bytes()
            } else {
                Seq::empty()
            }) + shown(dir@) + ":\n".spec_bytes()
        }),
{
    let mut out: Vec<u8> = Vec::new();
    if n > 1 {
        if i > 0 {
            append_all(&mut out, "\n".as_bytes());
        }
        append_all(&mut out, Bytes(dir).text().as_slice());
        append_all(&mut out, ":\n".as_bytes());
    }
    assert(out@ =~= (if n <= 1 {
        Seq::empty()
    } else {
        (if i > 0 {
            "\n".spec_bytes()
        } else {
            Seq::empty()
        }) + shown(dir@) + ":\n".spec_bytes()
    }));
    out
}

/// What `cat` does after it has read from a file.
pub enum CatStep {
    /// Write that many bytes of the buffer, and read on.
    Write(usize),
    /// The file is at its end.
    Done,
    /// Print this, and go on with the next file.
    Fail(Vec<u8>),
}

/// What `cat` does about the answer to a read.
pub fn cat_step(path: &[u8], answer: Result<usize, i64>) -> (step: CatStep)
    ensures
        match answer {
            Ok(n) => if n == 0 {
                step is Done
            } else {
                step == CatStep::Write(n)
            },
            Err(code) => step matches CatStep::Fail(line) && line@ == complaint(
                "cat",
                path@,
                code,
            ),
        },
{
    match answer {
        Ok(n) => if n == 0 {
            CatStep::Done
        } else {
            CatStep::Write(n)
        },
        Err(code) => CatStep::Fail(complain("cat", path, code)),
    }
}

/// The exit status of `cat` or `mkdir`: 2 without anything to work on, 1 if
/// anything failed, else 0.
pub fn tool_status(args: usize, failures: usize) -> (status: i32)
    ensures
        status == (if args < 2 {
            2i32
        } else if failures > 0 {
            1
        } else {
            0
        }),
{
    if args < 2 {
        2
    } else if failures > 0 {
        1
    } else {
        0
    }
}

} // verus!
