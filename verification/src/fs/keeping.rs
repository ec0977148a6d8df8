//! What the file system keeps, and how it is found again.
use vstd::prelude::*;

use crate::fs::{
    base_name, dirs_in, file_at_bound, files_in, free_fd_bound, good_path, last_slash, parent_of,
    reports, root, spliced, DirEntry, FileModel, FsModel, Listed, OpenFile, Owner,
};

verus! {

/// A write puts its bytes where the descriptor is, one after the other,
/// changes none before or behind them, makes the file just long enough, and
/// leaves the descriptor behind what it wrote.
pub proof fn write_goes_where_the_descriptor_is(m: FsModel, fd: i64, bytes: Seq<u8>, k: int)
    requires
        m.wf(),
        0 <= fd < m.open.len(),
        m.open[fd as int] is Some,
        (m.open[fd as int]->0).position + bytes.len() <= usize::MAX,
    ensures
        ({
            let of = m.open[fd as int]->0;
            let before = m.files[of.file_index as int].data;
            let n = m.written(fd, bytes);
            let after = n.files[of.file_index as int].data;
            let at = of.position as int;
            &&& at <= k < at + bytes.len() ==> after[k] == bytes[k - at]
            &&& 0 <= k < at || at + bytes.len() <= k < before.len() ==> after[k] == before[k]
            &&& after.len() == (if at + bytes.len() > before.len() {
                at + bytes.len()
            } else {
                before.len() as int
            })
            &&& n.open[fd as int] == Some(
                OpenFile { position: (at + bytes.len()) as usize, ..of },
            )
            &&& n.files[of.file_index as int].path == m.files[of.file_index as int].path
            &&& n.files.len() == m.files.len()
            &&& n.dirs == m.dirs
        }),
{
}

/// Using one descriptor moves no other.
pub proof fn descriptors_move_alone(m: FsModel, fd: i64, other: int, bytes: Seq<u8>, at: int)
    requires
        0 <= fd < m.open.len(),
        0 <= other < m.open.len(),
        other != fd,
    ensures
        m.written(fd, bytes).open[other] == m.open[other],
        m.moved(fd, at).open[other] == m.open[other],
        m.moved(fd, at).files == m.files,
        m.moved(fd, at).dirs == m.dirs,
{
}

/// A read gives the bytes from where the descriptor is, as many as were
/// asked for or as there are left.
pub proof fn read_starts_where_the_descriptor_is(m: FsModel, fd: i64, len: int, k: int)
    requires
        m.wf(),
        0 <= fd < m.open.len(),
        m.open[fd as int] is Some,
        0 <= len,
    ensures
        ({
            let of = m.open[fd as int]->0;
            let data = m.files[of.file_index as int].data;
            let got = m.readable(fd, len);
            &&& got.len() == (if data.len() - of.position < len {
                data.len() - of.position
            } else {
                len
            })
            &&& 0 <= k < got.len() ==> got[k] == data[of.position + k]
        }),
{
}

/// Reading in two pieces gives what reading in one does.
pub proof fn reads_go_on(m: FsModel, fd: i64, a: int, b: int)
    requires
        m.wf(),
        0 <= fd < m.open.len(),
        m.open[fd as int] is Some,
        0 <= a,
        0 <= b,
        m.files[(m.open[fd as int]->0).file_index as int].data.len() <= usize::MAX,
    ensures
        ({
            let of = m.open[fd as int]->0;
            let first = m.readable(fd, a);
            let n = m.moved(fd, of.position + first.len());
            first + n.readable(fd, b) == m.readable(fd, a + b)
        }),
{
    let of = m.open[fd as int]->0;
    let data = m.files[of.file_index as int].data;
    let first = m.readable(fd, a);
    let n = m.moved(fd, of.position + first.len());
    assert(of.position + first.len() <= data.len());
    assert(first + n.readable(fd, b) =~= m.readable(fd, a + b));
}

/// Writing in two pieces is writing in one.
pub proof fn writes_go_on(m: FsModel, fd: i64, a: Seq<u8>, b: Seq<u8>)
    requires
        m.wf(),
        0 <= fd < m.open.len(),
        m.open[fd as int] is Some,
        (m.open[fd as int]->0).position + a.len() + b.len() <= usize::MAX,
    ensures
        m.written(fd, a).written(fd, b) == m.written(fd, a + b),
{
    let of = m.open[fd as int]->0;
    let i = of.file_index as int;
    let data = m.files[i].data;
    let at = of.position as int;
    let n = m.written(fd, a).written(fd, b);
    let w = m.written(fd, a + b);
    assert(spliced(spliced(data, at, a), at + a.len(), b) =~= spliced(data, at, a + b));
    assert(n.files =~= w.files);
    assert(n.open =~= w.open);
}

/// A file that is opened for the first time is empty; one that was there
/// keeps what it holds, and no file or directory changes otherwise.
pub proof fn opening_keeps_what_is_there(m: FsModel, p: Seq<u8>, i: int)
    requires
        m.wf(),
        0 <= i < m.files.len(),
    ensures
        m.with_file(p).files[i] == m.files[i],
        m.with_file(p).dirs == m.dirs,
        m.with_file(p).open == m.open,
        m.with_file(p).is_file(p),
        m.is_file(p) ==> m.with_file(p) == m,
        !m.is_file(p) ==> {
            &&& m.with_file(p).files.len() == m.files.len() + 1
            &&& m.with_file(p).files.last() == (FileModel { path: p, data: Seq::empty() })
        },
{
    let n = m.with_file(p);
    if !m.is_file(p) {
        assert(n.paths()[m.files.len() as int] == p);
    }
}

/// Two files at one path are one file: opening it twice gives descriptors of
/// the same file, each at its beginning.
pub proof fn one_path_is_one_file(m: FsModel, p: Seq<u8>, i: int)
    requires
        m.wf(),
        0 <= i < m.files.len(),
        m.files[i].path == p,
    ensures
        m.file_at(p) == i,
{
    assert(m.paths()[i] == p);
    file_at_bound(m, p);
    position_is(m.paths(), p, m.files.len() as int, i);
}

proof fn position_is(s: Seq<Seq<u8>>, x: Seq<u8>, n: int, i: int)
    requires
        0 <= n <= s.len(),
        0 <= i < s.len(),
        s[i] == x,
        forall|k: int| 0 <= k < s.len() && k != i ==> #[trigger] s[k] != x,
    ensures
        crate::fs::position_of(s, x, n) == (if i < n {
            i
        } else {
            n
        }),
    decreases n,
{
    if n > 0 {
        position_is(s, x, n - 1, i);
    }
}

/// A new descriptor is the lowest that is not in use, and no other changes.
pub proof fn lowest_descriptor_is_used(m: FsModel, of: OpenFile, k: int)
    requires
        0 <= k < m.open.len(),
    ensures
        ({
            let fd = m.free_fd();
            let n = m.with_fd(of);
            &&& 0 <= fd <= m.open.len()
            &&& n.open[fd] == Some(of)
            &&& k < fd ==> m.open[k] is Some
            &&& k != fd ==> n.open[k] == m.open[k]
            &&& fd < m.open.len() ==> m.open[fd] is None
            &&& n.files == m.files
        }),
{
    free_fd_bound(m.open, m.open.len() as int);
}

/// Why a file cannot be opened or made: the path is spelled wrong (-22), a
/// directory is there (-21), the one it would be in is a file (-20) or is
/// not there (-2); in that order, and for no other reason.
pub proof fn why_a_file_cannot_be_opened(m: FsModel, p: Seq<u8>)
    ensures
        !good_path(p) ==> m.open_fault(p) == Some(-22i64),
        good_path(p) && m.is_dir(p) ==> m.open_fault(p) == Some(-21i64),
        good_path(p) && !m.is_dir(p) && m.is_file(parent_of(p)) ==> m.open_fault(p) == Some(-20i64),
        good_path(p) && !m.is_dir(p) && !m.is_file(parent_of(p)) && !m.is_dir(parent_of(p))
            ==> m.open_fault(p) == Some(-2i64),
        good_path(p) && !m.is_dir(p) && !m.is_file(parent_of(p)) && m.is_dir(parent_of(p))
            ==> m.open_fault(p) is None,
{
}

/// Why a directory cannot be made: the path is spelled wrong or is the root
/// (-22), the one it would be in is a file (-20) or is not there (-2), or
/// something is there already (-17); in that order, and for no other reason.
pub proof fn why_a_directory_cannot_be_made(m: FsModel, p: Seq<u8>)
    ensures
        !good_path(p) || p == root() ==> m.mkdir_fault(p) == Some(-22i64),
        good_path(p) && p != root() && m.is_file(parent_of(p)) ==> m.mkdir_fault(p) == Some(-20i64),
        good_path(p) && p != root() && !m.is_file(parent_of(p)) && !m.is_dir(parent_of(p))
            ==> m.mkdir_fault(p) == Some(-2i64),
        good_path(p) && p != root() && !m.is_file(parent_of(p)) && m.is_dir(parent_of(p)) && (
        m.is_dir(p) || m.is_file(p)) ==> m.mkdir_fault(p) == Some(-17i64),
        good_path(p) && p != root() && !m.is_file(parent_of(p)) && m.is_dir(parent_of(p))
            && !m.is_dir(p) && !m.is_file(p) ==> m.mkdir_fault(p) is None,
{
}

/// A path is spelled well if it starts with a slash and every name in it is
/// followed by one slash and another name, or by nothing: a directory's good
/// path and a name without a slash make a good path, and so does the root
/// alone.
pub proof fn good_paths_are_built_of_names(p: Seq<u8>, name: Seq<u8>)
    requires
        good_path(p),
        name.len() > 0,
        forall|k: int| 0 <= k < name.len() ==> #[trigger] name[k] != 0x2f,
    ensures
        good_path(root()),
        p == root() ==> good_path(p + name),
        p != root() ==> good_path(p + root() + name),
        !good_path(Seq::empty()),
        !good_path(name),
        !good_path(p + root() + root() + name),
        !good_path(p + root() + name + root()),
{
    let a = p + name;
    let b = p + root() + name;
    assert(name[0] != 0x2f);
    assert(name[name.len() - 1] != 0x2f);
    if p == root() {
        assert forall|i: int| 0 <= i < a.len() - 1 && #[trigger] a[i] == 0x2f implies a[i + 1]
            != 0x2f by {
            if i > 0 {
                assert(name[i - 1] != 0x2f);
            }
        }
    } else {
        if p.len() == 1 {
            assert(p =~= root());
        }
        assert forall|i: int| 0 <= i < b.len() - 1 && #[trigger] b[i] == 0x2f implies b[i + 1]
            != 0x2f by {
            if i < p.len() - 1 {
                assert(p[i] == 0x2f);
            } else if i == p.len() - 1 {
                assert(p.last() == 0x2f);
            } else if i > p.len() {
                assert(name[i - p.len() - 1] != 0x2f);
            }
        }
    }
    let twice = p + root() + root() + name;
    assert(twice[p.len() as int] == 0x2f && twice[p.len() as int + 1] == 0x2f);
    let end = p + root() + name + root();
    assert(end.last() == 0x2f);
}

proof fn slash_place(p: Seq<u8>)
    ensures
        -1 <= last_slash(p) < p.len(),
        last_slash(p) >= 0 ==> p[last_slash(p)] == 0x2f,
        forall|k: int| last_slash(p) < k < p.len() ==> #[trigger] p[k] != 0x2f,
    decreases p.len(),
{
    if p.len() > 0 && p.last() != 0x2f {
        slash_place(p.drop_last());
        assert forall|k: int| last_slash(p) < k < p.len() implies #[trigger] p[k] != 0x2f by {
            if k < p.len() - 1 {
                assert(p.drop_last()[k] == p[k]);
            }
        }
    }
}

/// A path is the path of its directory, a slash unless that is the root, and
/// its last name, which has no slash in it and is not empty; the directory's
/// path is itself spelled well.
pub proof fn path_is_directory_and_name(p: Seq<u8>)
    requires
        good_path(p),
        p != root(),
    ensures
        parent_of(p) == root() ==> p == root() + base_name(p),
        parent_of(p) != root() ==> p == parent_of(p) + root() + base_name(p),
        base_name(p).len() > 0,
        forall|k: int| 0 <= k < base_name(p).len() ==> #[trigger] base_name(p)[k] != 0x2f,
        good_path(parent_of(p)),
        parent_of(p).len() < p.len(),
{
    slash_place(p);
    let s = last_slash(p);
    assert(p[0] == 0x2f);
    if s == p.len() - 1 {
        if p.len() == 1 {
            assert(p =~= root());
        }
        assert(false);
    }
    assert(s >= 0);
    if s == 0 {
        assert(p =~= root() + base_name(p));
        if p.len() == 1 {
            assert(p =~= root());
        }
    } else {
        let q = p.take(s);
        assert(q[0] == 0x2f);
        assert(p =~= q + root() + base_name(p));
        if q.len() > 1 {
            assert(q.last() == p[s - 1]);
            assert(p[s - 1] != 0x2f);
        }
        if q == root() {
            assert(p[0] == 0x2f && p[1] == 0x2f);
        }
        assert(good_path(q)) by {
            assert forall|i: int| 0 <= i < q.len() - 1 && #[trigger] q[i] == 0x2f implies q[i + 1]
                != 0x2f by {
                assert(p[i] == 0x2f);
            }
        }
    }
    assert forall|k: int| 0 <= k < base_name(p).len() implies #[trigger] base_name(p)[k] != 0x2f by {
        assert(p[s + 1 + k] != 0x2f);
    }
}

/// A listing names the directories in a directory before the files in it,
/// each by its last name and with its kind, a file with its size; whatever
/// is in the directory is listed.
pub proof fn listing_names_what_is_there(m: FsModel, p: Seq<u8>, i: int)
    ensures
        0 <= i < m.dirs.len() && parent_of(m.dirs[i]) == p ==> m.listing(p).contains(
            Listed { name: base_name(m.dirs[i]), kind: 1, size: 0 },
        ),
        0 <= i < m.files.len() && parent_of(m.files[i].path) == p ==> m.listing(p).contains(
            Listed {
                name: base_name(m.files[i].path),
                kind: 0,
                size: m.files[i].data.len() as u64,
            },
        ),
{
    let d = dirs_in(m.dirs, p, m.dirs.len() as int);
    let f = files_in(m.files, p, m.files.len() as int);
    if 0 <= i < m.dirs.len() && parent_of(m.dirs[i]) == p {
        let k = listed_dir(m.dirs, p, m.dirs.len() as int, i);
        assert(m.listing(p)[k] == d[k]);
    }
    if 0 <= i < m.files.len() && parent_of(m.files[i].path) == p {
        let k = listed_file(m.files, p, m.files.len() as int, i);
        assert(m.listing(p)[d.len() + k] == f[k]);
    }
}

proof fn listed_dir(dirs: Seq<Seq<u8>>, p: Seq<u8>, n: int, i: int) -> (k: int)
    requires
        0 <= i < n <= dirs.len(),
        parent_of(dirs[i]) == p,
    ensures
        0 <= k < dirs_in(dirs, p, n).len(),
        dirs_in(dirs, p, n)[k] == (Listed { name: base_name(dirs[i]), kind: 1, size: 0 }),
    decreases n,
{
    if i == n - 1 {
        dirs_in(dirs, p, n - 1).len() as int
    } else {
        listed_dir(dirs, p, n - 1, i)
    }
}

proof fn listed_file(files: Seq<FileModel>, p: Seq<u8>, n: int, i: int) -> (k: int)
    requires
        0 <= i < n <= files.len(),
        parent_of(files[i].path) == p,
    ensures
        0 <= k < files_in(files, p, n).len(),
        files_in(files, p, n)[k] == (Listed {
            name: base_name(files[i].path),
            kind: 0,
            size: files[i].data.len() as u64,
        }),
    decreases n,
{
    if i == n - 1 {
        files_in(files, p, n - 1).len() as int
    } else {
        listed_file(files, p, n - 1, i)
    }
}

/// Whatever a listing names is there.
pub proof fn listed_is_there(m: FsModel, p: Seq<u8>, k: int)
    requires
        0 <= k < m.listing(p).len(),
    ensures
        ({
            let e = m.listing(p)[k];
            ||| exists|i: int|
                0 <= i < m.dirs.len() && parent_of(#[trigger] m.dirs[i]) == p && e == (Listed {
                    name: base_name(m.dirs[i]),
                    kind: 1,
                    size: 0,
                })
            ||| exists|i: int|
                0 <= i < m.files.len() && parent_of((#[trigger] m.files[i]).path) == p && e == (
                Listed {
                    name: base_name(m.files[i].path),
                    kind: 0,
                    size: m.files[i].data.len() as u64,
                })
        }),
{
    let d = dirs_in(m.dirs, p, m.dirs.len() as int);
    if k < d.len() {
        let i = dir_listed(m.dirs, p, m.dirs.len() as int, k);
        assert(parent_of(m.dirs[i]) == p);
    } else {
        let i = file_listed(m.files, p, m.files.len() as int, k - d.len());
        assert(parent_of(m.files[i].path) == p);
    }
}

proof fn dir_listed(dirs: Seq<Seq<u8>>, p: Seq<u8>, n: int, k: int) -> (i: int)
    requires
        n <= dirs.len(),
        0 <= k < dirs_in(dirs, p, n).len(),
    ensures
        0 <= i < n,
        parent_of(dirs[i]) == p,
        dirs_in(dirs, p, n)[k] == (Listed { name: base_name(dirs[i]), kind: 1, size: 0 }),
    decreases n,
{
    if k == dirs_in(dirs, p, n - 1).len() {
        n - 1
    } else {
        dir_listed(dirs, p, n - 1, k)
    }
}

proof fn file_listed(files: Seq<FileModel>, p: Seq<u8>, n: int, k: int) -> (i: int)
    requires
        n <= files.len(),
        0 <= k < files_in(files, p, n).len(),
    ensures
        0 <= i < n,
        parent_of(files[i].path) == p,
        files_in(files, p, n)[k] == (Listed {
            name: base_name(files[i].path),
            kind: 0,
            size: files[i].data.len() as u64,
        }),
    decreases n,
{
    if k == files_in(files, p, n - 1).len() {
        n - 1
    } else {
        file_listed(files, p, n - 1, k)
    }
}

/// A listing names each thing once: as many directories as are in there, and
/// as many files.
pub proof fn listing_grows_with_what_is_made(m: FsModel, p: Seq<u8>, q: Seq<u8>)
    ensures
        (FsModel { dirs: m.dirs.push(q), ..m }).listing(p).len() == m.listing(p).len() + (if parent_of(
            q,
        ) == p {
            1nat
        } else {
            0nat
        }),
        (FsModel { files: m.files.push(FileModel { path: q, data: Seq::empty() }), ..m }).listing(
            p,
        ).len() == m.listing(p).len() + (if parent_of(q) == p {
            1nat
        } else {
            0nat
        }),
{
    same_dirs(m.dirs, m.dirs.push(q), p, m.dirs.len() as int);
    let files = m.files.push(FileModel { path: q, data: Seq::empty() });
    same_files(m.files, files, p, m.files.len() as int);
}

proof fn same_dirs(a: Seq<Seq<u8>>, b: Seq<Seq<u8>>, p: Seq<u8>, n: int)
    requires
        n <= a.len(),
        n <= b.len(),
        forall|k: int| 0 <= k < n ==> #[trigger] a[k] == b[k],
    ensures
        dirs_in(a, p, n) == dirs_in(b, p, n),
    decreases n,
{
    if n > 0 {
        same_dirs(a, b, p, n - 1);
        assert(a[n - 1] == b[n - 1]);
    }
}

proof fn same_files(a: Seq<FileModel>, b: Seq<FileModel>, p: Seq<u8>, n: int)
    requires
        n <= a.len(),
        n <= b.len(),
        forall|k: int| 0 <= k < n ==> #[trigger] a[k] == b[k],
    ensures
        files_in(a, p, n) == files_in(b, p, n),
    decreases n,
{
    if n > 0 {
        same_files(a, b, p, n - 1);
        assert(a[n - 1] == b[n - 1]);
    }
}

/// An entry reports a name byte by byte, as far as 118 bytes go.
pub proof fn entry_has_the_name(e: DirEntry, l: Listed, k: int)
    requires
        reports(e, l),
    ensures
        e.kind == l.kind,
        e.size == l.size,
        e.name_bytes().len() == (if l.name.len() > 118 {
            118
        } else {
            l.name.len()
        }),
        0 <= k < e.name_bytes().len() ==> e.name_bytes()[k] == l.name[k],
{
}

/// A descriptor belongs to the team that opened it, of that generation, and
/// answers to nobody else.
pub proof fn descriptor_answers_to_its_owner(m: FsModel, fd: i64, owner: Owner)
    ensures
        m.open_of(fd, owner) is Some <==> 0 <= fd < m.open.len() && m.open[fd as int] is Some && (
        m.open[fd as int]->0).owner.team == owner.team && (m.open[fd as int]->0).owner.generation
            == owner.generation,
        m.open_of(fd, owner) is Some ==> m.open_of(fd, owner) == m.open[fd as int],
{
}

} // verus!
