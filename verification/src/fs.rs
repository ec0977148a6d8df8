//! The file server: an in-memory file system that answers requests to open,
//! read, write, close and list.
use vstd::prelude::*;

use vstd::slice::slice_subrange;

use crate::bytes::{put_word, word_bytes};

pub mod keeping;
pub mod server;

verus! {

pub const FS_OPEN: i32 = 300;
pub const FS_READ: i32 = 301;
pub const FS_WRITE: i32 = 302;
pub const FS_MKDIR: i32 = 303;

/// Results below zero are errors.
pub const ENOENT: i64 = -2;
pub const EBADF: i64 = -9;
pub const EEXIST: i64 = -17;
pub const ENOTDIR: i64 = -20;
pub const EISDIR: i64 = -21;
pub const EINVAL: i64 = -22;

/// Kinds of directory entries.
pub const KIND_FILE: u8 = 0;
pub const KIND_DIR: u8 = 1;

/// Longest entry name a listing reports.
pub const DIRENT_NAME_MAX: usize = 118;

const SLASH: u8 = 0x2f;

/// Who opened a file: a team, by its leader's number and generation.
#[derive(Clone, Copy, Debug, PartialEq, Eq, Structural)]
pub struct Owner {
    pub team: i32,
    pub generation: u32,
}

/// An open file: which one, how far it was read or written, and for whom.
#[derive(Clone, Copy, Debug, PartialEq, Eq, Structural)]
pub struct OpenFile {
    pub file_index: usize,
    pub position: usize,
    pub owner: Owner,
}

/// One directory entry.
#[derive(Clone, Copy)]
pub struct DirEntry {
    pub size: u64,
    pub kind: u8,
    pub name_len: u8,
    pub name: [u8; DIRENT_NAME_MAX],
}

impl DirEntry {
    /// An entry with nothing in it.
    pub fn empty() -> (e: DirEntry)
        ensures
            e.size == 0,
            e.kind == 0,
            e.name_len == 0,
            e.name@ == Seq::new(DIRENT_NAME_MAX as nat, |i: int| 0u8),
    {
        let e = DirEntry { size: 0, kind: 0, name_len: 0, name: [0;DIRENT_NAME_MAX] };
        assert(e.name@ =~= Seq::new(DIRENT_NAME_MAX as nat, |i: int| 0u8));
        e
    }

    /// The bytes of the name.
    pub open spec fn name_bytes(self) -> Seq<u8> {
        self.name@.take(
            if self.name_len > DIRENT_NAME_MAX {
                DIRENT_NAME_MAX as int
            } else {
                self.name_len as int
            },
        )
    }

    /// The entry's name.
    pub fn name(&self) -> (r: &[u8])
        ensures
            r@ == self.name_bytes(),
    {
        let n: usize = if self.name_len as usize > DIRENT_NAME_MAX {
            DIRENT_NAME_MAX
        } else {
            self.name_len as usize
        };
        assert(self.name@.subrange(0, n as int) =~= self.name_bytes());
        slice_subrange(&self.name, 0, n)
    }

    /// The entry as it lies in memory: the size, the lowest byte first, then
    /// kind, length of the name, and name.
    pub fn bytes(&self) -> (v: Vec<u8>)
        ensures
            v@ == word_bytes(self.size) + seq![self.kind, self.name_len] + self.name@,
    {
        let mut v: Vec<u8> = Vec::new();
        put_word(&mut v, self.size);
        v.push(self.kind);
        v.push(self.name_len);
        let ghost head = word_bytes(self.size) + seq![self.kind, self.name_len];
        assert(v@ =~= head);
        let mut k: usize = 0;
        while k < DIRENT_NAME_MAX
            invariant
                k <= DIRENT_NAME_MAX,
                self.name@.len() == DIRENT_NAME_MAX,
                v@ == head + self.name@.take(k as int),
            decreases DIRENT_NAME_MAX - k,
        {
            v.push(self.name[k]);
            k = k + 1;
            assert(v@ =~= head + self.name@.take(k as int));
        }
        assert(self.name@.take(k as int) =~= self.name@);
        v
    }

    /// Whether the entry is a directory.
    pub fn is_dir(&self) -> (r: bool)
        ensures
            r == (self.kind == KIND_DIR),
    {
        self.kind == KIND_DIR
    }
}

/// The path of the root directory.
pub open spec fn root() -> Seq<u8> {
    seq![0x2fu8]
}

/// Whether a path has the one spelling that is accepted: absolute, without
/// two slashes in a row, and without one at the end unless it is the root.
pub open spec fn good_path(p: Seq<u8>) -> bool {
    &&& p.len() > 0
    &&& p[0] == 0x2f
    &&& p.len() > 1 ==> p.last() != 0x2f
    &&& forall|i: int| 0 <= i < p.len() - 1 && #[trigger] p[i] == 0x2f ==> p[i + 1] != 0x2f
}

/// Where the last slash of a path is, or -1.
pub open spec fn last_slash(p: Seq<u8>) -> int
    decreases p.len(),
{
    if p.len() == 0 {
        -1
    } else if p.last() == 0x2f {
        p.len() - 1
    } else {
        last_slash(p.drop_last())
    }
}

/// The directory that a path's last component lives in.
pub open spec fn parent_of(p: Seq<u8>) -> Seq<u8> {
    if last_slash(p) <= 0 {
        root()
    } else {
        p.take(last_slash(p))
    }
}

/// The last component of a path.
pub open spec fn base_name(p: Seq<u8>) -> Seq<u8> {
    p.skip(last_slash(p) + 1)
}

/// A file: its path and its contents.
pub struct File {
    path: Vec<u8>,
    data: Vec<u8>,
}

/// A file, as sequences.
pub struct FileModel {
    pub path: Seq<u8>,
    pub data: Seq<u8>,
}

impl View for File {
    type V = FileModel;

    closed spec fn view(&self) -> FileModel {
        FileModel { path: self.path@, data: self.data@ }
    }
}

/// What a file system holds: files and directories in the order they were
/// made, and who has what open under which descriptor.
#[verifier::ext_equal]
pub struct FsModel {
    pub files: Seq<FileModel>,
    pub dirs: Seq<Seq<u8>>,
    pub open: Seq<Option<OpenFile>>,
}

/// The first of the first `n` entries that is `x`, or `n`.
pub open spec fn position_of(s: Seq<Seq<u8>>, x: Seq<u8>, n: int) -> int
    decreases n,
{
    if n <= 0 {
        0
    } else {
        let i = position_of(s, x, n - 1);
        if i < n - 1 || s[n - 1] == x {
            i
        } else {
            n
        }
    }
}

/// Contents `data` with `bytes` written at `at`.
pub open spec fn spliced(data: Seq<u8>, at: int, bytes: Seq<u8>) -> Seq<u8> {
    if at + bytes.len() >= data.len() {
        data.take(at) + bytes
    } else {
        data.take(at) + bytes + data.skip(at + bytes.len())
    }
}

impl FsModel {
    /// The paths of the files.
    pub open spec fn paths(self) -> Seq<Seq<u8>> {
        self.files.map_values(|f: FileModel| f.path)
    }

    pub open spec fn is_dir(self, p: Seq<u8>) -> bool {
        p == root() || self.dirs.contains(p)
    }

    pub open spec fn is_file(self, p: Seq<u8>) -> bool {
        self.paths().contains(p)
    }

    /// The index of the file at path `p`, or how many files there are.
    pub open spec fn file_at(self, p: Seq<u8>) -> int {
        position_of(self.paths(), p, self.files.len() as int)
    }

    /// The lowest descriptor that is not in use.
    pub open spec fn free_fd(self) -> int {
        crate::fs::first_none(self.open, self.open.len() as int)
    }

    /// `of` is open under the lowest free descriptor.
    pub open spec fn with_fd(self, of: OpenFile) -> FsModel {
        let fd = self.free_fd();
        FsModel {
            open: if fd < self.open.len() {
                self.open.update(fd, Some(of))
            } else {
                self.open.push(Some(of))
            },
            ..self
        }
    }

    /// Why a directory cannot be made at `p`.
    pub open spec fn mkdir_fault(self, p: Seq<u8>) -> Option<i64> {
        if !good_path(p) || p == root() {
            Some(EINVAL)
        } else if self.is_file(parent_of(p)) {
            Some(ENOTDIR)
        } else if !self.is_dir(parent_of(p)) {
            Some(ENOENT)
        } else if self.is_dir(p) || self.is_file(p) {
            Some(EEXIST)
        } else {
            None
        }
    }

    /// Why no file can be opened at `p`, if a missing one is made.
    pub open spec fn open_fault(self, p: Seq<u8>) -> Option<i64> {
        if !good_path(p) {
            Some(EINVAL)
        } else if self.is_dir(p) {
            Some(EISDIR)
        } else if self.is_file(parent_of(p)) {
            Some(ENOTDIR)
        } else if !self.is_dir(parent_of(p)) {
            Some(ENOENT)
        } else {
            None
        }
    }

    /// The file at `p` exists.
    pub open spec fn with_file(self, p: Seq<u8>) -> FsModel {
        if self.is_file(p) {
            self
        } else {
            FsModel { files: self.files.push(FileModel { path: p, data: Seq::empty() }), ..self }
        }
    }

    /// What `owner` has open under descriptor `fd`.
    pub open spec fn open_of(self, fd: i64, owner: Owner) -> Option<OpenFile> {
        if 0 <= fd < self.open.len() && self.open[fd as int] is Some && (
        self.open[fd as int]->0).owner == owner {
            self.open[fd as int]
        } else {
            None
        }
    }

    /// Descriptor `fd` is at position `at`.
    pub open spec fn moved(self, fd: i64, at: int) -> FsModel {
        let of = self.open[fd as int]->0;
        FsModel {
            open: self.open.update(
                fd as int,
                Some(OpenFile { position: at as usize, ..of }),
            ),
            ..self
        }
    }

    /// `bytes` are written through descriptor `fd`.
    pub open spec fn written(self, fd: i64, bytes: Seq<u8>) -> FsModel {
        let of = self.open[fd as int]->0;
        let i = of.file_index as int;
        let f = self.files[i];
        FsModel {
            files: self.files.update(
                i,
                FileModel { data: spliced(f.data, of.position as int, bytes), ..f },
            ),
            ..self
        }.moved(fd, of.position + bytes.len())
    }

    /// What a read of up to `len` bytes through descriptor `fd` gives.
    pub open spec fn readable(self, fd: i64, len: int) -> Seq<u8> {
        let of = self.open[fd as int]->0;
        let rest = self.files[of.file_index as int].data.skip(of.position as int);
        if rest.len() > len {
            rest.take(len)
        } else {
            rest
        }
    }

    /// The entries of directory `p`: subdirectories, then files, each in the
    /// order they were made.
    pub open spec fn listing(self, p: Seq<u8>) -> Seq<Listed> {
        dirs_in(self.dirs, p, self.dirs.len() as int) + files_in(
            self.files,
            p,
            self.files.len() as int,
        )
    }

    /// Everything is where it belongs: paths are spelled well and lie in
    /// directories that exist, nothing is there twice, and descriptors are
    /// of files and not past their ends.
    pub open spec fn wf(self) -> bool {
        &&& forall|i: int|
            0 <= i < self.dirs.len() ==> good_path(#[trigger] self.dirs[i]) && self.dirs[i] != root()
                && self.is_dir(parent_of(self.dirs[i]))
        &&& forall|i: int|
            0 <= i < self.files.len() ==> good_path((#[trigger] self.files[i]).path)
                && self.files[i].path != root() && self.is_dir(parent_of(self.files[i].path))
                && !self.dirs.contains(self.files[i].path)
        &&& self.dirs.no_duplicates()
        &&& forall|i: int, j: int|
            #![trigger self.files[i], self.files[j]]
            0 <= i < j < self.files.len() ==> self.files[i].path != self.files[j].path
        &&& forall|k: int|
            0 <= k < self.open.len() && (#[trigger] self.open[k]) is Some ==> (
            self.open[k]->0).file_index < self.files.len() && (self.open[k]->0).position
                <= self.files[(self.open[k]->0).file_index as int].data.len()
    }
}

/// The first of the first `n` descriptors that is not in use, or `n`.
pub open spec fn first_none(open: Seq<Option<OpenFile>>, n: int) -> int
    decreases n,
{
    if n <= 0 {
        0
    } else {
        let i = first_none(open, n - 1);
        if i < n - 1 || open[n - 1] is None {
            i
        } else {
            n
        }
    }
}

/// One entry of a listing.
pub struct Listed {
    pub name: Seq<u8>,
    pub kind: u8,
    pub size: u64,
}

/// Those of the first `n` directories that are in `p`.
pub open spec fn dirs_in(dirs: Seq<Seq<u8>>, p: Seq<u8>, n: int) -> Seq<Listed>
    decreases n,
{
    if n <= 0 {
        Seq::empty()
    } else {
        let before = dirs_in(dirs, p, n - 1);
        if parent_of(dirs[n - 1]) == p {
            before.push(Listed { name: base_name(dirs[n - 1]), kind: KIND_DIR, size: 0 })
        } else {
            before
        }
    }
}

/// Those of the first `n` files that are in `p`.
pub open spec fn files_in(files: Seq<FileModel>, p: Seq<u8>, n: int) -> Seq<Listed>
    decreases n,
{
    if n <= 0 {
        Seq::empty()
    } else {
        let before = files_in(files, p, n - 1);
        let f = files[n - 1];
        if parent_of(f.path) == p {
            before.push(
                Listed { name: base_name(f.path), kind: KIND_FILE, size: f.data.len() as u64 },
            )
        } else {
            before
        }
    }
}

/// Whether a directory entry reports `l`, its name cut to what fits.
pub open spec fn reports(e: DirEntry, l: Listed) -> bool {
    &&& e.kind == l.kind
    &&& e.size == l.size
    &&& e.name_bytes() == (if l.name.len() > DIRENT_NAME_MAX {
        l.name.take(DIRENT_NAME_MAX as int)
    } else {
        l.name
    })
}

/// Whether two byte strings are the same.
pub fn same_bytes(a: &[u8], b: &[u8]) -> (r: bool)
    ensures
        r == (a@ == b@),
{
    if a.len() != b.len() {
        return false;
    }
    let mut i: usize = 0;
    while i < a.len()
        invariant
            i <= a@.len(),
            a@.len() == b@.len(),
            forall|j: int| 0 <= j < i ==> a@[j] == b@[j],
        decreases a@.len() - i,
    {
        if a[i] != b[i] {
            return false;
        }
        i = i + 1;
    }
    assert(a@ =~= b@);
    true
}

/// A copy of a byte string.
pub fn copy_bytes(s: &[u8]) -> (r: Vec<u8>)
    ensures
        r@ == s@,
{
    let mut r: Vec<u8> = Vec::new();
    let mut i: usize = 0;
    while i < s.len()
        invariant
            i <= s@.len(),
            r@ == s@.take(i as int),
        decreases s@.len() - i,
    {
        r.push(s[i]);
        i = i + 1;
        assert(s@.take(i as int) =~= s@.take(i - 1).push(s@[i - 1]));
    }
    assert(s@.take(i as int) =~= s@);
    r
}

/// Whether a path is spelled well.
fn is_good_path(p: &[u8]) -> (r: bool)
    ensures
        r == good_path(p@),
{
    let n: usize = p.len();
    if n == 0 || p[0] != SLASH {
        return false;
    }
    if n > 1 && p[n - 1] == SLASH {
        return false;
    }
    let mut i: usize = 0;
    while i < n - 1
        invariant
            i <= n - 1,
            n == p@.len(),
            n > 0,
            forall|j: int| 0 <= j < i && #[trigger] p@[j] == 0x2f ==> p@[j + 1] != 0x2f,
        decreases n - i,
    {
        if p[i] == SLASH && p[i + 1] == SLASH {
            return false;
        }
        i = i + 1;
    }
    true
}

/// Whether `p` is the root directory.
fn is_root(p: &[u8]) -> (r: bool)
    ensures
        r == (p@ == root()),
{
    let r: bool = p.len() == 1 && p[0] == SLASH;
    if r {
        assert(p@ =~= root());
    }
    r
}

/// Where the last slash of a path is; as many as it has bytes if it has none.
fn find_last_slash(p: &[u8]) -> (r: usize)
    ensures
        last_slash(p@) == (if r < p@.len() {
            r as int
        } else {
            -1
        }),
        r <= p@.len(),
{
    let n: usize = p.len();
    let mut i: usize = n;
    assert(p@.take(n as int) =~= p@);
    while i > 0
        invariant
            i <= n,
            n == p@.len(),
            last_slash(p@) == last_slash(p@.take(i as int)),
        decreases i,
    {
        assert(p@.take(i as int).drop_last() =~= p@.take(i - 1));
        if p[i - 1] == SLASH {
            return i - 1;
        }
        i = i - 1;
    }
    n
}

/// The directory that a path's last component lives in.
fn parent_dir(p: &[u8]) -> (r: Vec<u8>)
    ensures
        r@ == parent_of(p@),
{
    let i: usize = find_last_slash(p);
    if i == 0 || i >= p.len() {
        let mut r: Vec<u8> = Vec::new();
        r.push(SLASH);
        assert(r@ =~= root());
        return r;
    }
    assert(p@.subrange(0, i as int) =~= p@.take(i as int));
    copy_bytes(slice_subrange(p, 0, i))
}

/// The in-memory file system.
pub struct InMemoryFs {
    files: Vec<File>,
    directories: Vec<Vec<u8>>,
    open: Vec<Option<OpenFile>>,
}

impl View for InMemoryFs {
    type V = FsModel;

    closed spec fn view(&self) -> FsModel {
        FsModel {
            files: self.files@.map_values(|f: File| f@),
            dirs: self.directories@.map_values(|d: Vec<u8>| d@),
            open: self.open@,
        }
    }
}

impl InMemoryFs {
    /// A file system with nothing in it but its root directory.
    pub fn new() -> (r: InMemoryFs)
        ensures
            r@.wf(),
            r@ == (FsModel { files: Seq::empty(), dirs: Seq::empty(), open: Seq::empty() }),
    {
        let r = InMemoryFs { files: Vec::new(), directories: Vec::new(), open: Vec::new() };
        assert(r@ =~= FsModel { files: Seq::empty(), dirs: Seq::empty(), open: Seq::empty() });
        r
    }

    /// Whether `path` is a directory.
    fn is_dir(&self, path: &[u8]) -> (r: bool)
        ensures
            r == self@.is_dir(path@),
    {
        if is_root(path) {
            return true;
        }
        let mut i: usize = 0;
        while i < self.directories.len()
            invariant
                i <= self.directories@.len(),
                path@ != root(),
                forall|j: int| 0 <= j < i ==> #[trigger] self@.dirs[j] != path@,
            decreases self.directories@.len() - i,
        {
            assert(self@.dirs[i as int] == self.directories@[i as int]@);
            if same_bytes(&self.directories[i], path) {
                assert(self@.dirs.contains(path@));
                return true;
            }
            i = i + 1;
        }
        false
    }

    /// The index of the file at `path`, or how many files there are.
    fn find_file(&self, path: &[u8]) -> (r: usize)
        ensures
            r == self@.file_at(path@),
            r <= self@.files.len(),
            self@.is_file(path@) <==> r < self@.files.len(),
            r < self@.files.len() ==> self@.files[r as int].path == path@,
    {
        let ghost paths = self@.paths();
        let mut i: usize = 0;
        while i < self.files.len()
            invariant
                i <= self.files@.len(),
                paths == self@.paths(),
                paths.len() == self.files@.len(),
                position_of(paths, path@, i as int) == i,
                forall|j: int| 0 <= j < i ==> #[trigger] paths[j] != path@,
            decreases self.files@.len() - i,
        {
            assert(paths[i as int] == self.files@[i as int].path@);
            if same_bytes(&self.files[i].path, path) {
                proof {
                    position_stays(paths, path@, i + 1, paths.len() as int);
                }
                assert(paths.contains(path@));
                assert(self@.files[i as int].path == paths[i as int]);
                return i;
            }
            i = i + 1;
        }
        self.files.len()
    }

    /// Make directory `path`: its parent must be a directory, and nothing
    /// may be there yet. Zero, or an error.
    pub fn mkdir(&mut self, path: &[u8]) -> (r: i64)
        requires
            old(self)@.wf(),
        ensures
            final(self)@.wf(),
            match old(self)@.mkdir_fault(path@) {
                Some(e) => r == e && final(self)@ == old(self)@,
                None => r == 0 && final(self)@ == (FsModel {
                    dirs: old(self)@.dirs.push(path@),
                    ..old(self)@
                }),
            },
    {
        if !is_good_path(path) || is_root(path) {
            return EINVAL;
        }
        let parent = parent_dir(path);
        if self.find_file(&parent) < self.files.len() {
            return ENOTDIR;
        }
        if !self.is_dir(&parent) {
            return ENOENT;
        }
        if self.is_dir(path) || self.find_file(path) < self.files.len() {
            return EEXIST;
        }
        let ghost m = self@;
        self.directories.push(copy_bytes(path));
        proof {
            let n = FsModel { dirs: m.dirs.push(path@), ..m };
            assert(self@ =~= n);
            mkdir_keeps(m, path@);
        }
        0
    }

    /// The index of the file at `path`, which is made if it is not there.
    fn open_path(&mut self, path: &[u8]) -> (r: Result<usize, i64>)
        requires
            old(self)@.wf(),
        ensures
            final(self)@.wf(),
            match old(self)@.open_fault(path@) {
                Some(e) => r == Err::<usize, i64>(e) && final(self)@ == old(self)@,
                None => {
                    &&& final(self)@ == old(self)@.with_file(path@)
                    &&& r == Ok::<usize, i64>(old(self)@.file_at(path@) as usize)
                    &&& 0 <= old(self)@.file_at(path@) < final(self)@.files.len()
                    &&& final(self)@.files.len() <= usize::MAX
                },
            },
    {
        if !is_good_path(path) {
            return Err(EINVAL);
        }
        if self.is_dir(path) {
            return Err(EISDIR);
        }
        let parent = parent_dir(path);
        if self.find_file(&parent) < self.files.len() {
            return Err(ENOTDIR);
        }
        if !self.is_dir(&parent) {
            return Err(ENOENT);
        }
        let i: usize = self.find_file(path);
        if i < self.files.len() {
            return Ok(i);
        }
        let ghost m = self@;
        self.files.push(File { path: copy_bytes(path), data: Vec::new() });
        let _count: usize = self.files.len();
        proof {
            let n = m.with_file(path@);
            assert(self@.files =~= n.files);
            assert(self@ =~= n);
            with_file_keeps(m, path@);
        }
        Ok(i)
    }

    /// Give `of` the lowest free descriptor.
    fn alloc_fd(&mut self, of: OpenFile) -> (fd: usize)
        requires
            old(self)@.wf(),
            of.file_index < old(self)@.files.len(),
            of.position <= old(self)@.files[of.file_index as int].data.len(),
        ensures
            final(self)@.wf(),
            final(self)@ == old(self)@.with_fd(of),
            fd == old(self)@.free_fd(),
    {
        let ghost m = self@;
        let mut fd: usize = 0;
        while fd < self.open.len() && self.open[fd].is_some()
            invariant
                fd <= self.open@.len(),
                self@ == m,
                m.open == self.open@,
                first_none(m.open, fd as int) == fd,
            decreases self.open@.len() - fd,
        {
            fd = fd + 1;
        }
        if fd < self.open.len() {
            proof {
                first_none_stays(m.open, fd + 1, m.open.len() as int);
            }
            self.open[fd] = Some(of);
        } else {
            self.open.push(Some(of));
        }
        assert(self@ =~= m.with_fd(of));
        fd
    }

    /// Open the file at `path` for `owner`, making it if it is not there. A
    /// descriptor, or an error.
    pub fn open(&mut self, path: &[u8], owner: Owner) -> (r: i64)
        requires
            old(self)@.wf(),
            old(self)@.open.len() < i64::MAX,
        ensures
            final(self)@.wf(),
            match old(self)@.open_fault(path@) {
                Some(e) => r == e && final(self)@ == old(self)@,
                None => {
                    &&& r == old(self)@.free_fd()
                    &&& final(self)@ == old(self)@.with_file(path@).with_fd(
                        (OpenFile {
                            file_index: old(self)@.file_at(path@) as usize,
                            position: 0,
                            owner,
                        }),
                    )
                },
            },
    {
        let ghost m = self@;
        match self.open_path(path) {
            Ok(file_index) => {
                proof {
                    free_fd_bound(m.open, m.open.len() as int);
                }
                let fd: usize = self.alloc_fd(OpenFile { file_index, position: 0, owner });
                fd as i64
            },
            Err(e) => e,
        }
    }

    /// Open the file at `path` for `owner`, if it is there. A descriptor, or
    /// an error; nothing is ever made.
    pub fn open_existing(&mut self, path: &[u8], owner: Owner) -> (r: i64)
        requires
            old(self)@.wf(),
            old(self)@.open.len() < i64::MAX,
        ensures
            final(self)@.wf(),
            old(self)@.files.len() <= usize::MAX,
            match old(self)@.open_fault(path@) {
                Some(e) => r == e && final(self)@ == old(self)@,
                None => if !old(self)@.is_file(path@) {
                    r == ENOENT && final(self)@ == old(self)@
                } else {
                    &&& r == old(self)@.free_fd()
                    &&& final(self)@ == old(self)@.with_fd(
                        (OpenFile {
                            file_index: old(self)@.file_at(path@) as usize,
                            position: 0,
                            owner,
                        }),
                    )
                },
            },
    {
        let count: usize = self.files.len();
        if is_good_path(path) && !self.is_dir(path) && self.find_file(path) == count {
            // Nothing there: say why, without making it.
            let parent = parent_dir(path);
            if self.find_file(&parent) < self.files.len() {
                return ENOTDIR;
            }
            return ENOENT;
        }
        self.open(path, owner)
    }

    /// Write `bytes` through `owner`'s descriptor `fd`, at its position,
    /// which moves past them. How many, or an error.
    pub fn write(&mut self, fd: i64, owner: Owner, bytes: &[u8]) -> (r: i64)
        requires
            old(self)@.wf(),
            bytes@.len() <= i64::MAX,
            old(self)@.open_of(fd, owner) matches Some(of) ==> of.position + bytes@.len() <= usize::MAX,
        ensures
            final(self)@.wf(),
            if old(self)@.open_of(fd, owner) is Some {
                r == bytes@.len() && final(self)@ == old(self)@.written(fd, bytes@)
            } else {
                r == EBADF && final(self)@ == old(self)@
            },
    {
        let ghost m = self@;
        let i: usize = match self.lookup(fd, owner) {
            Some(i) => i,
            None => {
                return EBADF;
            },
        };
        let mut of: OpenFile = self.open[i].unwrap();
        let at: usize = of.position;
        let n: usize = bytes.len();
        let ghost before = self.files@[of.file_index as int];
        assert(m.files[of.file_index as int] == before@);
        write_into(&mut self.files[of.file_index].data, at, bytes);
        of.position = at + n;
        self.open[i] = Some(of);
        proof {
            assert(self@.files =~= m.written(fd, bytes@).files);
            assert(self@.open =~= m.written(fd, bytes@).open);
            written_keeps(m, fd, bytes@);
        }
        n as i64
    }

    /// Read up to `len` bytes through `owner`'s descriptor `fd`, at its
    /// position, which moves past them. The bytes, none at the end of the
    /// file, or an error.
    pub fn read(&mut self, fd: i64, owner: Owner, len: usize) -> (r: Result<Vec<u8>, i64>)
        requires
            old(self)@.wf(),
        ensures
            final(self)@.wf(),
            if old(self)@.open_of(fd, owner) is Some {
                let bytes = old(self)@.readable(fd, len as int);
                &&& r matches Ok(v) && v@ == bytes
                &&& final(self)@ == old(self)@.moved(
                    fd,
                    (old(self)@.open[fd as int]->0).position + bytes.len(),
                )
            } else {
                r matches Err(e) && e == EBADF && final(self)@ == old(self)@
            },
    {
        let ghost m = self@;
        let i: usize = match self.lookup(fd, owner) {
            Some(i) => i,
            None => {
                return Err(EBADF);
            },
        };
        let mut of: OpenFile = self.open[i].unwrap();
        let at: usize = of.position;
        let data: &Vec<u8> = &self.files[of.file_index].data;
        assert(m.files[of.file_index as int].data == data@);
        let available: usize = data.len() - at;
        let n: usize = if available < len {
            available
        } else {
            len
        };
        let bytes = copy_bytes(slice_subrange(data.as_slice(), at, at + n));
        assert(bytes@ =~= m.readable(fd, len as int));
        of.position = at + n;
        self.open[i] = Some(of);
        proof {
            let now = m.moved(fd, at + n);
            assert(self@.open =~= now.open);
            assert(self@ =~= now);
        }
        Ok(bytes)
    }

    /// Give `owner`'s descriptor `fd` back. Zero, or an error.
    pub fn close(&mut self, fd: i64, owner: Owner) -> (r: i64)
        requires
            old(self)@.wf(),
        ensures
            final(self)@.wf(),
            if old(self)@.open_of(fd, owner) is Some {
                r == 0 && final(self)@ == (FsModel {
                    open: old(self)@.open.update(fd as int, None),
                    ..old(self)@
                })
            } else {
                r == EBADF && final(self)@ == old(self)@
            },
    {
        let ghost m = self@;
        match self.lookup(fd, owner) {
            Some(i) => {
                self.open[i] = None;
                assert(self@ =~= FsModel { open: m.open.update(fd as int, None), ..m });
                0
            },
            None => EBADF,
        }
    }

    /// The index of `owner`'s descriptor `fd`, if it is in use.
    fn lookup(&self, fd: i64, owner: Owner) -> (r: Option<usize>)
        ensures
            match r {
                Some(i) => i == fd && self@.open_of(fd, owner) is Some && i < self.open@.len(),
                None => self@.open_of(fd, owner) is None,
            },
    {
        if fd < 0 || fd as u64 >= self.open.len() as u64 {
            return None;
        }
        let i: usize = fd as usize;
        match self.open[i] {
            Some(of) => {
                if of.owner == owner {
                    Some(i)
                } else {
                    None
                }
            },
            None => None,
        }
    }

    /// Entry `index` of directory `path`: subdirectories first, then files,
    /// each in the order they were made; `None` past the end.
    pub fn readdir(&self, path: &[u8], index: usize) -> (r: Result<Option<DirEntry>, i64>)
        requires
            self@.wf(),
        ensures
            if !good_path(path@) {
                r matches Err(e) && e == EINVAL
            } else if self@.is_file(path@) {
                r matches Err(e) && e == ENOTDIR
            } else if !self@.is_dir(path@) {
                r matches Err(e) && e == ENOENT
            } else if index < self@.listing(path@).len() {
                r matches Ok(Some(entry)) && reports(entry, self@.listing(path@)[index as int])
            } else {
                r matches Ok(None)
            },
    {
        if !is_good_path(path) {
            return Err(EINVAL);
        }
        if self.find_file(path) < self.files.len() {
            return Err(ENOTDIR);
        }
        if !self.is_dir(path) {
            return Err(ENOENT);
        }
        let ghost dirs = self@.dirs;
        let ghost files = self@.files;
        let mut seen: usize = 0;
        let mut i: usize = 0;
        while i < self.directories.len()
            invariant
                i <= self.directories@.len(),
                seen <= i,
                seen <= index,
                dirs == self@.dirs,
                dirs.len() == self.directories@.len(),
                files == self@.files,
                seen == dirs_in(dirs, path@, i as int).len(),
                good_path(path@),
                !self@.is_file(path@),
                self@.is_dir(path@),
            decreases self.directories@.len() - i,
        {
            assert(dirs[i as int] == self.directories@[i as int]@);
            let parent = parent_dir(&self.directories[i]);
            if same_bytes(&parent, path) {
                if seen == index {
                    proof {
                        dirs_in_prefix(dirs, path@, i + 1, dirs.len() as int);
                    }
                    return Ok(Some(entry_for(&self.directories[i], KIND_DIR, 0)));
                }
                seen = seen + 1;
            }
            i = i + 1;
        }
        let ghost before = seen;
        let mut j: usize = 0;
        let count: usize = self.files.len();
        while j < self.files.len()
            invariant
                j <= self.files@.len(),
                before <= seen <= index,
                dirs == self@.dirs,
                files == self@.files,
                files.len() == self.files@.len(),
                before == dirs_in(dirs, path@, dirs.len() as int).len(),
                seen == before + files_in(files, path@, j as int).len(),
                good_path(path@),
                !self@.is_file(path@),
                self@.is_dir(path@),
            decreases self.files@.len() - j,
        {
            assert(files[j as int] == self.files@[j as int]@);
            let parent = parent_dir(&self.files[j].path);
            if same_bytes(&parent, path) {
                if seen == index {
                    proof {
                        files_in_prefix(files, path@, j + 1, files.len() as int);
                    }
                    let size: usize = self.files[j].data.len();
                    return Ok(Some(entry_for(&self.files[j].path, KIND_FILE, size as u64)));
                }
                seen = seen + 1;
            }
            j = j + 1;
        }
        Ok(None)
    }
}

/// The directory entry of what is at `path`.
fn entry_for(path: &[u8], kind: u8, size: u64) -> (e: DirEntry)
    ensures
        reports(e, (Listed { name: base_name(path@), kind, size })),
{
    let i: usize = find_last_slash(path);
    let from: usize = if i < path.len() {
        i + 1
    } else {
        0
    };
    let full: usize = path.len() - from;
    let n: usize = if full > DIRENT_NAME_MAX {
        DIRENT_NAME_MAX
    } else {
        full
    };
    let ghost name = base_name(path@);
    assert(name =~= path@.skip(from as int));
    let mut e = DirEntry::empty();
    e.kind = kind;
    e.size = size;
    e.name_len = n as u8;
    let mut k: usize = 0;
    while k < n
        invariant
            k <= n,
            n <= DIRENT_NAME_MAX,
            from + n <= path@.len(),
            path@.len() <= usize::MAX,
            name == path@.skip(from as int),
            e.kind == kind,
            e.size == size,
            e.name_len == n,
            forall|j: int| 0 <= j < k ==> e.name@[j] == name[j],
        decreases n - k,
    {
        e.name[k] = path[from + k];
        k = k + 1;
    }
    assert(e.name_bytes() =~= name.take(n as int));
    assert(full <= DIRENT_NAME_MAX ==> name.take(n as int) =~= name);
    e
}

/// Write `bytes` into `data` at `at`.
fn write_into(data: &mut Vec<u8>, at: usize, bytes: &[u8])
    requires
        at <= old(data)@.len(),
        at + bytes@.len() <= usize::MAX,
    ensures
        final(data)@ == spliced(old(data)@, at as int, bytes@),
{
    let ghost d = data@;
    let n: usize = bytes.len();
    let mut k: usize = 0;
    while k < n
        invariant
            k <= n,
            n == bytes@.len(),
            at <= d.len(),
            at + n <= usize::MAX,
            data@.len() == (if at + k > d.len() {
                (at + k) as nat
            } else {
                d.len()
            }),
            forall|i: int|
                0 <= i < data@.len() ==> #[trigger] data@[i] == (if at <= i < at + k {
                    bytes@[i - at]
                } else {
                    d[i]
                }),
        decreases n - k,
    {
        if at + k < data.len() {
            data[at + k] = bytes[k];
        } else {
            data.push(bytes[k]);
        }
        k = k + 1;
    }
    assert(data@ =~= spliced(d, at as int, bytes@));
}

proof fn position_stays(s: Seq<Seq<u8>>, x: Seq<u8>, n: int, m: int)
    requires
        0 < n <= m,
        position_of(s, x, n) < n,
    ensures
        position_of(s, x, m) == position_of(s, x, n),
    decreases m,
{
    if n < m {
        position_stays(s, x, n, m - 1);
    }
}

/// The index of a file that exists is one of its files'.
pub proof fn file_at_bound(m: FsModel, p: Seq<u8>)
    ensures
        0 <= m.file_at(p) <= m.files.len(),
        m.is_file(p) ==> m.file_at(p) < m.files.len(),
{
    position_bound(m.paths(), p, m.files.len() as int);
}

proof fn position_bound(s: Seq<Seq<u8>>, x: Seq<u8>, n: int)
    requires
        0 <= n <= s.len(),
    ensures
        0 <= position_of(s, x, n) <= n,
        forall|k: int| 0 <= k < position_of(s, x, n) ==> #[trigger] s[k] != x,
    decreases n,
{
    if n > 0 {
        position_bound(s, x, n - 1);
    }
}

proof fn first_none_stays(open: Seq<Option<OpenFile>>, n: int, m: int)
    requires
        0 < n <= m,
        first_none(open, n) < n,
    ensures
        first_none(open, m) == first_none(open, n),
    decreases m,
{
    if n < m {
        first_none_stays(open, n, m - 1);
    }
}

/// The lowest free descriptor is at most one past the last.
pub proof fn free_fd_bound(open: Seq<Option<OpenFile>>, n: int)
    requires
        0 <= n <= open.len(),
    ensures
        0 <= first_none(open, n) <= n,
        first_none(open, n) < n ==> open[first_none(open, n)] is None,
        forall|k: int| 0 <= k < first_none(open, n) ==> (#[trigger] open[k]) is Some,
    decreases n,
{
    if n > 0 {
        free_fd_bound(open, n - 1);
    }
}

proof fn dirs_in_prefix(dirs: Seq<Seq<u8>>, p: Seq<u8>, n: int, m: int)
    requires
        0 <= n <= m,
    ensures
        dirs_in(dirs, p, n).len() <= dirs_in(dirs, p, m).len(),
        forall|k: int|
            0 <= k < dirs_in(dirs, p, n).len() ==> #[trigger] dirs_in(dirs, p, m)[k] == dirs_in(
                dirs,
                p,
                n,
            )[k],
    decreases m,
{
    if n < m {
        dirs_in_prefix(dirs, p, n, m - 1);
    }
}

proof fn files_in_prefix(files: Seq<FileModel>, p: Seq<u8>, n: int, m: int)
    requires
        0 <= n <= m,
    ensures
        files_in(files, p, n).len() <= files_in(files, p, m).len(),
        forall|k: int|
            0 <= k < files_in(files, p, n).len() ==> #[trigger] files_in(files, p, m)[k] == files_in(
                files,
                p,
                n,
            )[k],
    decreases m,
{
    if n < m {
        files_in_prefix(files, p, n, m - 1);
    }
}

/// A new directory keeps everything where it belongs.
proof fn mkdir_keeps(m: FsModel, p: Seq<u8>)
    requires
        m.wf(),
        m.mkdir_fault(p) is None,
    ensures
        (FsModel { dirs: m.dirs.push(p), ..m }).wf(),
{
    let n = FsModel { dirs: m.dirs.push(p), ..m };
    assert forall|x: Seq<u8>| m.is_dir(x) implies #[trigger] n.is_dir(x) by {
        if m.dirs.contains(x) {
            let k = choose|k: int| 0 <= k < m.dirs.len() && m.dirs[k] == x;
            assert(n.dirs[k] == x);
        }
    }
    assert forall|i: int| 0 <= i < n.dirs.len() implies good_path(#[trigger] n.dirs[i]) && n.dirs[i]
        != root() && n.is_dir(parent_of(n.dirs[i])) by {
        if i < m.dirs.len() {
            assert(n.dirs[i] == m.dirs[i]);
            assert(m.is_dir(parent_of(m.dirs[i])));
        } else {
            assert(m.is_dir(parent_of(p)));
        }
    }
    assert forall|i: int| 0 <= i < n.files.len() implies good_path((#[trigger] n.files[i]).path)
        && n.files[i].path != root() && n.is_dir(parent_of(n.files[i].path)) && !n.dirs.contains(
        n.files[i].path,
    ) by {
        assert(m.is_dir(parent_of(m.files[i].path)));
        assert(m.paths()[i] == m.files[i].path);
        if n.dirs.contains(n.files[i].path) {
            let k = choose|k: int| 0 <= k < n.dirs.len() && n.dirs[k] == n.files[i].path;
            if k < m.dirs.len() {
                assert(m.dirs[k] == n.files[i].path);
            } else {
                assert(m.is_file(p));
            }
        }
    }
    assert forall|i: int, j: int| 0 <= i < j < n.dirs.len() implies n.dirs[i] != n.dirs[j] by {
        if j == m.dirs.len() {
            assert(n.dirs[i] == m.dirs[i]);
        }
    }
}

/// A new file keeps everything where it belongs.
proof fn with_file_keeps(m: FsModel, p: Seq<u8>)
    requires
        m.wf(),
        m.open_fault(p) is None,
    ensures
        m.with_file(p).wf(),
{
    let n = m.with_file(p);
    assert forall|i: int| 0 <= i < n.files.len() implies good_path((#[trigger] n.files[i]).path)
        && n.files[i].path != root() && n.is_dir(parent_of(n.files[i].path)) && !n.dirs.contains(
        n.files[i].path,
    ) by {
        if i < m.files.len() {
            assert(n.files[i] == m.files[i]);
        }
    }
    assert forall|i: int, j: int|
        #![trigger n.files[i], n.files[j]]
        0 <= i < j < n.files.len() implies n.files[i].path != n.files[j].path by {
        assert(m.paths()[i] == m.files[i].path);
    }
}

/// A write keeps everything where it belongs.
proof fn written_keeps(m: FsModel, fd: i64, bytes: Seq<u8>)
    requires
        m.wf(),
        0 <= fd < m.open.len(),
        m.open[fd as int] is Some,
        (m.open[fd as int]->0).position + bytes.len() <= usize::MAX,
    ensures
        m.written(fd, bytes).wf(),
{
    let n = m.written(fd, bytes);
    let i = (m.open[fd as int]->0).file_index as int;
    assert forall|k: int| 0 <= k < n.files.len() implies #[trigger] n.files[k].path
        == m.files[k].path by {
    }
    assert forall|k: int| 0 <= k < n.files.len() implies good_path((#[trigger] n.files[k]).path)
        && n.files[k].path != root() && n.is_dir(parent_of(n.files[k].path)) && !n.dirs.contains(
        n.files[k].path,
    ) by {
        assert(n.files[k].path == m.files[k].path);
        assert(m.is_dir(parent_of(m.files[k].path)));
    }
    assert forall|a: int, b: int|
        #![trigger n.files[a], n.files[b]]
        0 <= a < b < n.files.len() implies n.files[a].path != n.files[b].path by {
        assert(n.files[a].path == m.files[a].path);
        assert(n.files[b].path == m.files[b].path);
    }
    assert forall|k: int| 0 <= k < n.open.len() && (#[trigger] n.open[k]) is Some implies (
    n.open[k]->0).file_index < n.files.len() && (n.open[k]->0).position <= n.files[(
    n.open[k]->0).file_index as int].data.len() by {
        if k != fd {
            assert(n.open[k] == m.open[k]);
        }
    }
}

} // verus!
