//! Requests to the file server and its replies, and what holds across them.
use vstd::prelude::*;

use vstd::utf8::valid_utf8;

use crate::com;
use crate::fs::{
    base_name, dirs_in, files_in, free_fd_bound, parent_of, position_of, spliced, FsModel,
    InMemoryFs, Listed, OpenFile, Owner, EBADF, FS_MKDIR, FS_OPEN, FS_READ, FS_WRITE, KIND_DIR,
    KIND_FILE,
};

verus! {

/// A request to the file server.
pub enum Request {
    Open { name: Vec<u8> },
    Mkdir { name: Vec<u8> },
    Write { fd: i64, data: Vec<u8> },
    Read { fd: i64, len: usize },
    /// A message type the server does not know.
    Unknown { m_type: i32 },
}

/// The server's reply: to what kind of request, the result, and the bytes a
/// read gives.
pub struct Reply {
    pub source: i32,
    pub m_type: i32,
    pub result: i64,
    pub data: Vec<u8>,
}

/// `core::str::from_utf8` accepts exactly the byte strings that are valid
/// UTF-8.
#[verifier::external_body]
pub(crate) fn is_utf8(bytes: &[u8]) -> (r: bool)
    ensures
        r == valid_utf8(bytes@),
{
    core::str::from_utf8(bytes).is_ok()
}

/// What the server makes of a name: one that is no text is as good as none.
pub open spec fn name_of(bytes: Seq<u8>) -> Seq<u8> {
    if valid_utf8(bytes) {
        bytes
    } else {
        Seq::empty()
    }
}

/// The message type of a request.
pub open spec fn type_of(req: Request) -> i32 {
    match req {
        Request::Open { .. } => FS_OPEN,
        Request::Mkdir { .. } => FS_MKDIR,
        Request::Write { .. } => FS_WRITE,
        Request::Read { .. } => FS_READ,
        Request::Unknown { m_type } => m_type,
    }
}

/// What a request does, its result, and the bytes it gives.
pub open spec fn served(m: FsModel, req: Request, owner: Owner) -> (FsModel, i64, Seq<u8>) {
    match req {
        Request::Open { name } => {
            let p = name_of(name@);
            match m.open_fault(p) {
                Some(e) => (m, e, Seq::empty()),
                None => (
                    m.with_file(p).with_fd(
                        OpenFile { file_index: m.file_at(p) as usize, position: 0, owner },
                    ),
                    m.free_fd() as i64,
                    Seq::empty(),
                ),
            }
        },
        Request::Mkdir { name } => {
            let p = name_of(name@);
            match m.mkdir_fault(p) {
                Some(e) => (m, e, Seq::empty()),
                None => (FsModel { dirs: m.dirs.push(p), ..m }, 0, Seq::empty()),
            }
        },
        Request::Write { fd, data } => if m.open_of(fd, owner) is Some {
            (m.written(fd, data@), data@.len() as i64, Seq::empty())
        } else {
            (m, EBADF, Seq::empty())
        },
        Request::Read { fd, len } => if m.open_of(fd, owner) is Some {
            let bytes = m.readable(fd, len as int);
            (
                m.moved(fd, (m.open[fd as int]->0).position + bytes.len()),
                bytes.len() as i64,
                bytes,
            )
        } else {
            (m, EBADF, Seq::empty())
        },
        Request::Unknown { .. } => (m, EBADF, Seq::empty()),
    }
}

impl InMemoryFs {
    /// Handle one request of `owner`.
    pub fn handle(&mut self, req: &Request, owner: Owner) -> (r: Reply)
        requires
            old(self)@.wf(),
            old(self)@.open.len() < i64::MAX,
            req matches Request::Write { fd, data } ==> data@.len() <= i64::MAX && (
            old(self)@.open_of(*fd, owner) matches Some(of) ==> of.position + data@.len()
                <= usize::MAX),
            req matches Request::Read { fd, len } ==> len <= i64::MAX,
        ensures
            final(self)@.wf(),
            r.source == com::FS_PROC_NR,
            r.m_type == type_of(*req),
            (final(self)@, r.result, r.data@) == served(old(self)@, *req, owner),
    {
        let source: i32 = com::FS_PROC_NR;
        let ghost m = self@;
        let mut data: Vec<u8> = Vec::new();
        assert(data@ =~= Seq::empty());
        match req {
            Request::Open { name } => {
                proof {
                    free_fd_bound(m.open, m.open.len() as int);
                }
                let result: i64 = if is_utf8(name) {
                    self.open(name, owner)
                } else {
                    let none: Vec<u8> = Vec::new();
                    assert(none@ =~= Seq::empty());
                    self.open(&none, owner)
                };
                Reply { source, m_type: FS_OPEN, result, data }
            },
            Request::Mkdir { name } => {
                let result: i64 = if is_utf8(name) {
                    self.mkdir(name)
                } else {
                    let none: Vec<u8> = Vec::new();
                    assert(none@ =~= Seq::empty());
                    self.mkdir(&none)
                };
                Reply { source, m_type: FS_MKDIR, result, data }
            },
            Request::Write { fd, data: bytes } => {
                let result: i64 = self.write(*fd, owner, bytes);
                Reply { source, m_type: FS_WRITE, result, data }
            },
            Request::Read { fd, len } => {
                match self.read(*fd, owner, *len) {
                    Ok(bytes) => {
                        let n: usize = bytes.len();
                        data = bytes;
                        Reply { source, m_type: FS_READ, result: n as i64, data }
                    },
                    Err(e) => Reply { source, m_type: FS_READ, result: e, data },
                }
            },
            Request::Unknown { m_type } => Reply { source, m_type: *m_type, result: EBADF, data },
        }
    }
}

/// What is written to a file is what is read back at the same place, through
/// whatever descriptor.
pub proof fn write_then_read(m: FsModel, fd: i64, other: i64, bytes: Seq<u8>)
    requires
        m.wf(),
        0 <= fd < m.open.len(),
        0 <= other < m.open.len(),
        fd != other,
        m.open[fd as int] is Some,
        m.open[other as int] is Some,
        (m.open[fd as int]->0).file_index == (m.open[other as int]->0).file_index,
        (m.open[fd as int]->0).position == (m.open[other as int]->0).position,
        (m.open[fd as int]->0).position + bytes.len() <= usize::MAX,
    ensures
        m.written(fd, bytes).readable(other, bytes.len() as int) == bytes,
{
    let of = m.open[fd as int]->0;
    let d = m.files[of.file_index as int].data;
    let s = spliced(d, of.position as int, bytes);
    assert(s.skip(of.position as int).take(bytes.len() as int) =~= bytes);
    assert(s.skip(of.position as int).len() == bytes.len() ==> s.skip(of.position as int) =~= bytes);
}

/// A write leaves what is in the file before and behind it, and every other
/// file, as it was.
pub proof fn write_is_local(m: FsModel, fd: i64, bytes: Seq<u8>, i: int, k: int)
    requires
        m.wf(),
        0 <= fd < m.open.len(),
        m.open[fd as int] is Some,
        0 <= i < m.files.len(),
        0 <= k < m.files[i].data.len(),
        i != (m.open[fd as int]->0).file_index || k < (m.open[fd as int]->0).position || k >= (
        m.open[fd as int]->0).position + bytes.len(),
    ensures
        m.written(fd, bytes).files[i].path == m.files[i].path,
        k < m.written(fd, bytes).files[i].data.len(),
        m.written(fd, bytes).files[i].data[k] == m.files[i].data[k],
{
}

/// At the end of a file there is nothing left to read.
pub proof fn end_of_file(m: FsModel, fd: i64, len: int)
    requires
        m.wf(),
        0 <= fd < m.open.len(),
        m.open[fd as int] is Some,
        0 <= len,
        (m.open[fd as int]->0).position == m.files[(
        m.open[fd as int]->0).file_index as int].data.len(),
    ensures
        m.readable(fd, len) == Seq::<u8>::empty(),
{
    assert(m.readable(fd, len) =~= Seq::<u8>::empty());
}

/// A file that was opened by its path is open under a descriptor that was
/// free, at its beginning, and the file has that path.
pub proof fn open_finds_file(m: FsModel, p: Seq<u8>, owner: Owner)
    requires
        m.wf(),
        m.open_fault(p) is None,
        m.files.len() < usize::MAX,
    ensures
        ({
            let of = OpenFile { file_index: m.file_at(p) as usize, position: 0, owner };
            let n = m.with_file(p).with_fd(of);
            let fd = m.free_fd();
            &&& 0 <= fd < n.open.len()
            &&& fd < m.open.len() ==> m.open[fd] is None
            &&& n.open[fd] == Some(of)
            &&& of.file_index < n.files.len()
            &&& n.files[of.file_index as int].path == p
            &&& n.is_file(p)
        }),
{
    free_fd_bound(m.open, m.open.len() as int);
    found_position(m.paths(), p, m.files.len() as int);
    let n = m.with_file(p);
    if m.is_file(p) {
        assert(m.paths()[m.file_at(p)] == p);
    } else {
        assert(n.paths()[m.files.len() as int] == p);
    }
}

/// A position that was found holds what was looked for.
proof fn found_position(s: Seq<Seq<u8>>, x: Seq<u8>, n: int)
    requires
        0 <= n <= s.len(),
    ensures
        0 <= position_of(s, x, n) <= n,
        position_of(s, x, n) < n ==> s[position_of(s, x, n)] == x,
        position_of(s, x, n) == n ==> forall|k: int| 0 <= k < n ==> #[trigger] s[k] != x,
    decreases n,
{
    if n > 0 {
        found_position(s, x, n - 1);
    }
}

/// A descriptor is of no use to anyone but its owner.
pub proof fn descriptors_are_private(m: FsModel, fd: i64, owner: Owner, other: Owner)
    requires
        m.open_of(fd, owner) is Some,
        other != owner,
    ensures
        m.open_of(fd, other) is None,
{
}

/// A directory that was just made is listed in its parent.
pub proof fn new_directory_is_listed(m: FsModel, p: Seq<u8>)
    requires
        m.mkdir_fault(p) is None,
    ensures
        (FsModel { dirs: m.dirs.push(p), ..m }).listing(parent_of(p)).contains(
            Listed { name: base_name(p), kind: KIND_DIR, size: 0 },
        ),
{
    let n = FsModel { dirs: m.dirs.push(p), ..m };
    let q = parent_of(p);
    let before = dirs_in(n.dirs, q, m.dirs.len() as int);
    let entry = Listed { name: base_name(p), kind: KIND_DIR, size: 0 };
    assert(dirs_in(n.dirs, q, n.dirs.len() as int) == before.push(entry));
    assert(n.listing(q)[before.len() as int] == entry);
}

/// A file that was just made is listed last in its directory, with no bytes.
pub proof fn new_file_is_listed(m: FsModel, p: Seq<u8>)
    requires
        m.open_fault(p) is None,
        !m.is_file(p),
    ensures
        m.with_file(p).listing(parent_of(p)).len() > 0,
        m.with_file(p).listing(parent_of(p)).last() == (Listed {
            name: base_name(p),
            kind: KIND_FILE,
            size: 0,
        }),
{
    let n = m.with_file(p);
    let q = parent_of(p);
    let before = files_in(n.files, q, m.files.len() as int);
    let entry = Listed { name: base_name(p), kind: KIND_FILE, size: 0 };
    assert(files_in(n.files, q, n.files.len() as int) == before.push(entry));
}

/// A request through a descriptor that is not the caller's own changes
/// nothing, gives nothing and is answered with minus nine; so is one that the
/// server does not know.
pub proof fn foreign_descriptors_are_refused(m: FsModel, req: Request, owner: Owner)
    requires
        req matches Request::Write { fd, data } ==> m.open_of(fd, owner) is None,
        req matches Request::Read { fd, len } ==> m.open_of(fd, owner) is None,
        req is Write || req is Read || req is Unknown,
    ensures
        served(m, req, owner).0 == m,
        served(m, req, owner).1 == -9,
        served(m, req, owner).2.len() == 0,
{
}

/// Opening by a path that can be opened gives a descriptor that is the
/// caller's own and no one else's, at the beginning of the file at that
/// path; otherwise the answer says why not and nothing changes.
pub proof fn open_request_opens_the_file(m: FsModel, req: Request, owner: Owner, other: Owner)
    requires
        m.wf(),
        req is Open,
        valid_utf8(req->Open_name@),
        other != owner,
        m.files.len() < usize::MAX,
        m.open.len() < i64::MAX,
    ensures
        ({
            let p = req->Open_name@;
            let (n, result, bytes) = served(m, req, owner);
            match m.open_fault(p) {
                Some(e) => n == m && result == e,
                None => {
                    &&& result >= 0
                    &&& n.open_of(result, owner) matches Some(of) && of.position == 0
                        && of.file_index < n.files.len() && n.files[of.file_index as int].path == p
                    &&& n.open_of(result, other) is None
                },
            }
        }),
{
    let p = req->Open_name@;
    if m.open_fault(p) is None {
        open_finds_file(m, p, owner);
    }
}

/// What is written through a descriptor is counted, and what is read through
/// it is what the file holds where the descriptor is; both move it on.
pub proof fn requests_move_the_descriptor(m: FsModel, req: Request, owner: Owner)
    requires
        m.wf(),
    ensures
        req matches Request::Write { fd, data } ==> m.open_of(fd, owner) is Some ==> {
            let (n, result, bytes) = served(m, req, owner);
            let at = (m.open[fd as int]->0).position;
            &&& data@.len() <= i64::MAX ==> result == data@.len()
            &&& at + data@.len() <= usize::MAX ==> (n.open[fd as int]->0).position == at
                + data@.len()
            &&& n.open[fd as int] is Some
        },
        req matches Request::Read { fd, len } ==> m.open_of(fd, owner) is Some ==> {
            let (n, result, bytes) = served(m, req, owner);
            let of = m.open[fd as int]->0;
            let data = m.files[of.file_index as int].data;
            &&& n.files == m.files
            &&& bytes.len() <= len
            &&& of.position + bytes.len() <= data.len()
            &&& bytes.len() == len || of.position + bytes.len() == data.len()
            &&& forall|k: int| 0 <= k < bytes.len() ==> #[trigger] bytes[k] == data[of.position + k]
            &&& len <= i64::MAX ==> result == bytes.len()
            &&& data.len() <= usize::MAX ==> (n.open[fd as int]->0).position == of.position
                + bytes.len()
        },
{
}

/// A reply has the type of the request it answers.
pub proof fn reply_is_of_the_requests_type(req: Request)
    ensures
        req is Open ==> type_of(req) == 300,
        req is Read ==> type_of(req) == 301,
        req is Write ==> type_of(req) == 302,
        req is Mkdir ==> type_of(req) == 303,
        req matches Request::Unknown { m_type } ==> type_of(req) == m_type,
{
}

/// A request for a directory makes it, if nothing stands against it, and
/// nothing else; a name that is no text is no path.
pub proof fn mkdir_request_makes_the_directory(m: FsModel, req: Request, owner: Owner, q: Seq<u8>)
    requires
        m.wf(),
        req is Mkdir,
    ensures
        ({
            let p = req->Mkdir_name@;
            let (n, result, bytes) = served(m, req, owner);
            &&& bytes.len() == 0
            &&& n.files == m.files
            &&& n.open == m.open
            &&& !valid_utf8(p) ==> result == -22 && n == m
            &&& valid_utf8(p) && m.mkdir_fault(p) is Some ==> Some(result) == m.mkdir_fault(p) && n == m
            &&& valid_utf8(p) && m.mkdir_fault(p) is None ==> result == 0 && (n.is_dir(q) <==> q == p
                || m.is_dir(q))
        }),
{
    let p = req->Mkdir_name@;
    let (n, result, bytes) = served(m, req, owner);
    if valid_utf8(p) && m.mkdir_fault(p) is None {
        assert(n.dirs == m.dirs.push(p));
        if m.dirs.contains(q) {
            let i = m.dirs.index_of(q);
            assert(n.dirs[i] == q);
        }
        if q == p {
            assert(n.dirs[m.dirs.len() as int] == p);
        }
        if n.dirs.contains(q) && q != p {
            let i = n.dirs.index_of(q);
            assert(m.dirs[i] == q);
        }
    }
}

} // verus!
