//! Getting a program off the file system.
use vstd::prelude::*;

use crate::fs::{
    free_fd_bound, parent_of, root, FsModel, InMemoryFs, OpenFile, Owner, ENOENT,
};

verus! {

/// Largest program that is read.
pub const MAX_IMAGE_BYTES: usize = 262144;

/// The file is larger than that.
pub const EFBIG: i64 = -27;

/// The file is no program that can be run.
pub const ENOEXEC: i64 = -8;

/// Longest piece read at a time.
pub const READ_CHUNK: usize = 256;

/// How much of a file of `len` bytes is read before it is known to be read
/// whole or to be too large.
pub open spec fn read_up_to(len: int) -> int {
    if len <= MAX_IMAGE_BYTES + READ_CHUNK {
        len
    } else {
        MAX_IMAGE_BYTES + READ_CHUNK
    }
}

/// What reading the whole file at `path` gives: its bytes, the file
/// system's own error, or `EFBIG`.
pub open spec fn contents(m: FsModel, path: Seq<u8>) -> Result<Seq<u8>, i64> {
    match m.open_fault(path) {
        Some(e) => Err(e),
        None => if !m.is_file(path) {
            Err(ENOENT)
        } else if m.files[m.file_at(path)].data.len() > MAX_IMAGE_BYTES {
            Err(EFBIG)
        } else {
            Ok(m.files[m.file_at(path)].data)
        },
    }
}

/// The file system after that: a descriptor stays open on the file, if there
/// is one.
pub open spec fn after_reading(m: FsModel, path: Seq<u8>, owner: Owner) -> FsModel {
    if m.open_fault(path) is Some || !m.is_file(path) {
        m
    } else {
        let i = m.file_at(path);
        m.with_fd(OpenFile { file_index: i as usize, position: 0, owner }).moved(
            m.free_fd() as i64,
            read_up_to(m.files[i].data.len() as int),
        )
    }
}

/// Read the whole file at `path`, or say why not. Nothing is made.
pub fn read_file(fs: &mut InMemoryFs, path: &[u8], owner: Owner) -> (r: Result<Vec<u8>, i64>)
    requires
        old(fs)@.wf(),
        old(fs)@.open.len() < i64::MAX,
    ensures
        final(fs)@.wf(),
        final(fs)@ == after_reading(old(fs)@, path@, owner),
        match contents(old(fs)@, path@) {
            Ok(data) => r matches Ok(v) && v@ == data,
            Err(e) => r matches Err(f) && f == e,
        },
{
    let ghost m = fs@;
    proof {
        free_fd_bound(m.open, m.open.len() as int);
    }
    let fd: i64 = fs.open_existing(path, owner);
    if fd < 0 {
        return Err(fd);
    }
    let ghost i = m.file_at(path@);
    let ghost data = m.files[i].data;
    let ghost of = OpenFile { file_index: i as usize, position: 0, owner };
    let ghost n = m.with_fd(of);
    let ghost at = fd as int;
    assert(n.open[at] == Some(of));
    proof {
        crate::fs::file_at_bound(m, path@);
        assert(n.moved(fd, 0).open =~= n.open);
        assert(n.moved(fd, 0) =~= n);
    }
    let mut image: Vec<u8> = Vec::new();
    assert(image@ =~= data.take(0));
    loop
        invariant
            fs@.wf(),
            m == old(fs)@,
            m.open_fault(path@) is None,
            m.is_file(path@),
            i == m.file_at(path@),
            0 <= i < m.files.len(),
            i <= usize::MAX,
            data == m.files[i].data,
            of == (OpenFile { file_index: i as usize, position: 0, owner }),
            n == m.with_fd(of),
            fd == m.free_fd(),
            at == fd,
            0 <= fd < n.open.len(),
            n.open[at] == Some(of),
            image@.len() <= MAX_IMAGE_BYTES,
            image@.len() <= data.len(),
            image@.len() as int % 256 == 0 || image@.len() == data.len(),
            image@ == data.take(image@.len() as int),
            fs@ == n.moved(fd, image@.len() as int),
        decreases data.len() - image@.len(),
    {
        let ghost k = image@.len() as int;
        match fs.read(fd, owner, READ_CHUNK) {
            Ok(chunk) => {
                let got: usize = chunk.len();
                proof {
                    assert(chunk@ =~= data.subrange(k, k + got));
                    assert(n.moved(fd, k).moved(fd, k + got).open =~= n.moved(fd, k + got).open);
                    assert(n.moved(fd, k).moved(fd, k + got) =~= n.moved(fd, k + got));
                }
                if got == 0 {
                    assert(image@ =~= data);
                    return Ok(image);
                }
                if image.len() + got > MAX_IMAGE_BYTES {
                    return Err(EFBIG);
                }
                let mut j: usize = 0;
                while j < got
                    invariant
                        j <= got,
                        0 <= k,
                        got == chunk@.len(),
                        k + got <= data.len(),
                        chunk@ == data.subrange(k, k + got),
                        image@ == data.take(k + j),
                    decreases got - j,
                {
                    image.push(chunk[j]);
                    j = j + 1;
                    assert(image@ =~= data.take(k + j));
                }
            },
            Err(e) => {
                return Ok(image);
            },
        }
    }
}

/// A file of at most so many bytes is read whole: what comes back is what it
/// holds, byte for byte. A larger one is refused, and so is a path at which
/// there is no file; nothing is made.
pub proof fn file_is_read_whole(m: FsModel, i: int, path: Seq<u8>, owner: Owner)
    requires
        m.wf(),
        0 <= i < m.files.len(),
    ensures
        m.files[i].data.len() <= MAX_IMAGE_BYTES ==> contents(m, m.files[i].path) == Ok::<
            Seq<u8>,
            i64,
        >(m.files[i].data),
        m.files[i].data.len() > MAX_IMAGE_BYTES ==> contents(m, m.files[i].path) == Err::<
            Seq<u8>,
            i64,
        >(EFBIG),
        !m.is_file(path) ==> contents(m, path) is Err,
        after_reading(m, path, owner).files == m.files,
        after_reading(m, path, owner).dirs == m.dirs,
{
    crate::fs::keeping::one_path_is_one_file(m, m.files[i].path, i);
    let p = m.files[i].path;
    assert(m.paths()[i] == p);
    if m.is_file(parent_of(p)) {
        let k = m.paths().index_of(parent_of(p));
        assert(m.paths()[k] == m.files[k].path);
        if parent_of(p) == root() {
            assert(m.files[k].path == root());
        } else {
            assert(m.dirs.contains(m.files[k].path));
        }
        assert(false);
    }
}

} // verus!
