use neumann::elf::file::{read_file, EFBIG, ENOEXEC, MAX_IMAGE_BYTES};
use neumann::elf::spawn::spawn_from_fs;
use neumann::fs::server::Request;
use neumann::fs::{
    copy_bytes, same_bytes, DirEntry, InMemoryFs, Owner, EBADF, EEXIST, EINVAL, EISDIR, ENOENT,
    ENOTDIR, FS_OPEN, FS_READ, FS_WRITE, KIND_DIR, KIND_FILE,
};

const PM: Owner = Owner { team: 0, generation: 1 };
const OTHER: Owner = Owner { team: 5, generation: 1 };

#[test]
fn written_bytes_read_back() {
    let mut fs = InMemoryFs::new();
    let written = b"hello from pm, stored in fs";
    let write_fd = fs.open(b"/hello.txt", PM);
    assert!(write_fd >= 0);
    assert_eq!(fs.write(write_fd, PM, written), written.len() as i64);
    let read_fd = fs.open(b"/hello.txt", PM);
    assert!(read_fd >= 0);
    assert_ne!(read_fd, write_fd);
    assert_eq!(fs.read(read_fd, PM, 64), Ok(written.to_vec()));
    assert_eq!(fs.read(read_fd, PM, 64), Ok(vec![]));
}

#[test]
fn descriptors_have_their_own_cursor() {
    let mut fs = InMemoryFs::new();
    let fd = fs.open(b"/f", PM);
    assert_eq!(fs.write(fd, PM, b"abcdef"), 6);
    let a = fs.open(b"/f", PM);
    let b = fs.open(b"/f", PM);
    assert_eq!(fs.read(a, PM, 2), Ok(b"ab".to_vec()));
    assert_eq!(fs.read(b, PM, 3), Ok(b"abc".to_vec()));
    assert_eq!(fs.read(a, PM, 9), Ok(b"cdef".to_vec()));
    assert_eq!(fs.write(b, PM, b"XY"), 2);
    let c = fs.open(b"/f", PM);
    assert_eq!(fs.read(c, PM, 9), Ok(b"abcXYf".to_vec()));
}

#[test]
fn directories_have_to_exist() {
    let mut fs = InMemoryFs::new();
    assert!(fs.open(b"/hello.txt", PM) >= 0);
    assert_eq!(fs.open(b"/logs/today.txt", PM), ENOENT);
    assert_eq!(fs.mkdir(b"/logs"), 0);
    assert_eq!(fs.mkdir(b"/logs"), EEXIST);
    assert_eq!(fs.open(b"/logs", PM), EISDIR);
    assert!(fs.open(b"/logs/today.txt", PM) >= 0);
    assert_eq!(fs.open(b"/hello.txt/nested.txt", PM), ENOTDIR);
}

fn entry(fs: &InMemoryFs, dir: &[u8], i: usize) -> DirEntry {
    match fs.readdir(dir, i) {
        Ok(Some(e)) => e,
        Ok(None) => panic!("no entry {}", i),
        Err(e) => panic!("error {}", e),
    }
}

#[test]
fn listing_a_directory() {
    let mut fs = InMemoryFs::new();
    assert_eq!(fs.mkdir(b"/dirtest"), 0);
    assert_eq!(fs.mkdir(b"/dirtest/sub"), 0);
    for (path, body) in [(&b"/dirtest/a.txt"[..], &b"alpha"[..]), (b"/dirtest/b.txt", b"bravo!")] {
        let fd = fs.open(path, PM);
        assert!(fd >= 0);
        assert_eq!(fs.write(fd, PM, body), body.len() as i64);
        assert_eq!(fs.close(fd, PM), 0);
    }
    let expected: [(&[u8], u8, u64); 3] =
        [(b"sub", KIND_DIR, 0), (b"a.txt", KIND_FILE, 5), (b"b.txt", KIND_FILE, 6)];
    for (i, (name, kind, size)) in expected.iter().enumerate() {
        let e = entry(&fs, b"/dirtest", i);
        assert_eq!(e.name(), *name);
        assert_eq!(e.kind, *kind);
        assert_eq!(e.is_dir(), *kind == KIND_DIR);
        assert_eq!(e.size, *size);
    }
    assert!(matches!(fs.readdir(b"/dirtest", 3), Ok(None)));
    assert!(matches!(fs.readdir(b"/dirtest/sub", 0), Ok(None)));
    assert!(matches!(fs.readdir(b"/no_such_dir", 0), Err(ENOENT)));
    assert!(matches!(fs.readdir(b"/dirtest/a.txt", 0), Err(ENOTDIR)));

    let fd = fs.open_existing(b"/dirtest/a.txt", PM);
    assert!(fd >= 0);
    assert_eq!(fs.close(fd, PM), 0);
    assert_eq!(fs.read(fd, PM, 4), Err(EBADF));
    assert_eq!(fs.close(fd, PM), EBADF);

    for bad in [&b"//dirtest"[..], b"/dirtest/", b"/dirtest//a.txt", b"dirtest"] {
        assert!(matches!(fs.readdir(bad, 0), Err(EINVAL)));
        assert_eq!(fs.mkdir(bad), EINVAL);
        assert_eq!(fs.open_existing(bad, PM), EINVAL);
    }
}

#[test]
fn empty_entry_has_no_name() {
    let e = DirEntry::empty();
    assert_eq!(e.name(), b"");
    assert!(!e.is_dir());
    assert_eq!(e.size, 0);
}

#[test]
fn opening_what_is_not_there() {
    let mut fs = InMemoryFs::new();
    assert_eq!(fs.open_existing(b"/missing", PM), ENOENT);
    assert!(fs.open(b"/missing", PM) >= 0);
    assert!(fs.open_existing(b"/missing", PM) >= 0);
}

#[test]
fn descriptors_belong_to_their_team() {
    let mut fs = InMemoryFs::new();
    let fd = fs.open(b"/secret", PM);
    assert_eq!(fs.write(fd, PM, b"s"), 1);
    assert_eq!(fs.read(fd, OTHER, 1), Err(EBADF));
    assert_eq!(fs.write(fd, OTHER, b"x"), EBADF);
    assert_eq!(fs.close(fd, OTHER), EBADF);
    let later = Owner { team: 0, generation: 2 };
    assert_eq!(fs.read(fd, later, 1), Err(EBADF));
    assert_eq!(fs.close(fd, PM), 0);
}

#[test]
fn closed_descriptor_numbers_are_handed_out_again() {
    let mut fs = InMemoryFs::new();
    let a = fs.open(b"/a", PM);
    let b = fs.open(b"/b", PM);
    assert_eq!(fs.close(a, PM), 0);
    assert_eq!(fs.open(b"/c", PM), a);
    assert!(b > a);
}

#[test]
fn bad_descriptors() {
    let mut fs = InMemoryFs::new();
    assert_eq!(fs.write(-1, PM, b"x"), EBADF);
    assert_eq!(fs.write(99, PM, b"x"), EBADF);
    assert_eq!(fs.read(i64::MAX, PM, 1), Err(EBADF));
    assert_eq!(fs.close(i64::MIN, PM), EBADF);
}

#[test]
fn server_answers_requests() {
    let mut fs = InMemoryFs::new();
    let opened = fs.handle(&Request::Open { name: b"/x".to_vec() }, PM);
    assert_eq!(opened.m_type, FS_OPEN);
    assert_eq!(opened.source, 1);
    assert!(opened.result >= 0);
    let fd = opened.result;
    let wrote = fs.handle(&Request::Write { fd, data: b"abc".to_vec() }, PM);
    assert_eq!((wrote.m_type, wrote.result), (FS_WRITE, 3));
    let again = fs.handle(&Request::Open { name: b"/x".to_vec() }, PM).result;
    let read = fs.handle(&Request::Read { fd: again, len: 8 }, PM);
    assert_eq!((read.m_type, read.result, read.data), (FS_READ, 3, b"abc".to_vec()));
    let made = fs.handle(&Request::Mkdir { name: b"/d".to_vec() }, PM);
    assert_eq!(made.result, 0);
}

#[test]
fn server_rejects_names_that_are_no_text() {
    let mut fs = InMemoryFs::new();
    let good = fs.handle(&Request::Open { name: "/\u{e9}".as_bytes().to_vec() }, PM);
    assert!(good.result >= 0);
    let bad = fs.handle(&Request::Open { name: vec![b'/', 0xff, 0xfe] }, PM);
    assert!(bad.result < 0);
    let bad_dir = fs.handle(&Request::Mkdir { name: vec![b'/', 0xc0] }, PM);
    assert!(bad_dir.result < 0);
}

#[test]
fn whole_files_are_read() {
    let mut fs = InMemoryFs::new();
    let fd = fs.open(b"/big", PM);
    let piece = vec![7u8; 1000];
    for _ in 0..3 {
        assert_eq!(fs.write(fd, PM, &piece), 1000);
    }
    assert_eq!(read_file(&mut fs, b"/big", PM), Ok(vec![7u8; 3000]));
    assert_eq!(read_file(&mut fs, b"/none", PM), Err(ENOENT));
    assert_eq!(read_file(&mut fs, b"none", PM), Err(EINVAL));
}

#[test]
fn oversized_files_are_not_read() {
    let mut fs = InMemoryFs::new();
    let fd = fs.open(b"/huge", PM);
    let piece = vec![0u8; MAX_IMAGE_BYTES];
    assert_eq!(fs.write(fd, PM, &piece), MAX_IMAGE_BYTES as i64);
    assert_eq!(read_file(&mut fs, b"/huge", PM).map(|v| v.len()), Ok(MAX_IMAGE_BYTES));
    assert_eq!(fs.write(fd, PM, b"x"), 1);
    assert_eq!(read_file(&mut fs, b"/huge", PM), Err(EFBIG));
}

#[test]
fn a_script_is_no_program() {
    let mut fs = InMemoryFs::new();
    let kernel = vec![0u64; 512];
    assert_eq!(spawn_from_fs(&mut fs, &kernel, b"/bin/x", PM).err(), Some(ENOENT));
    let fd = fs.open(b"/script", PM);
    assert!(fs.write(fd, PM, &[b'#'; 200]) == 200);
    assert_eq!(spawn_from_fs(&mut fs, &kernel, b"/script", PM).err(), Some(ENOEXEC));
}

#[test]
fn byte_strings() {
    assert!(same_bytes(b"ab", b"ab"));
    assert!(!same_bytes(b"ab", b"abc"));
    assert!(!same_bytes(b"ab", b"ac"));
    assert_eq!(copy_bytes(b"xyz"), b"xyz".to_vec());
}

#[test]
fn an_entry_has_a_layout() {
    let mut entry = DirEntry::empty();
    entry.size = 0x0102;
    entry.kind = KIND_DIR;
    entry.name_len = 3;
    entry.name[..3].copy_from_slice(b"sub");
    let bytes = entry.bytes();
    assert_eq!(bytes.len(), 128);
    assert_eq!(bytes[..14], [2, 1, 0, 0, 0, 0, 0, 0, 1, 3, b's', b'u', b'b', 0]);
}
