use neumann::allocator::{heap_pages, HEAP_SIZE, HEAP_START};
use neumann::com;
use neumann::fs::{DirEntry, KIND_DIR};
use neumann::memory::map::MemMap;
use neumann::proc::births::{alloc_proc_nr, spawn, spawn_thread, TrapFrame};
use neumann::proc::clock::{reschedule, start};
use neumann::proc::endings::{thread_exit, Step};
use neumann::proc::model::AddressSpace;
use neumann::proc::queries::current_proc_nr;
use neumann::proc::scheduler::Scheduler;
use neumann::proc::sems::{sem_reacquire, BadSem};
use neumann::rt::heap::{grow, GROW};
use neumann::rt::os;
use neumann::rt::output::Console;
use neumann::rt::sh::{
    exec_failed, forked, help_text, name_too_long, parse_i32, run_line, waited, Command, Forked,
};
use neumann::rt::sys;
use neumann::rt::text::Bytes;
use neumann::rt::thread::{thread_stack, Semaphore, Thread, ThreadStack};
use neumann::rt::tools::{
    cat_step, complain, echo, list, list_file, list_heading, tool_status, CatStep, ListStep,
};

#[test]
fn output_is_buffered() {
    let mut c = Console::new();
    assert_eq!(c.flush(), None);
    assert!(c.write_bytes(&[1; 200]).is_empty());
    assert!(c.write_bytes(&[2; 56]).is_empty());
    let out = c.write_bytes(&[3; 600]);
    assert_eq!(out.len(), 3);
    assert_eq!(out[0][..200], [1; 200]);
    assert_eq!(out[0][200..], [2; 56]);
    assert_eq!(out[1], vec![3; 256]);
    assert_eq!(out[2], vec![3; 256]);
    assert_eq!(c.flush(), Some(vec![3; 88]));
    assert_eq!(c.flush(), None);
    assert_eq!(Console::default().flush(), None);
}

#[test]
fn bytes_are_shown_as_text() {
    assert_eq!(Bytes(b"plain").text(), b"plain".to_vec());
    assert_eq!(Bytes("h\u{e9}".as_bytes()).text(), "h\u{e9}".as_bytes().to_vec());
    assert_eq!(Bytes(b"a\xffb\xc3").text(), b"a?b?".to_vec());
    assert_eq!(Bytes(b"\xff\xff").text(), b"??".to_vec());
    assert_eq!(Bytes(b"").text(), b"".to_vec());
}

#[test]
fn large_buffers_go_in_pieces() {
    let calls = sys::write(7, 0x1000, 600);
    let seen: Vec<(u64, [u64; 4])> = calls.iter().map(|c| (c.number, c.args)).collect();
    assert_eq!(
        seen,
        vec![(7, [7, 0x1000, 256, 0]), (7, [7, 0x1100, 256, 0]), (7, [7, 0x1200, 88, 0])]
    );
    assert!(sys::log(0x1000, 0).is_empty());
    assert_eq!(sys::log(0x1000, 256).len(), 1);
    assert_eq!(sys::console_write(5, 257)[1].args, [5 + 256, 1, 0, 0]);
    assert_eq!(sys::write_result(600, &[256, 256, 88]), Ok(600));
    assert_eq!(sys::write_result(600, &[256, -9, 88]), Err(-9));
}

#[test]
fn system_calls_are_numbered() {
    let shape = |c: sys::Call| (c.number, c.args);
    assert_eq!(shape(sys::uptime()), (1, [0, 0, 0, 0]));
    assert_eq!(shape(sys::open(9, 4)), (6, [9, 4, 0, 0]));
    assert_eq!(shape(sys::open_existing(9, 4)), (15, [9, 4, 0, 0]));
    assert_eq!(shape(sys::close(-1)), (17, [u64::MAX, 0, 0, 0]));
    assert_eq!(shape(sys::mkdir(9, 4)), (19, [9, 4, 0, 0]));
    assert_eq!(shape(sys::readdir(9, 4, 2, 8)), (18, [9, 4, 2, 8]));
    assert_eq!(shape(sys::read(3, 8, 9999)), (8, [3, 8, 256, 0]));
    assert_eq!(shape(sys::read_line(8, 10)), (9, [8, 10, 0, 0]));
    assert_eq!(shape(sys::fork()), (11, [0, 0, 0, 0]));
    assert_eq!(shape(sys::exec(1, 2, 3, 4)), (12, [1, 2, 3, 4]));
    assert_eq!(shape(sys::wait(6)), (14, [6, 0, 0, 0]));
    assert_eq!(shape(sys::exit(-1).0), (13, [0xffff_ffff, 0, 0, 0]));
    assert_eq!(shape(sys::exit(-1).1), (3, [0, 0, 0, 0]));
    assert_eq!(shape(sys::sleep(5).0), (4, [5, 0, 0, 0]));
    assert_eq!(shape(sys::sleep(5).1), (5, [0, 0, 0, 0]));
}

#[test]
fn results_and_errors() {
    assert_eq!(sys::result(5), Ok(5));
    assert_eq!(sys::result(-2), Err(-2));
    assert_eq!(sys::readdir_result(1), Ok(true));
    assert_eq!(sys::readdir_result(0), Ok(false));
    assert_eq!(sys::readdir_result(-20), Err(-20));
    assert_eq!(sys::strerror(sys::ENOENT), "no such file or directory");
    assert_eq!(sys::strerror(sys::ERR_ARGS_TOO_BIG), "argument list too long");
    assert_eq!(sys::strerror(-999), "error");
}

#[test]
fn port_calls_are_numbered() {
    let shape = |c: os::Call6| (c.number, c.args);
    assert_eq!(shape(os::create_port(-1, 8, 3)), (28, [0xffff_ffff, 8, 3, 0, 0, 0]));
    assert_eq!(shape(os::find_port(8, 3)), (29, [8, 3, 0, 0, 0, 0]));
    assert_eq!(shape(os::write_port(5, 1, 8, 3)), (30, [5, 1, 8, 3, 0, 0]));
    assert_eq!(
        shape(os::write_port_etc(5, 1, 8, 3, 8, -1)),
        (30, [5, 1, 8, 3, 8, u64::MAX])
    );
    assert_eq!(shape(os::read_port(5, 1, 8, 3)), (31, [5, 1, 8, 3, 0, 0]));
    assert_eq!(shape(os::read_port_etc(5, 1, 8, 3, 16, 9)), (31, [5, 1, 8, 3, 16, 9]));
    assert_eq!(shape(os::port_buffer_size(5)), (32, [5, 0, 0, 0, 0, 0]));
    assert_eq!(shape(os::port_buffer_size_etc(5, 8, 9)), (32, [5, 8, 9, 0, 0, 0]));
    assert_eq!(shape(os::port_count(5)), (33, [5, 0, 0, 0, 0, 0]));
    assert_eq!(shape(os::close_port(5)), (34, [5, 0, 0, 0, 0, 0]));
    assert_eq!(shape(os::delete_port(5)), (35, [5, 0, 0, 0, 0, 0]));
    assert_eq!(shape(os::get_port_info(5, 8)), (36, [5, 8, 0, 0, 0, 0]));
    assert_eq!(shape(os::set_port_owner(5, -4)), (37, [5, 0xffff_fffc, 0, 0, 0, 0]));
    assert_eq!(shape(os::system_time()), (38, [0, 0, 0, 0, 0, 0]));
}

#[test]
fn names_of_ports() {
    let mut info = os::port_info::new();
    assert_eq!(info.name(), b"");
    info.name[..3].copy_from_slice(b"abc");
    assert_eq!(info.name(), b"abc");
    info.name = [b'x'; 32];
    assert_eq!(info.name(), &[b'x'; 32]);
    assert_eq!(os::port_info::default().capacity, 0);
}

#[test]
fn thread_stacks() {
    assert_eq!(
        thread_stack(0x1000, 8192),
        Ok(ThreadStack { start: 0x2ff0, rsp: 0x2fe8 })
    );
    assert_eq!(
        thread_stack(0x1001, 8192),
        Ok(ThreadStack { start: 0x2ff0, rsp: 0x2fe8 })
    );
    assert_eq!(thread_stack(0x1000, 256), Err(sys::ERR_BAD_ARG_PTR));
    assert_eq!(thread_stack(0x1000, 272), Ok(ThreadStack { start: 0x1100, rsp: 0x10f8 }));
}

fn frame() -> TrapFrame {
    TrapFrame {
        r15: 0,
        r14: 0,
        r13: 0,
        r12: 0,
        r11: 0,
        r10: 0,
        r9: 0,
        r8: 0,
        rbp: 0,
        rdi: 0,
        rsi: 0,
        rdx: 0,
        rcx: 0,
        rbx: 0,
        rax: 0,
        rip: 0,
        cs: 0x23,
        rflags: 0x202,
        rsp: 0,
        ss: 0x1b,
    }
}

#[test]
fn threads_and_semaphores_of_a_program() {
    let mut s = Scheduler::new((0x1000, 0));
    let space = AddressSpace { pml4: 0x5000, map: MemMap::empty() };
    spawn(&mut s, com::IDLE, "IDLE", 1, 15, 8, true, None, 0x10000, 2);
    spawn(&mut s, com::SHELL_PROC_NR, "p", 1, 6, 16, true, Some(space), 0x10000, 2);
    start(&mut s);
    let t = Thread { id: alloc_proc_nr(&mut s).unwrap() };
    spawn_thread(&mut s, com::SHELL_PROC_NR, t.id(), &frame(), 0x10000, 3);
    let sem = Semaphore::new(&mut s, 0).unwrap();
    assert_eq!(sem.acquire(&mut s), Step::Blocked);
    let _ = reschedule(&mut s);
    assert_eq!(current_proc_nr(&s), t.id());
    assert_eq!(sem.release(&mut s), Ok(()));
    assert!(thread_exit(&mut s, 11).is_ok());
    let _ = reschedule(&mut s);
    assert_eq!(sem_reacquire(&mut s, sem.id()), Step::Done(Ok(())));
    assert_eq!(t.join(&mut s), Step::Done(Ok(11)));
    let id = sem.id();
    sem.delete(&mut s);
    assert_eq!(Semaphore { id }.release(&mut s), Err(BadSem));
}

#[test]
fn heap_growth() {
    assert_eq!(grow(0x3800_0000_0000, 10, 8), (GROW, 0x3800_0001_0000));
    assert_eq!(grow(0, 65536, 1), (69632, 69632));
    assert_eq!(grow(0, 100_000, 16), (102_400, 102_400));
    let pages = heap_pages();
    assert_eq!(pages.len(), 256);
    assert_eq!(pages[0], HEAP_START);
    assert_eq!(pages[255], HEAP_START + HEAP_SIZE - 4096);
}

#[test]
fn numbers_are_parsed() {
    assert_eq!(parse_i32(b"0"), Some(0));
    assert_eq!(parse_i32(b"42"), Some(42));
    assert_eq!(parse_i32(b"-7"), Some(-7));
    assert_eq!(parse_i32(b"2147483647"), Some(i32::MAX));
    assert_eq!(parse_i32(b"2147483648"), None);
    assert_eq!(parse_i32(b"-2147483648"), None);
    assert_eq!(parse_i32(b""), None);
    assert_eq!(parse_i32(b"-"), None);
    assert_eq!(parse_i32(b"1x"), None);
    assert_eq!(parse_i32(b"00012"), Some(12));
}

fn parsed(line: &[u8]) -> Option<(Vec<u8>, Vec<Vec<u8>>)> {
    match run_line(line) {
        Command::Run { path, argv } => Some((path, argv)),
        _ => None,
    }
}

#[test]
fn lines_become_commands() {
    assert_eq!(
        parsed(b"  ls\t/bin  "),
        Some((b"/bin/ls".to_vec(), vec![b"ls".to_vec(), b"/bin".to_vec()]))
    );
    assert_eq!(parsed(b"/x/y a"), Some((b"/x/y".to_vec(), vec![b"/x/y".to_vec(), b"a".to_vec()])));
    assert!(matches!(run_line(b""), Command::Nothing));
    assert!(matches!(run_line(b" \t "), Command::Nothing));
    assert!(matches!(run_line(b"exit"), Command::Exit(0)));
    assert!(matches!(run_line(b"exit 3"), Command::Exit(3)));
    assert!(matches!(run_line(b"exit -1 2"), Command::Exit(-1)));
    assert!(matches!(run_line(b"exit x"), Command::Exit(0)));
    assert!(matches!(run_line(b"help me"), Command::Help));
    let mut many = b"a ".repeat(16);
    assert_eq!(parsed(&many).unwrap().1.len(), 16);
    many.extend_from_slice(b"b");
    assert!(matches!(run_line(&many), Command::TooManyWords));
    let long = [b'n'; 252];
    assert!(matches!(run_line(&long), Command::NameTooLong(n) if n == long));
    assert_eq!(parsed(&long[..251]).unwrap().0.len(), 256);
    assert!(help_text().starts_with("programs in /bin:\n"));
}

#[test]
fn words_end_at_a_nul() {
    let (path, argv) = parsed(b"a\0b c d").unwrap();
    assert_eq!(path, b"/bin/a".to_vec());
    assert_eq!(argv, vec![b"a".to_vec(), b"b".to_vec(), b"c".to_vec()]);
}

#[test]
fn what_the_shell_says() {
    assert!(matches!(forked(Ok(0)), Forked::Child));
    assert!(matches!(forked(Ok(13)), Forked::Parent));
    assert!(matches!(forked(Err(-8)), Forked::Fail(l) if l == b"sh: fork: no free process slots\n"));
    assert_eq!(exec_failed(b"foo", -2), b"sh: foo: no such file or directory\n".to_vec());
    assert_eq!(waited(Ok((13, 0))), b"".to_vec());
    assert_eq!(waited(Ok((13, 127))), b"[exit 127]\n".to_vec());
    assert_eq!(waited(Ok((13, -1))), b"[exit -1]\n".to_vec());
    assert_eq!(waited(Ok((13, i32::MIN))), b"[exit -2147483648]\n".to_vec());
    assert_eq!(waited(Err(-10)), b"sh: wait failed: no child processes\n".to_vec());
    assert_eq!(name_too_long(b"zz"), b"sh: zz: name too long\n".to_vec());
}

#[test]
fn echo_prints_its_arguments() {
    assert_eq!(echo(&[b"echo", b"a", b"", b"b c"]), b"a  b c\n".to_vec());
    assert_eq!(echo(&[b"echo"]), b"\n".to_vec());
    assert_eq!(echo(&[]), b"\n".to_vec());
}

#[test]
fn ls_lists_entries() {
    let mut e = DirEntry::empty();
    e.size = 1234;
    e.name[..5].copy_from_slice(b"a.txt");
    e.name_len = 5;
    assert!(matches!(list(b"/", Ok(Some(e))), ListStep::Print(l) if l == b"    1234  a.txt\n"));
    e.kind = KIND_DIR;
    e.size = 123_456_789;
    assert!(matches!(list(b"/", Ok(Some(e))), ListStep::Print(l) if l == b"123456789  a.txt/\n"));
    assert!(matches!(list(b"/", Ok(None)), ListStep::Done));
    assert!(matches!(list(b"/f", Err(-20)), ListStep::TryFile));
    assert!(matches!(list(b"/f", Err(-2)), ListStep::Fail(l) if l == b"ls: /f: no such file or directory\n"));
    assert_eq!(list_file(b"/f", Ok(3)), (b"/f\n".to_vec(), true));
    assert_eq!(list_file(b"/f", Err(-2)), (b"ls: /f: no such file or directory\n".to_vec(), false));
    assert_eq!(list_heading(b"/d", 0, 1), b"".to_vec());
    assert_eq!(list_heading(b"/d", 0, 2), b"/d:\n".to_vec());
    assert_eq!(list_heading(b"/d", 1, 2), b"\n/d:\n".to_vec());
}

#[test]
fn cat_and_mkdir() {
    assert!(matches!(cat_step(b"/f", Ok(9)), CatStep::Write(9)));
    assert!(matches!(cat_step(b"/f", Ok(0)), CatStep::Done));
    assert!(matches!(cat_step(b"/f", Err(-9)), CatStep::Fail(l) if l == b"cat: /f: out of memory\n"));
    assert_eq!(complain("mkdir", b"/d", -17), b"mkdir: /d: already exists\n".to_vec());
    assert_eq!(tool_status(1, 0), 2);
    assert_eq!(tool_status(2, 0), 0);
    assert_eq!(tool_status(3, 1), 1);
}
