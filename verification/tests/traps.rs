use neumann::com;
use neumann::elf::header::ElfError;
use neumann::memory::copy::CopyError;
use neumann::memory::map::MemMap;
use neumann::proc::births::{alloc_proc_nr, spawn, spawn_thread, TrapFrame};
use neumann::proc::clock::{clock_tick, reschedule, start, yield_now};
use neumann::proc::endings::thread_exit;
use neumann::proc::haiku::{
    B_ABSOLUTE_TIMEOUT, B_BAD_ADDRESS, B_BAD_PORT_ID, B_BAD_TEAM_ID, B_BAD_VALUE,
    B_INFINITE_TIMEOUT, B_NAME_NOT_FOUND, B_RELATIVE_TIMEOUT, B_TIMED_OUT, B_WOULD_BLOCK,
};
use neumann::proc::model::AddressSpace;
use neumann::proc::ports::{port_read, PortInfo};
use neumann::proc::queries::{current_proc_nr, is_valid_proc_nr};
use neumann::proc::scheduler::Scheduler;
use neumann::rt::os::{
    close_port, create_port, delete_port, find_port, get_port_info, port_buffer_size,
    port_buffer_size_etc, port_count, read_port, read_port_etc, set_port_owner, system_time,
    write_port, write_port_etc, Call6,
};
use neumann::syscall::caller::{CallerMemory, ERR_ARGS_TOO_BIG, ERR_BAD_ARG_PTR};
use neumann::syscall::dispatch::{
    dispatch, exec_refusal, finish_fork, vircopy_return, wait_return, Action, Trap, ERR_BAD_ELF,
    ERR_BAD_LENGTH, ERR_BAD_UTF8, ERR_FORK_FAILED, ERR_FORK_UNSUPPORTED_CALLER,
    ERR_MULTITHREADED, ERR_NOT_RING3, ERR_NO_CHILDREN, ERR_NO_FREE_PROC, ERR_UNKNOWN_CALL, ERR_VIRCOPY_FAILED,
    SYS_BLOCK_FOREVER, SYS_CONSOLE_WRITE, SYS_EXEC, SYS_EXIT, SYS_FORK, SYS_FS_CLOSE,
    SYS_FS_MKDIR, SYS_FS_OPEN, SYS_FS_OPEN_EXISTING, SYS_FS_READ, SYS_FS_READDIR, SYS_FS_WRITE,
    SYS_GET_UPTIME, SYS_READ_LINE, SYS_SET_ALARM, SYS_VIRCOPY, SYS_WAIT, SYS_WAIT_ALARM,
    SYS_WRITE_LINE,
};

use neumann::syscall::ports::{describe_port, message_waits, read_on, size_on, write_on};

const KERNEL_HEAP: u64 = 0x4444_4444_0000;
const UNMAPPED: u64 = 0x3000_0080_0000;
const OWN_TEXT: u64 = 0x3000_0000_0000;
const OWN_DATA: u64 = 0x3000_0000_1000;
const TOP: u64 = 0x10_0000;
const RING3: u64 = 0x23;

struct World {
    sched: Scheduler,
    kernel: Vec<u64>,
    mem: Vec<u8>,
}

const OWN_SPACE: u64 = 0x5000;

/// Map the page at `addr`, with tables from the frames at `next` on.
fn map_page(mem: &mut [u8], pml4: u64, next: &mut u64, addr: u64, entry: u64) {
    let mut table = pml4;
    for level in (0..4).rev() {
        let at = (table + 8 * ((addr >> (12 + 9 * level)) & 511)) as usize;
        let mut word = [0u8; 8];
        word.copy_from_slice(&mem[at..at + 8]);
        let mut e = u64::from_le_bytes(word);
        if level == 0 {
            e = entry;
        } else if e == 0 {
            e = *next | 7;
            *next += 4096;
        }
        mem[at..at + 8].copy_from_slice(&e.to_le_bytes());
        table = e & 0x000f_ffff_ffff_f000;
    }
}

/// A program whose text is in frame 1 and whose data is in frame 2, and a
/// shell with the same text.
fn world() -> World {
    let mut sched = Scheduler::new((0x1000, 0));
    let mut map = MemMap::empty();
    map.push(OWN_TEXT, 2);
    let space = |pml4: u64| Some(AddressSpace { pml4, map });
    spawn(&mut sched, com::IDLE, "IDLE", 1, 15, 8, true, None, TOP, 2);
    spawn(&mut sched, com::SH_PROC_NR, "sh", 1, 7, 16, true, space(0x6000), TOP, 2);
    spawn(&mut sched, com::SHELL_PROC_NR, "p", 1, 6, 16, true, space(OWN_SPACE), TOP, 2);
    start(&mut sched);
    let mut kernel = vec![0u64; 512];
    kernel[0] = 1;
    kernel[0x88] = 1;
    let mut mem = vec![0u8; 16 * 4096];
    let mut next = 0x8000;
    map_page(&mut mem, OWN_SPACE, &mut next, OWN_TEXT, 0x1000 | 5);
    map_page(&mut mem, OWN_SPACE, &mut next, OWN_DATA, 0x2000 | 7);
    // The kernel's heap is mapped for everybody.
    map_page(&mut mem, OWN_SPACE, &mut next, KERNEL_HEAP, 0x3000 | 7);
    World { sched, kernel, mem }
}

impl World {
    fn put(&mut self, addr: u64, bytes: &[u8]) {
        let at = (addr - OWN_TEXT) as usize + 4096;
        self.mem[at..at + bytes.len()].copy_from_slice(bytes);
    }

    fn call(&mut self, n: u64, a1: u64, a2: u64, a3: u64, a4: u64) -> Action {
        self.call_from(RING3, n, a1, a2, a3, a4)
    }

    fn call_from(&mut self, cs: u64, n: u64, a1: u64, a2: u64, a3: u64, a4: u64) -> Action {
        self.trap(Trap { call_num: n, arg1: a1, arg2: a2, arg3: a3, arg4: a4, arg5: 0, arg6: 0, cs })
    }

    fn trap(&mut self, trap: Trap) -> Action {
        let user = CallerMemory { kernel: &self.kernel, pml4: OWN_SPACE, mem: &self.mem };
        dispatch(&mut self.sched, &user, trap)
    }

    /// A call as a program makes it.
    fn make(&mut self, c: Call6) -> Action {
        let [arg1, arg2, arg3, arg4, arg5, arg6] = c.args;
        self.trap(Trap { call_num: c.number, arg1, arg2, arg3, arg4, arg5, arg6, cs: RING3 })
    }
}

fn returned(a: Action) -> i64 {
    match a {
        Action::Return(v) => v as i64,
        _ => panic!("not refused"),
    }
}

#[test]
fn bad_pointers_are_refused() {
    let mut w = world();
    w.put(OWN_DATA, b"/");
    let bad = ERR_BAD_ARG_PTR as i64;
    let failed = ERR_VIRCOPY_FAILED as i64;
    let cases: [(u64, [u64; 4], i64); 19] = [
        (SYS_WRITE_LINE, [KERNEL_HEAP, 8, 0, 0], bad),
        (SYS_WRITE_LINE, [UNMAPPED, 8, 0, 0], bad),
        (SYS_CONSOLE_WRITE, [KERNEL_HEAP, 8, 0, 0], bad),
        (SYS_CONSOLE_WRITE, [UNMAPPED, 8, 0, 0], bad),
        (SYS_FS_OPEN, [KERNEL_HEAP, 8, 0, 0], bad),
        (SYS_FS_OPEN_EXISTING, [UNMAPPED, 8, 0, 0], bad),
        (SYS_FS_WRITE, [3, KERNEL_HEAP, 8, 0], bad),
        (SYS_FS_READ, [3, OWN_TEXT, 8, 0], bad),
        (SYS_FS_READ, [3, KERNEL_HEAP, 8, 0], bad),
        (SYS_READ_LINE, [OWN_TEXT, 8, 0, 0], bad),
        (SYS_WAIT, [OWN_TEXT, 0, 0, 0], bad),
        (SYS_FS_READDIR, [OWN_DATA, 1, 0, OWN_TEXT], bad),
        (SYS_FS_MKDIR, [KERNEL_HEAP, 8, 0, 0], bad),
        (SYS_EXEC, [KERNEL_HEAP, 8, 0, 0], bad),
        (SYS_VIRCOPY, [(-4i64) as u64, KERNEL_HEAP, OWN_DATA, 4], failed),
        (SYS_VIRCOPY, [12, OWN_TEXT, KERNEL_HEAP, 4], failed),
        (SYS_VIRCOPY, [1000, OWN_TEXT, OWN_DATA, 4], failed),
        (SYS_VIRCOPY, [(-5i64) as u64, OWN_TEXT, OWN_DATA, 4], failed),
        (SYS_VIRCOPY, [12, OWN_TEXT, 0x8000_0000_0000_0000, 0], 0),
    ];
    for (n, a, want) in cases.iter() {
        assert_eq!(returned(w.call(*n, a[0], a[1], a[2], a[3])), *want, "call {} {:x?}", n, a);
    }
    // Addresses that are not even canonical.
    assert_eq!(returned(w.call(SYS_WRITE_LINE, 0x8000_0000_0000_0000, 8, 0, 0)), bad);
    assert_eq!(returned(w.call(SYS_WRITE_LINE, u64::MAX, 8, 0, 0)), bad);
}

#[test]
fn good_calls_become_actions() {
    let mut w = world();
    w.put(OWN_DATA, b"/hello.txt");
    assert!(matches!(w.call(SYS_GET_UPTIME, 0, 0, 0, 0), Action::Return(0)));
    assert!(matches!(w.call(SYS_WRITE_LINE, OWN_DATA, 10, 0, 0), Action::Log(v) if v == b"/hello.txt"));
    assert!(matches!(w.call(SYS_CONSOLE_WRITE, OWN_DATA, 6, 0, 0), Action::Console(v) if v == b"/hello"));
    assert!(matches!(w.call(SYS_FS_OPEN, OWN_DATA, 10, 0, 0), Action::Open(v) if v == b"/hello.txt"));
    assert!(matches!(w.call(SYS_FS_OPEN_EXISTING, OWN_DATA, 10, 0, 0), Action::OpenExisting(v) if v == b"/hello.txt"));
    assert!(matches!(w.call(SYS_FS_MKDIR, OWN_DATA, 6, 0, 0), Action::Mkdir(v) if v == b"/hello"));
    assert!(matches!(w.call(SYS_FS_WRITE, 5, OWN_DATA, 3, 0), Action::Write { fd: 5, data } if data == b"/he"));
    assert!(matches!(w.call(SYS_FS_READ, 5, OWN_DATA, 300, 0), Action::Read { fd: 5, len: 256, .. }));
    assert!(matches!(w.call(SYS_READ_LINE, OWN_DATA, 64, 0, 0), Action::ReadLine { len: 64, .. }));
    assert!(matches!(w.call(SYS_FS_CLOSE, (-1i64) as u64, 0, 0, 0), Action::Close { fd: -1 }));
    assert!(matches!(w.call(SYS_FS_READDIR, OWN_DATA, 6, 2, OWN_DATA), Action::Readdir { index: 2, .. }));
    assert!(matches!(w.call(SYS_BLOCK_FOREVER, 0, 0, 0, 0), Action::BlockForever));
    assert!(matches!(w.call(SYS_WAIT_ALARM, 0, 0, 0, 0), Action::WaitAlarm));
    assert!(matches!(w.call(SYS_EXIT, 0xffff_ffff, 0, 0, 0), Action::Exit(-1)));
    assert!(matches!(w.call(SYS_WAIT, 0, 0, 0, 0), Action::Wait { status: 0 }));
    assert!(matches!(
        w.call(SYS_VIRCOPY, 12, OWN_TEXT, OWN_DATA, 4),
        Action::Vircopy { src_proc: 12, len: 4, .. }
    ));
    assert_eq!(returned(w.call(SYS_SET_ALARM, 9, 0, 0, 0)), 0);
    assert_eq!(w.sched.at(com::slot(com::SHELL_PROC_NR)).alarm, Some(9));
}

#[test]
fn lengths_and_texts_are_checked() {
    let mut w = world();
    w.put(OWN_DATA, &[0xff, 0xfe]);
    assert_eq!(returned(w.call(SYS_WRITE_LINE, OWN_DATA, 257, 0, 0)), ERR_BAD_LENGTH as i64);
    assert_eq!(returned(w.call(SYS_FS_OPEN, OWN_DATA, 2, 0, 0)), ERR_BAD_UTF8 as i64);
    assert_eq!(returned(w.call(SYS_FS_WRITE, 3, OWN_DATA, 257, 0)), ERR_BAD_LENGTH as i64);
    assert_eq!(returned(w.call(SYS_VIRCOPY, 12, OWN_TEXT, OWN_DATA, 257)), ERR_BAD_LENGTH as i64);
    assert_eq!(returned(w.call(999, 0, 0, 0, 0)), ERR_UNKNOWN_CALL as i64);
    assert_eq!(returned(w.call_from(0x08, SYS_EXIT, 0, 0, 0, 0)), ERR_NOT_RING3 as i64);
    assert_eq!(returned(w.call_from(0x08, SYS_WAIT, 0, 0, 0, 0)), ERR_NOT_RING3 as i64);
}

#[test]
fn exec_copies_its_vectors_in() {
    let mut w = world();
    w.put(OWN_DATA, b"/bin/echo");
    w.put(OWN_DATA + 16, b"echo\0hi\0A=b\0");
    for (i, p) in [OWN_DATA + 16, OWN_DATA + 21, 0, OWN_DATA + 24, 0].iter().enumerate() {
        w.put(OWN_DATA + 64 + 8 * i as u64, &p.to_le_bytes());
    }
    match w.call(SYS_EXEC, OWN_DATA, 9, OWN_DATA + 64, OWN_DATA + 88) {
        Action::Exec { path, argv, envp } => {
            assert_eq!(path, b"/bin/echo".to_vec());
            assert_eq!(argv, vec![b"echo".to_vec(), b"hi".to_vec()]);
            assert_eq!(envp, vec![b"A=b".to_vec()]);
        }
        _ => panic!("refused"),
    }
    w.put(OWN_DATA + 64, &UNMAPPED.to_le_bytes());
    assert_eq!(
        returned(w.call(SYS_EXEC, OWN_DATA, 9, OWN_DATA + 64, OWN_DATA + 88)),
        ERR_BAD_ARG_PTR as i64
    );
}

#[test]
fn exec_vectors_have_a_budget() {
    let mut w = world();
    w.put(OWN_DATA, b"/bin/echo");
    w.put(OWN_DATA + 1024, &[b'a'; 2500]);
    w.put(OWN_DATA + 64, &(OWN_DATA + 1024).to_le_bytes());
    w.put(OWN_DATA + 72, &0u64.to_le_bytes());
    assert_eq!(
        returned(w.call(SYS_EXEC, OWN_DATA, 9, OWN_DATA + 64, OWN_DATA + 72)),
        ERR_ARGS_TOO_BIG as i64
    );
}

#[test]
fn exec_vectors_have_at_most_64_strings() {
    let mut w = world();
    w.put(OWN_DATA, b"/bin/echo\0");
    let empty = OWN_DATA + 9;
    for i in 0..64 {
        w.put(OWN_DATA + 64 + 8 * i, &empty.to_le_bytes());
    }
    w.put(OWN_DATA + 64 + 8 * 64, &0u64.to_le_bytes());
    let user = CallerMemory { kernel: &w.kernel, pml4: OWN_SPACE, mem: &w.mem };
    let mut budget = 2048;
    assert_eq!(user.copy_in_vector(OWN_DATA + 64, &mut budget), Ok(vec![Vec::new(); 64]));
    assert_eq!(budget, 2048 - 64);
    match w.call(SYS_EXEC, OWN_DATA, 9, OWN_DATA + 64, 0) {
        Action::Exec { argv, envp, .. } => assert_eq!((argv.len(), envp.len()), (64, 0)),
        _ => panic!("refused"),
    }
    w.put(OWN_DATA + 64 + 8 * 64, &empty.to_le_bytes());
    w.put(OWN_DATA + 64 + 8 * 65, &0u64.to_le_bytes());
    let too_big = ERR_ARGS_TOO_BIG as i64;
    assert_eq!(returned(w.call(SYS_EXEC, OWN_DATA, 9, OWN_DATA + 64, 0)), too_big);
    assert_eq!(returned(w.call(SYS_EXEC, OWN_DATA, 9, 0, OWN_DATA + 64)), too_big);
}

fn frame() -> TrapFrame {
    TrapFrame {
        r15: 0,
        r14: 0,
        r13: 0,
        r12: 0,
        r11: 0,
        r10: 0,
        r9: 0,
        r8: 0,
        rbp: 0,
        rdi: 0,
        rsi: 0,
        rdx: 0,
        rcx: 0,
        rbx: 0,
        rax: SYS_FORK,
        rip: 0x1234,
        cs: RING3,
        rflags: 0x202,
        rsp: 0x5000,
        ss: 0x1b,
    }
}

#[test]
fn forks_claim_a_number() {
    let mut w = world();
    let child = match w.call(SYS_FORK, 0, 0, 0, 0) {
        Action::Fork { child, priority: 6, quantum: 16, preemptible: true, map } => {
            assert_eq!(map.total_pages(), 2);
            child
        }
        _ => panic!("refused"),
    };
    assert_eq!(child, com::FIRST_DYNAMIC_PROC_NR);
    let me = com::SHELL_PROC_NR;
    let (rax, words) =
        finish_fork(&mut w.sched, me, child, 6, 16, true, None, &frame(), TOP, 0x700);
    assert_eq!((rax, words.len()), (ERR_FORK_FAILED, 0));
    assert!(!is_valid_proc_nr(&w.sched, child));
    assert!(matches!(w.call(SYS_FORK, 0, 0, 0, 0), Action::Fork { child: c, .. } if c == child));
    let space = AddressSpace { pml4: 0x9000, map: MemMap::empty() };
    let (rax, words) =
        finish_fork(&mut w.sched, me, child, 6, 16, true, Some(space), &frame(), TOP, 0x700);
    assert_eq!(rax, child as u64);
    assert_eq!(words.len(), 28);
    // The child returns zero from its copy of the trap.
    assert_eq!(words[8 + 14], 0);
    assert_eq!(words[8 + 15], 0x1234);
    assert!(is_valid_proc_nr(&w.sched, child));
}

#[test]
fn forks_can_be_refused() {
    let mut w = world();
    for _ in 0..com::NR_DYNAMIC_PROCS {
        assert!(matches!(w.call(SYS_FORK, 0, 0, 0, 0), Action::Fork { .. }));
    }
    assert_eq!(returned(w.call(SYS_FORK, 0, 0, 0, 0)), ERR_NO_FREE_PROC as i64);
    let mut sched = Scheduler::new((0x1000, 0));
    spawn(&mut sched, com::IDLE, "IDLE", 1, 15, 8, true, None, TOP, 2);
    start(&mut sched);
    w.sched = sched;
    assert_eq!(returned(w.call(SYS_FORK, 0, 0, 0, 0)), ERR_FORK_UNSUPPORTED_CALLER as i64);
}

#[test]
fn exec_needs_the_memory_alone() {
    let mut w = world();
    w.put(OWN_DATA, b"/bin/echo");
    let t = alloc_proc_nr(&mut w.sched).unwrap();
    spawn_thread(&mut w.sched, com::SHELL_PROC_NR, t, &frame(), TOP, 0x700);
    let refused = ERR_MULTITHREADED as i64;
    assert_eq!(refused, -14);
    assert_eq!(returned(w.call(SYS_EXEC, OWN_DATA, 9, 0, 0)), refused);
    // A thread that has ended does not stand in the way.
    yield_now(&mut w.sched);
    let _ = reschedule(&mut w.sched);
    assert_eq!(current_proc_nr(&w.sched), t);
    assert!(thread_exit(&mut w.sched, 0).is_ok());
    let _ = reschedule(&mut w.sched);
    assert_eq!(current_proc_nr(&w.sched), com::SHELL_PROC_NR);
    assert!(matches!(w.call(SYS_EXEC, OWN_DATA, 9, 0, 0), Action::Exec { .. }));
}

#[test]
fn outcomes_become_return_values() {
    assert_eq!(vircopy_return(Ok(())), 0);
    assert_eq!(vircopy_return(Err(CopyError::SrcNotMapped)), ERR_VIRCOPY_FAILED);
    assert_eq!(wait_return(Some((13, 5))), 13);
    assert_eq!(wait_return(None), ERR_NO_CHILDREN);
    assert_eq!(exec_refusal(ElfError::ArgsTooLarge), ERR_ARGS_TOO_BIG);
    assert_eq!(exec_refusal(ElfError::NotElf), ERR_BAD_ELF);
}

const NAME: u64 = OWN_DATA;
const BUF: u64 = OWN_DATA + 0x100;
const CODE: u64 = OWN_DATA + 0x800;

/// What a read delivers: the code and the bytes.
fn delivered(a: Action) -> (i32, Vec<u8>) {
    match a {
        Action::PortMessage { code_at: CODE, code, buffer: BUF, data } => (code, data),
        _ => panic!("no message"),
    }
}

/// A world with a port for four messages, whose name lies at `NAME`.
fn with_port() -> (World, i32) {
    let mut w = world();
    w.put(NAME, b"porttest queue");
    let id = returned(w.make(create_port(4, NAME, 14)));
    assert!(id > 0);
    (w, id as i32)
}

#[test]
fn ports_are_reached_by_calls() {
    let (mut w, port) = with_port();
    assert_eq!(returned(w.make(find_port(NAME, 14))), port as i64);
    assert_eq!(returned(w.make(find_port(NAME, 13))), B_NAME_NOT_FOUND as i64);
    assert_eq!(returned(w.make(create_port(0, NAME, 1))), B_BAD_VALUE as i64);
    for (code, msg) in [(1, &b"one"[..]), (2, b"two!"), (3, b"three")] {
        w.put(BUF, msg);
        assert_eq!(returned(w.make(write_port(port, code, BUF, msg.len() as u64))), 0);
    }
    assert_eq!(returned(w.make(port_count(port))), 3);
    assert_eq!(returned(w.make(port_buffer_size(port))), 3);
    match w.make(get_port_info(port, BUF)) {
        Action::PortInfo { at: BUF, info } => {
            assert_eq!(info.len(), 52);
            assert_eq!(info[0..4], port.to_le_bytes());
            assert_eq!(info[4..8], com::SHELL_PROC_NR.to_le_bytes());
            assert_eq!(&info[8..23], b"porttest queue\0");
            assert_eq!(info[40..52], [4, 0, 0, 0, 3, 0, 0, 0, 0, 0, 0, 0]);
        }
        _ => panic!("refused"),
    }
    for (code, msg) in [(1, &b"one"[..]), (2, b"two!"), (3, b"three")] {
        assert_eq!(delivered(w.make(read_port(port, CODE, BUF, 16))), (code, msg.to_vec()));
    }
    // What fits, the rest dropped.
    w.put(BUF, b"0123456789");
    assert_eq!(returned(w.make(write_port(port, 9, BUF, 10))), 0);
    assert_eq!(delivered(w.make(read_port(port, CODE, BUF, 4))), (9, b"0123".to_vec()));
    // No more writes, then nothing to read, then gone.
    assert_eq!(returned(w.make(write_port(port, 1, BUF, 4))), 0);
    assert_eq!(returned(w.make(close_port(port))), 0);
    assert_eq!(returned(w.make(write_port(port, 2, BUF, 2))), B_BAD_PORT_ID as i64);
    assert_eq!(delivered(w.make(read_port(port, CODE, BUF, 4))), (1, b"0123".to_vec()));
    assert_eq!(returned(w.make(read_port(port, CODE, BUF, 4))), B_BAD_PORT_ID as i64);
    assert_eq!(returned(w.make(delete_port(port))), 0);
    assert_eq!(returned(w.make(port_count(port))), B_BAD_PORT_ID as i64);
    assert_eq!(returned(w.make(get_port_info(port, BUF))), B_BAD_PORT_ID as i64);
}

#[test]
fn port_names_are_cut() {
    let mut w = world();
    w.put(NAME, &[b'n'; 64]);
    let id = returned(w.make(create_port(1, NAME, 64)));
    assert!(id > 0);
    assert_eq!(returned(w.make(find_port(NAME, 31))), id);
    assert_eq!(returned(w.make(find_port(NAME, u64::MAX))), id);
    assert_eq!(returned(w.make(find_port(NAME, 30))), B_NAME_NOT_FOUND as i64);
}

#[test]
fn port_calls_check_the_callers_memory() {
    let (mut w, port) = with_port();
    let bad = B_BAD_ADDRESS as i64;
    for p in [KERNEL_HEAP, UNMAPPED, 0x8000_0000_0000_0000] {
        assert_eq!(returned(w.make(create_port(1, p, 8))), bad);
        assert_eq!(returned(w.make(find_port(p, 8))), bad);
        assert_eq!(returned(w.make(write_port(port, 1, p, 8))), bad);
        assert_eq!(returned(w.make(read_port(port, CODE, p, 8))), bad);
        assert_eq!(returned(w.make(read_port(port, p, BUF, 8))), bad);
        assert_eq!(returned(w.make(get_port_info(port, p))), bad);
    }
    assert_eq!(returned(w.make(read_port(port, CODE, OWN_TEXT, 8))), bad);
    assert_eq!(returned(w.make(get_port_info(port, OWN_TEXT))), bad);
    assert_eq!(returned(w.make(write_port(port, 1, UNMAPPED, 4097))), B_BAD_VALUE as i64);
    assert_eq!(returned(w.make(port_count(port))), 0);
    // Nothing is read from or written to an empty buffer.
    assert_eq!(returned(w.make(write_port(port, 5, 1, 0))), 0);
    match w.make(read_port(port, CODE, 1, 0)) {
        Action::PortMessage { code: 5, buffer: 1, data, .. } => assert!(data.is_empty()),
        _ => panic!("refused"),
    }
}

#[test]
fn port_timeouts_are_passed_on() {
    let (mut w, port) = with_port();
    let relative = |us| read_port_etc(port, CODE, BUF, 4, B_RELATIVE_TIMEOUT, us);
    assert_eq!(returned(w.make(relative(0))), B_WOULD_BLOCK as i64);
    let absolute = port_buffer_size_etc(port, B_ABSOLUTE_TIMEOUT, 0);
    assert_eq!(returned(w.make(absolute)), B_TIMED_OUT as i64);
    for i in 0..4 {
        assert_eq!(returned(w.make(write_port(port, i, BUF, 1))), 0);
    }
    let full = write_port_etc(port, 5, BUF, 1, B_RELATIVE_TIMEOUT, 0);
    assert_eq!(returned(w.make(full)), B_WOULD_BLOCK as i64);
    assert!(!message_waits(&w.sched));
    // Fifty milliseconds are three ticks.
    let full = write_port_etc(port, 5, BUF, 1, B_RELATIVE_TIMEOUT, 50_000);
    assert!(matches!(w.make(full), Action::PortWrite { id, deadline: Some(3) } if id == port));
    assert!(message_waits(&w.sched));
    let _ = reschedule(&mut w.sched);
    assert_eq!(current_proc_nr(&w.sched), com::SH_PROC_NR);
    for _ in 0..3 {
        clock_tick(&mut w.sched);
    }
    let _ = reschedule(&mut w.sched);
    assert_eq!(current_proc_nr(&w.sched), com::SHELL_PROC_NR);
    assert_eq!(returned(write_on(&mut w.sched, port, Some(3))), B_TIMED_OUT as i64);
    assert!(!message_waits(&w.sched));
    assert_eq!(returned(w.make(port_count(port))), 4);
}

#[test]
fn blocked_port_calls_go_on() {
    let (mut w, port) = with_port();
    w.put(BUF, b"abcdef");
    for i in 0..4 {
        assert_eq!(returned(w.make(write_port(port, i, BUF, 1))), 0);
    }
    let infinite = write_port_etc(port, 4, BUF, 6, B_RELATIVE_TIMEOUT, B_INFINITE_TIMEOUT);
    assert!(matches!(w.make(infinite), Action::PortWrite { deadline: None, .. }));
    let _ = reschedule(&mut w.sched);
    // The shell makes room.
    assert_eq!(current_proc_nr(&w.sched), com::SH_PROC_NR);
    let _ = port_read(&mut w.sched, port, 0, 0);
    let _ = reschedule(&mut w.sched);
    assert_eq!(current_proc_nr(&w.sched), com::SHELL_PROC_NR);
    assert_eq!(returned(write_on(&mut w.sched, port, None)), 0);
    for i in 1..4 {
        assert_eq!(delivered(w.make(read_port(port, CODE, BUF, 9))), (i, b"a".to_vec()));
    }
    assert_eq!(delivered(w.make(read_port(port, CODE, BUF, 9))), (4, b"abcdef".to_vec()));
    // Now there is nothing to read, nor to measure.
    assert!(matches!(w.make(port_buffer_size(port)), Action::PortSize { deadline: None, .. }));
    let _ = reschedule(&mut w.sched);
    assert_eq!(current_proc_nr(&w.sched), com::SH_PROC_NR);
    assert_eq!(returned(w.make(write_port(port, 7, BUF, 3))), 0);
    let _ = reschedule(&mut w.sched);
    assert_eq!(current_proc_nr(&w.sched), com::SHELL_PROC_NR);
    assert_eq!(returned(size_on(&mut w.sched, port, None)), 3);
    assert_eq!(delivered(w.make(read_port(port, CODE, BUF, 9))), (7, b"abc".to_vec()));
    let inbox = match w.make(read_port(port, CODE, BUF, 2)) {
        Action::PortRead { inbox, deadline: None, .. } => inbox,
        _ => panic!("there is no message"),
    };
    let _ = reschedule(&mut w.sched);
    assert_eq!(returned(w.make(write_port(port, 8, BUF, 3))), 0);
    let _ = reschedule(&mut w.sched);
    assert_eq!(current_proc_nr(&w.sched), com::SHELL_PROC_NR);
    assert_eq!(delivered(read_on(&mut w.sched, port, None, inbox)), (8, b"ab".to_vec()));
}

#[test]
fn ports_change_hands_by_calls() {
    let (mut w, port) = with_port();
    assert_eq!(returned(w.make(set_port_owner(port, 9999))), B_BAD_TEAM_ID as i64);
    assert_eq!(returned(w.make(set_port_owner(port, com::SH_PROC_NR))), 0);
    match w.make(get_port_info(port, BUF)) {
        Action::PortInfo { info, .. } => assert_eq!(info[4..8], com::SH_PROC_NR.to_le_bytes()),
        _ => panic!("refused"),
    }
    assert_eq!(returned(w.make(set_port_owner(port + 1, 12))), B_BAD_PORT_ID as i64);
}

#[test]
fn a_port_is_described_field_by_field() {
    let mut name = [0u8; 32];
    name[0] = b'q';
    let info =
        PortInfo { port: 0x0403_0201, team: -2, name, capacity: 5, queue_count: 6, total_count: 7 };
    let bytes = describe_port(&info);
    assert_eq!(bytes.len(), 52);
    assert_eq!(bytes[..9], [1, 2, 3, 4, 0xfe, 0xff, 0xff, 0xff, b'q']);
    assert_eq!(bytes[40..], [5, 0, 0, 0, 6, 0, 0, 0, 7, 0, 0, 0]);
}

#[test]
fn the_time_is_told_in_microseconds() {
    let mut w = world();
    assert_eq!(returned(w.make(system_time())), 0);
    for _ in 0..90 {
        clock_tick(&mut w.sched);
        yield_now(&mut w.sched);
    }
    assert_eq!(returned(w.make(system_time())), 1_500_000);
    assert_eq!(returned(w.call(39, 0, 0, 0, 0)), ERR_UNKNOWN_CALL as i64);
    assert_eq!(returned(w.call(27, 0, 0, 0, 0)), ERR_UNKNOWN_CALL as i64);
}
