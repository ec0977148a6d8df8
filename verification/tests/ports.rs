use neumann::com;
use neumann::memory::map::MemMap;
use neumann::proc::births::{alloc_proc_nr, spawn, spawn_thread, TrapFrame};
use neumann::proc::clock::{clock_tick, reschedule, start, yield_now};
use neumann::proc::endings::{kill, thread_exit, thread_join, Step};
use neumann::proc::haiku::{
    B_ABSOLUTE_TIMEOUT, B_BAD_PORT_ID, B_BAD_TEAM_ID, B_BAD_VALUE, B_INFINITE_TIMEOUT,
    B_NAME_NOT_FOUND, B_NO_MORE_PORTS, B_OK, B_RELATIVE_TIMEOUT, B_TIMED_OUT, B_WOULD_BLOCK,
};
use neumann::proc::model::AddressSpace;
use neumann::proc::ports::{
    deadline_for, port_buffer_size, port_buffer_size_again, port_close, port_count, port_create,
    port_delete, port_find, port_info, port_read, port_read_again, port_set_owner, port_write,
    port_write_again,
};
use neumann::proc::queries::current_proc_nr;
use neumann::proc::scheduler::Scheduler;
use neumann::proc::sems::{sem_acquire, sem_create, sem_release};

const TOP: u64 = 0x10_0000;

fn add(s: &mut Scheduler, nr: i32, priority: u8, pml4: u64) {
    let space = AddressSpace { pml4, map: MemMap::empty() };
    spawn(s, nr, "p", 0x400, priority, 16, true, Some(space), TOP, 0x500);
}

fn frame() -> TrapFrame {
    TrapFrame {
        r15: 0,
        r14: 0,
        r13: 0,
        r12: 0,
        r11: 0,
        r10: 0,
        r9: 0,
        r8: 0,
        rbp: 0,
        rdi: 0,
        rsi: 0,
        rdx: 0,
        rcx: 0,
        rbx: 0,
        rax: 0,
        rip: 0,
        cs: 0x23,
        rflags: 0x202,
        rsp: 0,
        ss: 0x1b,
    }
}

/// A program with one thread besides its main one, which runs.
fn program() -> (Scheduler, i32) {
    let mut s = Scheduler::new((0x1000, 0));
    spawn(&mut s, com::IDLE, "IDLE", 0x400, 15, 8, true, None, TOP, 0x500);
    add(&mut s, com::SHELL_PROC_NR, 6, 0x5000);
    start(&mut s);
    let t = alloc_proc_nr(&mut s).unwrap();
    spawn_thread(&mut s, com::SHELL_PROC_NR, t, &frame(), TOP, 0x700);
    (s, t)
}

fn run(s: &mut Scheduler) -> i32 {
    let _ = reschedule(s);
    current_proc_nr(s)
}

fn write(s: &mut Scheduler, port: i32, code: i32, data: &[u8]) -> Step<i32> {
    port_write(s, port, code, data.to_vec(), 0, 0)
}

fn read(s: &mut Scheduler, port: i32) -> Step<Result<(i32, Vec<u8>), i32>> {
    port_read(s, port, 0, 0)
}

#[test]
fn ports_are_found_by_name() {
    let (mut s, _) = program();
    let port = port_create(&mut s, 4, b"porttest queue");
    assert!(port > 0);
    assert_eq!(port_find(&s, b"porttest queue"), port);
    assert_eq!(port_find(&s, b"no such port"), B_NAME_NOT_FOUND);
    assert_eq!(port_create(&mut s, 0, b"x"), B_BAD_VALUE);
    assert_eq!(port_create(&mut s, 4097, b"x"), B_BAD_VALUE);
}

#[test]
fn ports_keep_order() {
    let (mut s, _) = program();
    let port = port_create(&mut s, 4, b"porttest queue");
    for (code, data) in [(1, &b"one"[..]), (2, b"two!"), (3, b"three")] {
        assert_eq!(write(&mut s, port, code, data), Step::Done(B_OK));
    }
    assert_eq!(port_count(&s, port), 3);
    assert_eq!(port_buffer_size(&mut s, port, 0, 0), Step::Done(3));
    let info = port_info(&s, port).ok().unwrap();
    assert_eq!((info.port, info.capacity, info.queue_count), (port, 4, 3));
    assert_eq!(&info.name[..15], b"porttest queue\0");
    for (code, data) in [(1, &b"one"[..]), (2, b"two!"), (3, b"three")] {
        assert_eq!(read(&mut s, port), Step::Done(Ok((code, data.to_vec()))));
    }
    let info = port_info(&s, port).ok().unwrap();
    assert_eq!((info.total_count, info.queue_count), (3, 0));
}

#[test]
fn full_ports_time_out() {
    let (mut s, _) = program();
    let port = port_create(&mut s, 4, b"full");
    for i in 0..4 {
        assert_eq!(write(&mut s, port, i, b"x"), Step::Done(B_OK));
    }
    assert_eq!(
        port_write(&mut s, port, 5, b"x".to_vec(), B_RELATIVE_TIMEOUT, 0),
        Step::Done(B_WOULD_BLOCK)
    );
    let deadline = deadline_for(B_RELATIVE_TIMEOUT, 50_000, 0).unwrap();
    assert_eq!(deadline, Some(3));
    assert_eq!(
        port_write(&mut s, port, 5, b"x".to_vec(), B_RELATIVE_TIMEOUT, 50_000),
        Step::Blocked
    );
    let other = run(&mut s);
    assert_ne!(other, com::SHELL_PROC_NR);
    for _ in 0..3 {
        clock_tick(&mut s);
        yield_now(&mut s);
        let _ = run(&mut s);
    }
    while current_proc_nr(&s) != com::SHELL_PROC_NR {
        yield_now(&mut s);
        let _ = run(&mut s);
    }
    assert_eq!(port_write_again(&mut s, port, deadline), Step::Done(B_TIMED_OUT));
    assert_eq!(port_count(&s, port), 4);
}

#[test]
fn empty_ports_time_out() {
    let (mut s, _) = program();
    let port = port_create(&mut s, 1, b"empty");
    assert_eq!(
        port_read(&mut s, port, B_RELATIVE_TIMEOUT, 0),
        Step::Done(Err(B_WOULD_BLOCK))
    );
    assert_eq!(port_buffer_size(&mut s, port, B_RELATIVE_TIMEOUT, 20_000), Step::Blocked);
    let deadline = deadline_for(B_RELATIVE_TIMEOUT, 20_000, 0).unwrap();
    let _ = run(&mut s);
    clock_tick(&mut s);
    clock_tick(&mut s);
    while current_proc_nr(&s) != com::SHELL_PROC_NR {
        yield_now(&mut s);
        let _ = run(&mut s);
    }
    assert_eq!(port_buffer_size_again(&mut s, port, deadline), Step::Done(B_TIMED_OUT));
}

#[test]
fn infinite_timeouts_never_end() {
    assert_eq!(deadline_for(B_RELATIVE_TIMEOUT, B_INFINITE_TIMEOUT, 5), Ok(None));
    assert_eq!(deadline_for(B_ABSOLUTE_TIMEOUT, B_INFINITE_TIMEOUT, 5), Ok(None));
    assert_eq!(deadline_for(0, 77, 5), Ok(None));
    let (mut s, _) = program();
    let port = port_create(&mut s, 1, b"empty");
    assert_eq!(
        port_write(&mut s, port, 1, b"inf".to_vec(), B_RELATIVE_TIMEOUT, B_INFINITE_TIMEOUT),
        Step::Done(B_OK)
    );
    assert_eq!(
        port_read(&mut s, port, B_ABSOLUTE_TIMEOUT, B_INFINITE_TIMEOUT),
        Step::Done(Ok((1, b"inf".to_vec())))
    );
}

#[test]
fn readers_and_writers_meet() {
    let (mut s, t) = program();
    let port = port_create(&mut s, 2, b"porttest pc");
    let mut sum = 0i32;
    let mut sent = 0i32;
    let mut taken = 0i32;
    let mut writing = false;
    let mut reading = false;
    while taken < 100 {
        if current_proc_nr(&s) == com::SHELL_PROC_NR && sent < 100 {
            let step = if writing {
                port_write_again(&mut s, port, None)
            } else {
                write(&mut s, port, sent, &(sent * 2).to_le_bytes())
            };
            match step {
                Step::Done(status) => {
                    assert_eq!(status, B_OK);
                    writing = false;
                    sent += 1;
                }
                Step::Blocked => writing = true,
            }
        } else if current_proc_nr(&s) == t {
            let step =
                if reading { port_read_again(&mut s, port, None) } else { read(&mut s, port) };
            match step {
                Step::Done(got) => {
                    let (code, data) = got.unwrap();
                    assert_eq!(code, taken);
                    sum += i32::from_le_bytes([data[0], data[1], data[2], data[3]]);
                    reading = false;
                    taken += 1;
                }
                Step::Blocked => reading = true,
            }
        } else {
            yield_now(&mut s);
        }
        let _ = run(&mut s);
    }
    assert_eq!(sum, 9900);
}

#[test]
fn closed_ports_drain() {
    let (mut s, _) = program();
    let port = port_create(&mut s, 4, b"closing");
    assert_eq!(write(&mut s, port, 1, b"last"), Step::Done(B_OK));
    assert_eq!(port_close(&mut s, port), B_OK);
    assert_eq!(write(&mut s, port, 2, b"no"), Step::Done(B_BAD_PORT_ID));
    assert_eq!(read(&mut s, port), Step::Done(Ok((1, b"last".to_vec()))));
    assert_eq!(read(&mut s, port), Step::Done(Err(B_BAD_PORT_ID)));
    assert_eq!(port_delete(&mut s, port), B_OK);
    assert_eq!(port_count(&s, port), B_BAD_PORT_ID);
    assert_eq!(port_delete(&mut s, port), B_BAD_PORT_ID);
}

#[test]
fn deleting_a_port_wakes_its_reader() {
    let (mut s, t) = program();
    let victim = port_create(&mut s, 1, b"porttest victim");
    let ready = sem_create(&mut s, 0).unwrap();
    assert_eq!(sem_acquire(&mut s, ready), Step::Blocked);
    assert_eq!(run(&mut s), t);
    assert_eq!(sem_release(&mut s, ready), Ok(()));
    assert_eq!(read(&mut s, victim), Step::Blocked);
    assert_eq!(run(&mut s), com::SHELL_PROC_NR);
    assert_eq!(port_count(&s, victim), 0);
    assert_eq!(port_delete(&mut s, victim), B_OK);
    assert_eq!(thread_join(&mut s, t), Step::Blocked);
    assert_eq!(run(&mut s), t);
    assert_eq!(port_read_again(&mut s, victim, None), Step::Done(Err(B_BAD_PORT_ID)));
    assert!(thread_exit(&mut s, B_BAD_PORT_ID).is_ok());
    assert_eq!(run(&mut s), com::SHELL_PROC_NR);
    assert_eq!(thread_join(&mut s, t), Step::Done(Ok(B_BAD_PORT_ID)));
}

#[test]
fn ports_die_with_their_team() {
    let (mut s, _) = program();
    add(&mut s, com::APP1_PROC_NR, 5, 0x9000);
    assert_eq!(run(&mut s), com::APP1_PROC_NR);
    let mine = port_create(&mut s, 1, b"porttest child port");
    assert_eq!(port_find(&s, b"porttest child port"), mine);
    kill(&mut s, com::APP1_PROC_NR);
    assert_eq!(port_find(&s, b"porttest child port"), B_NAME_NOT_FOUND);
}

#[test]
fn ids_of_deleted_ports_stay_dead() {
    let (mut s, _) = program();
    let first = port_create(&mut s, 1, b"a");
    assert_eq!(port_delete(&mut s, first), B_OK);
    let second = port_create(&mut s, 1, b"a");
    assert_ne!(first, second);
    assert_eq!(port_count(&s, first), B_BAD_PORT_ID);
    assert_eq!(port_count(&s, second), 0);
}

#[test]
fn owners_of_ports() {
    let (mut s, _) = program();
    let port = port_create(&mut s, 1, b"mine");
    assert_eq!(port_set_owner(&mut s, port, 9999), B_BAD_TEAM_ID);
    add(&mut s, com::APP1_PROC_NR, 7, 0x9000);
    assert_eq!(port_set_owner(&mut s, port, com::APP1_PROC_NR), B_OK);
    assert_eq!(port_info(&s, port).ok().unwrap().team, com::APP1_PROC_NR);
    assert_eq!(port_set_owner(&mut s, -5, com::APP1_PROC_NR), B_BAD_PORT_ID);
}

#[test]
fn there_are_so_many_ports() {
    let (mut s, _) = program();
    for _ in 0..64 {
        assert!(port_create(&mut s, 1, b"p") > 0);
    }
    assert_eq!(port_create(&mut s, 1, b"p"), B_NO_MORE_PORTS);
}

#[test]
fn oversized_messages_are_refused() {
    let (mut s, _) = program();
    let port = port_create(&mut s, 1, b"p");
    assert_eq!(write(&mut s, port, 1, &vec![0u8; 4097]), Step::Done(B_BAD_VALUE));
    assert_eq!(write(&mut s, port, 1, &vec![0u8; 4096]), Step::Done(B_OK));
}
