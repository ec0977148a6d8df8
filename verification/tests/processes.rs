use neumann::calls::{finish_exec, sys_fork, sys_fork_from_frame, sys_setalarm};
use neumann::com;
use neumann::elf::load::LoadedImage;
use neumann::ipc::{notify, receive, send, Message};
use neumann::memory::map::MemMap;
use neumann::proc::births::{
    alloc_proc_nr, fork_current, release_proc_nr, spawn, spawn_thread, TrapFrame,
};
use neumann::proc::clock::{
    clock_tick, reschedule, set_alarm, start, system_time_us, uptime_ticks, yield_now,
};
use neumann::proc::endings::{
    die_if_doomed, exit_now, kill, thread_exit, thread_join, wait_for_child, JoinError, Step,
};
use neumann::proc::model::{AddressSpace, HEAP_BASE, HEAP_MAX, STATUS_KILLED};
use neumann::proc::queries::{
    brk, child_of, cr3_of, current_proc_nr, generation_of, is_valid_proc_nr, kernel_cr3,
    mem_map_of, sched_params_of, set_brk, team_identity, team_of, team_size, BrkPlan,
};
use neumann::proc::rendezvous::{received, send_would_deadlock};
use neumann::proc::scheduler::Scheduler;
use neumann::proc::sems::{sem_acquire, sem_create, sem_delete, sem_reacquire, sem_release, BadSem};

const TOP: u64 = 0x10_0000;

fn space(pml4: u64) -> AddressSpace {
    let mut map = MemMap::empty();
    map.push(0x5555_5555_0000, 1);
    AddressSpace { pml4, map }
}

fn add(s: &mut Scheduler, nr: i32, priority: u8, own: Option<u64>) {
    spawn(s, nr, "p", 0x400, priority, 16, true, own.map(space), TOP, 0x500);
}

/// IDLE at the bottom, `pm` and `fs` above it, and `pm` running.
fn booted() -> Scheduler {
    let mut s = Scheduler::new((0x1000, 0x18));
    add(&mut s, com::IDLE, 15, None);
    add(&mut s, com::PM_PROC_NR, 3, None);
    add(&mut s, com::FS_PROC_NR, 4, None);
    let first = start(&mut s);
    assert_eq!(first.next, com::slot(com::PM_PROC_NR));
    s
}

fn run(s: &mut Scheduler) -> i32 {
    let _ = reschedule(s);
    current_proc_nr(s)
}

fn message(m_type: i32) -> Message {
    Message { source: com::PM_PROC_NR, m_type, args: [1, 2, 3, 4] }
}

fn frame() -> TrapFrame {
    TrapFrame {
        r15: 15,
        r14: 14,
        r13: 13,
        r12: 12,
        r11: 11,
        r10: 10,
        r9: 9,
        r8: 8,
        rbp: 7,
        rdi: 6,
        rsi: 5,
        rdx: 4,
        rcx: 3,
        rbx: 2,
        rax: 1,
        rip: 0x400000,
        cs: 0x23,
        rflags: 0x246,
        rsp: 0x7000,
        ss: 0x1b,
    }
}

#[test]
fn the_best_priority_runs_first() {
    let mut s = booted();
    assert_eq!(current_proc_nr(&s), com::PM_PROC_NR);
    assert!(matches!(receive(&mut s, com::ANY), Step::Blocked));
    assert_eq!(run(&mut s), com::FS_PROC_NR);
    assert!(matches!(receive(&mut s, com::ANY), Step::Blocked));
    assert_eq!(run(&mut s), com::IDLE);
}

#[test]
fn a_waiting_receiver_gets_the_message_at_once() {
    let mut s = booted();
    assert!(matches!(receive(&mut s, com::FS_PROC_NR), Step::Blocked));
    assert_eq!(run(&mut s), com::FS_PROC_NR);
    let m = Message { source: com::FS_PROC_NR, m_type: 7, args: [9, 8, 7, 6] };
    send(&mut s, com::PM_PROC_NR, m);
    assert_eq!(run(&mut s), com::PM_PROC_NR);
    let got = received(&s);
    assert_eq!((got.source, got.m_type, got.args), (com::FS_PROC_NR, 7, [9, 8, 7, 6]));
}

#[test]
fn a_sender_waits_in_line() {
    let mut s = booted();
    send(&mut s, com::FS_PROC_NR, message(42));
    assert_eq!(run(&mut s), com::FS_PROC_NR);
    match receive(&mut s, com::ANY) {
        Step::Done(m) => assert_eq!((m.m_type, m.args), (42, [1, 2, 3, 4])),
        Step::Blocked => panic!("nothing in line"),
    }
    assert_eq!(run(&mut s), com::PM_PROC_NR);
}

#[test]
fn receivers_choose_whom_they_hear() {
    let mut s = booted();
    send(&mut s, com::FS_PROC_NR, message(1));
    assert_eq!(run(&mut s), com::FS_PROC_NR);
    assert!(matches!(receive(&mut s, com::CLOCK), Step::Blocked));
    assert_eq!(run(&mut s), com::IDLE);
}

#[test]
fn circles_of_senders_are_noticed() {
    let mut s = booted();
    assert!(!send_would_deadlock(&s, com::FS_PROC_NR));
    send(&mut s, com::FS_PROC_NR, message(1));
    assert_eq!(run(&mut s), com::FS_PROC_NR);
    assert!(send_would_deadlock(&s, com::PM_PROC_NR));
    assert!(!send_would_deadlock(&s, com::IDLE));
}

#[test]
fn notifications_are_lost_unless_awaited() {
    let mut s = booted();
    assert!(!notify(&mut s, com::FS_PROC_NR, 5));
    assert!(matches!(receive(&mut s, com::ANY), Step::Blocked));
    assert_eq!(run(&mut s), com::FS_PROC_NR);
    assert!(notify(&mut s, com::PM_PROC_NR, 5));
    assert_eq!(run(&mut s), com::PM_PROC_NR);
    assert_eq!((received(&s).source, received(&s).m_type), (com::FS_PROC_NR, 5));
}

#[test]
fn alarms_fire_on_their_tick() {
    let mut s = booted();
    set_alarm(&mut s, 2);
    assert!(matches!(receive(&mut s, com::ANY), Step::Blocked));
    assert_eq!(run(&mut s), com::FS_PROC_NR);
    clock_tick(&mut s);
    assert_eq!(run(&mut s), com::FS_PROC_NR);
    clock_tick(&mut s);
    assert_eq!(run(&mut s), com::PM_PROC_NR);
    assert_eq!(received(&s).m_type, com::SYN_ALARM);
    assert_eq!(uptime_ticks(&s), 2);
    sys_setalarm(&mut s, 1);
    assert_eq!(s.at(com::slot(com::PM_PROC_NR)).alarm, Some(3));
}

#[test]
fn time_in_microseconds() {
    let mut s = booted();
    for _ in 0..60 {
        clock_tick(&mut s);
        let _ = run(&mut s);
    }
    assert_eq!(uptime_ticks(&s), 60);
    assert_eq!(system_time_us(&s), 1_000_000);
}

#[test]
fn quanta_run_out() {
    let mut s = Scheduler::new((0x1000, 0));
    add(&mut s, com::IDLE, 15, None);
    add(&mut s, com::PM_PROC_NR, 6, None);
    add(&mut s, com::FS_PROC_NR, 6, None);
    start(&mut s);
    assert_eq!(current_proc_nr(&s), com::FS_PROC_NR);
    for _ in 0..15 {
        clock_tick(&mut s);
        assert_eq!(run(&mut s), com::FS_PROC_NR);
    }
    clock_tick(&mut s);
    assert_eq!(run(&mut s), com::PM_PROC_NR);
}

#[test]
fn yielding_lets_the_next_one_run() {
    let mut s = Scheduler::new((0x1000, 0));
    add(&mut s, com::IDLE, 15, None);
    add(&mut s, com::PM_PROC_NR, 6, None);
    add(&mut s, com::FS_PROC_NR, 6, None);
    start(&mut s);
    assert_eq!(current_proc_nr(&s), com::FS_PROC_NR);
    yield_now(&mut s);
    assert_eq!(run(&mut s), com::PM_PROC_NR);
    yield_now(&mut s);
    assert_eq!(run(&mut s), com::FS_PROC_NR);
}

#[test]
fn process_numbers_come_from_a_pool() {
    let mut s = booted();
    let mut claimed = vec![];
    while let Some(nr) = alloc_proc_nr(&mut s) {
        claimed.push(nr);
    }
    assert_eq!(claimed.len(), com::NR_DYNAMIC_PROCS);
    assert_eq!(claimed[0], com::FIRST_DYNAMIC_PROC_NR);
    for &nr in &claimed {
        release_proc_nr(&mut s, nr);
        assert!(!is_valid_proc_nr(&s, nr));
    }
    assert_eq!(alloc_proc_nr(&mut s), Some(claimed[0]));
}

/// A parent in its own address space, running, and its forked child.
fn family() -> (Scheduler, i32, i32) {
    let mut s = Scheduler::new((0x1000, 0));
    add(&mut s, com::IDLE, 15, None);
    add(&mut s, com::SHELL_PROC_NR, 6, Some(0x5000));
    start(&mut s);
    let child = alloc_proc_nr(&mut s).unwrap();
    let words = fork_current(
        &mut s,
        com::SHELL_PROC_NR,
        child,
        "child",
        6,
        16,
        true,
        space(0x6000),
        &frame(),
        TOP,
        0x700,
    );
    assert_eq!(words.len(), 28);
    assert_eq!(words[7], 0x700);
    assert_eq!(words[8], 15);
    assert_eq!(words[27], 0x1b);
    (s, com::SHELL_PROC_NR, child)
}

#[test]
fn a_fork_makes_a_child() {
    let (s, parent, child) = family();
    assert_eq!(child_of(&s, parent), Some(child));
    assert_eq!(cr3_of(&s, child), (0x6000, 0));
    assert_eq!(team_of(&s, child), child);
    assert_eq!(sched_params_of(&s, child), (6, 16, true));
    assert!(is_valid_proc_nr(&s, child));
    assert_eq!(mem_map_of(&s, child).pages(), vec![0x5555_5555_0000]);
    assert_eq!(team_identity(&s, child), generation_of(&s, child).map(|g| (child, g)));
}

#[test]
fn a_waiting_parent_gets_the_status() {
    let (mut s, parent, child) = family();
    assert!(matches!(wait_for_child(&mut s), Step::Blocked));
    assert_eq!(run(&mut s), child);
    let ended = exit_now(&mut s, 42);
    assert_eq!((ended.proc_nr, ended.address_space), (child, Some(0x6000)));
    assert_eq!(run(&mut s), parent);
    assert_eq!(wait_for_child(&mut s), Step::Done(Some((child, 42))));
    assert!(!is_valid_proc_nr(&s, child));
    assert_eq!(wait_for_child(&mut s), Step::Done(None));
}

#[test]
fn a_status_waits_for_its_parent() {
    let (mut s, parent, child) = family();
    yield_now(&mut s);
    assert_eq!(run(&mut s), child);
    exit_now(&mut s, 7);
    assert_eq!(run(&mut s), parent);
    assert_eq!(wait_for_child(&mut s), Step::Done(Some((child, 7))));
    assert_eq!(child_of(&s, parent), None);
}

#[test]
fn waiting_without_children() {
    let mut s = booted();
    assert_eq!(wait_for_child(&mut s), Step::Done(None));
}

#[test]
fn a_killed_process_reports_to_the_service_manager() {
    let mut s = Scheduler::new((0x1000, 0));
    add(&mut s, com::IDLE, 15, None);
    add(&mut s, com::RS_PROC_NR, 5, None);
    add(&mut s, com::FLAKY_PROC_NR, 6, Some(0x8000));
    start(&mut s);
    assert_eq!(current_proc_nr(&s), com::RS_PROC_NR);
    assert!(matches!(receive(&mut s, com::ANY), Step::Blocked));
    assert_eq!(run(&mut s), com::FLAKY_PROC_NR);
    let ended = kill(&mut s, com::FLAKY_PROC_NR).unwrap();
    assert_eq!(ended.address_space, Some(0x8000));
    assert_eq!(run(&mut s), com::RS_PROC_NR);
    assert_eq!(received(&s).m_type, com::proc_died(com::FLAKY_PROC_NR));
    assert!(!is_valid_proc_nr(&s, com::FLAKY_PROC_NR));
    assert!(kill(&mut s, com::FLAKY_PROC_NR).is_none());
}

#[test]
fn a_killed_child_leaves_a_status() {
    let (mut s, parent, child) = family();
    assert!(matches!(wait_for_child(&mut s), Step::Blocked));
    assert_eq!(run(&mut s), child);
    kill(&mut s, child);
    assert_eq!(run(&mut s), parent);
    assert_eq!(wait_for_child(&mut s), Step::Done(Some((child, STATUS_KILLED))));
}

fn with_thread() -> (Scheduler, i32, i32) {
    let mut s = Scheduler::new((0x1000, 0));
    add(&mut s, com::IDLE, 15, None);
    add(&mut s, com::SHELL_PROC_NR, 6, Some(0x5000));
    start(&mut s);
    let t = alloc_proc_nr(&mut s).unwrap();
    spawn_thread(&mut s, com::SHELL_PROC_NR, t, &frame(), TOP, 0x700);
    (s, com::SHELL_PROC_NR, t)
}

#[test]
fn a_join_collects_what_a_thread_returned() {
    let (mut s, leader, t) = with_thread();
    assert_eq!(team_of(&s, t), leader);
    assert_eq!(team_size(&s, leader), 2);
    assert_eq!(cr3_of(&s, t), (0x5000, 0));
    assert_eq!(thread_join(&mut s, t), Step::Blocked);
    assert_eq!(run(&mut s), t);
    assert!(thread_exit(&mut s, 103).is_ok());
    assert_eq!(run(&mut s), leader);
    assert_eq!(thread_join(&mut s, t), Step::Done(Ok(103)));
    assert_eq!(thread_join(&mut s, t), Step::Done(Err(JoinError::NotAThread)));
    assert_eq!(team_size(&s, leader), 1);
}

#[test]
fn only_threads_can_be_joined() {
    let (mut s, leader, _) = with_thread();
    assert_eq!(thread_join(&mut s, 1), Step::Done(Err(JoinError::NotAThread)));
    assert_eq!(thread_join(&mut s, leader), Step::Done(Err(JoinError::NotAThread)));
    assert_eq!(thread_join(&mut s, 9999), Step::Done(Err(JoinError::NotAThread)));
}

#[test]
fn a_leader_takes_its_team_along() {
    let (mut s, leader, t) = with_thread();
    let ended = exit_now(&mut s, 0);
    assert_eq!(ended.proc_nr, leader);
    assert_eq!(ended.address_space, Some(0x5000));
    assert!(!is_valid_proc_nr(&s, leader));
    assert!(!is_valid_proc_nr(&s, t));
    assert_eq!(run(&mut s), com::IDLE);
}

#[test]
fn a_member_inside_a_call_finishes_it_first() {
    let (mut s, leader, t) = with_thread();
    yield_now(&mut s);
    assert_eq!(run(&mut s), t);
    // The thread sends to a process that does not receive.
    send(&mut s, com::IDLE, message(1));
    assert_eq!(run(&mut s), leader);
    let ended = exit_now(&mut s, 5);
    assert_eq!(ended.address_space, None);
    assert_eq!(run(&mut s), com::IDLE);
    assert!(matches!(receive(&mut s, com::ANY), Step::Done(_)));
    assert_eq!(run(&mut s), t);
    let last = die_if_doomed(&mut s).unwrap();
    assert_eq!(last.address_space, Some(0x5000));
    assert!(!is_valid_proc_nr(&s, t));
    assert!(!is_valid_proc_nr(&s, leader));
}

#[test]
fn units_pass_from_hand_to_hand() {
    let (mut s, leader, t) = with_thread();
    let id = sem_create(&mut s, 1).unwrap();
    assert_eq!(sem_acquire(&mut s, id), Step::Done(Ok(())));
    yield_now(&mut s);
    assert_eq!(run(&mut s), t);
    assert_eq!(sem_acquire(&mut s, id), Step::Blocked);
    assert_eq!(run(&mut s), leader);
    assert_eq!(sem_release(&mut s, id), Ok(()));
    yield_now(&mut s);
    assert_eq!(run(&mut s), t);
    assert_eq!(sem_reacquire(&mut s, id), Step::Done(Ok(())));
    assert_eq!(sem_release(&mut s, id), Ok(()));
    assert_eq!(sem_acquire(&mut s, id), Step::Done(Ok(())));
}

#[test]
fn deleting_a_semaphore_wakes_its_waiters() {
    let (mut s, leader, t) = with_thread();
    let id = sem_create(&mut s, 0).unwrap();
    assert_eq!(sem_acquire(&mut s, id), Step::Blocked);
    assert_eq!(run(&mut s), t);
    assert_eq!(sem_delete(&mut s, id), Ok(()));
    yield_now(&mut s);
    assert_eq!(run(&mut s), leader);
    assert_eq!(sem_reacquire(&mut s, id), Step::Done(Err(BadSem)));
    assert_eq!(sem_release(&mut s, id), Err(BadSem));
    assert_eq!(sem_acquire(&mut s, 9999), Step::Done(Err(BadSem)));
}

#[test]
fn semaphores_belong_to_their_team() {
    let mut s = booted();
    let id = sem_create(&mut s, 3).unwrap();
    assert!(matches!(receive(&mut s, com::ANY), Step::Blocked));
    assert_eq!(run(&mut s), com::FS_PROC_NR);
    assert_eq!(sem_delete(&mut s, id), Err(BadSem));
    let mut made = 1;
    while sem_create(&mut s, 0).is_some() {
        made += 1;
    }
    assert_eq!(made, 32);
}

#[test]
fn the_break_moves_within_the_heap() {
    let mut s = Scheduler::new((0x1000, 0));
    add(&mut s, com::IDLE, 15, None);
    add(&mut s, com::SHELL_PROC_NR, 6, Some(0x5000));
    start(&mut s);
    assert_eq!(brk(&s, 0), BrkPlan::Query(HEAP_BASE));
    assert_eq!(
        brk(&s, HEAP_BASE + 1),
        BrkPlan::Grow { pml4: 0x5000, from: HEAP_BASE, pages: 1 }
    );
    set_brk(&mut s, HEAP_BASE + 1);
    assert_eq!(brk(&s, 0), BrkPlan::Query(HEAP_BASE + 1));
    assert_eq!(brk(&s, HEAP_BASE + 4096), BrkPlan::Keep);
    assert_eq!(
        brk(&s, HEAP_BASE),
        BrkPlan::Shrink { pml4: 0x5000, from: HEAP_BASE, pages: 1 }
    );
    assert_eq!(brk(&s, HEAP_BASE - 1), BrkPlan::Refuse);
    assert_eq!(brk(&s, HEAP_BASE + HEAP_MAX + 1), BrkPlan::Refuse);
}

#[test]
fn kernel_tasks_have_no_heap() {
    let s = booted();
    assert_eq!(brk(&s, HEAP_BASE + 1), BrkPlan::Refuse);
    assert_eq!(kernel_cr3(&s), 0x1000);
    assert_eq!(cr3_of(&s, com::PM_PROC_NR), (0x1000, 0x18));
}

#[test]
fn generations_tell_processes_apart() {
    let mut s = booted();
    let nr = com::APP1_PROC_NR;
    add(&mut s, nr, 6, Some(0x9000));
    let first = generation_of(&s, nr).unwrap();
    kill(&mut s, nr);
    assert_eq!(generation_of(&s, nr), None);
    add(&mut s, nr, 6, Some(0x9000));
    assert_ne!(generation_of(&s, nr).unwrap(), first);
}

#[test]
fn forks_need_an_address_space() {
    let mut s = Scheduler::new((0x1000, 0));
    add(&mut s, com::IDLE, 15, None);
    add(&mut s, com::DRVR_PROC_NR, 6, Some(0x5000));
    start(&mut s);
    let none =
        sys_fork(&mut s, com::DRVR_PROC_NR, com::INIT_PROC_NR, "init", 0x10, 5, 24, true, None, TOP, 0x20);
    assert!(none.is_none());
    assert!(!is_valid_proc_nr(&s, com::INIT_PROC_NR));
    let some = sys_fork(
        &mut s,
        com::DRVR_PROC_NR,
        com::INIT_PROC_NR,
        "init",
        0x10,
        5,
        24,
        true,
        Some(space(0x7000)),
        TOP,
        0x20,
    );
    assert_eq!(some, Some(vec![0, 0, 0, 0, 0, 0, 0x202, 0x20]));
    assert_eq!(run(&mut s), com::INIT_PROC_NR);
    assert_eq!(
        sys_fork_from_frame(&mut s, com::DRVR_PROC_NR, 13, "x", 6, 16, true, None, &frame(), TOP, 1),
        None
    );
}

#[test]
fn exec_replaces_the_address_space() {
    let mut s = Scheduler::new((0x1000, 0));
    add(&mut s, com::IDLE, 15, None);
    add(&mut s, com::SHELL_PROC_NR, 6, Some(0x5000));
    start(&mut s);
    set_brk(&mut s, HEAP_BASE + 5);
    let loaded =
        LoadedImage { pml4: 0x9000, entry: 1, stack_pointer: 2, map: space(0).map };
    let replaced = finish_exec(&mut s, com::SHELL_PROC_NR, loaded);
    assert_eq!(replaced.previous, Some(0x5000));
    assert_eq!(replaced.load_now, Some(0));
    assert_eq!(brk(&s, 0), BrkPlan::Query(HEAP_BASE));
    let f = frame().exec_into(0x4000, 0x8000);
    assert_eq!((f.rip, f.rsp, f.rflags, f.cs, f.ss), (0x4000, 0x8000, 0x202, 0x23, 0x1b));
    assert_eq!((f.rax, f.rdi, f.r15), (0, 0, 0));
}

#[test]
fn names_of_dynamic_processes() {
    assert_eq!(com::dynamic_proc_name(com::FIRST_DYNAMIC_PROC_NR), "forked child 1");
    assert_eq!(com::dynamic_proc_name(com::FIRST_DYNAMIC_PROC_NR + 15), "forked child 16");
    assert_eq!(com::dynamic_proc_name(0), "forked child");
}

#[test]
fn numbers_and_slots() {
    assert_eq!(com::slot(com::IDLE), 0);
    assert_eq!(com::slot(com::PM_PROC_NR), 4);
    assert_eq!(com::proc_nr_of_slot(0), com::IDLE);
    let report = com::proc_died(com::FLAKY_PROC_NR);
    assert_eq!(report, 0x4000 | 12);
    assert_eq!(com::proc_died_slot(report), Some(12));
    assert_eq!(com::proc_died_slot(com::notify_from(3)), None);
    assert_eq!(com::notify_from(3), 0x1007);
}

#[test]
fn a_blocked_process_is_charged_too() {
    let mut s = booted();
    let me = com::slot(com::PM_PROC_NR);
    let left = s.at(me).ticks_left;
    assert!(matches!(receive(&mut s, com::ANY), Step::Blocked));
    // The tick comes before anybody else is chosen.
    for k in 1..=20 {
        clock_tick(&mut s);
        assert_eq!(s.at(me).ticks_left, left - k);
    }
    assert_eq!(uptime_ticks(&s), 20);
    assert_eq!(run(&mut s), com::FS_PROC_NR);
}

#[test]
fn a_second_alarm_replaces_the_first() {
    let mut s = booted();
    set_alarm(&mut s, 1);
    set_alarm(&mut s, 3);
    assert!(matches!(receive(&mut s, com::CLOCK), Step::Blocked));
    assert_eq!(run(&mut s), com::FS_PROC_NR);
    for _ in 0..2 {
        clock_tick(&mut s);
        assert_eq!(run(&mut s), com::FS_PROC_NR);
    }
    clock_tick(&mut s);
    assert_eq!(run(&mut s), com::PM_PROC_NR);
    assert_eq!(received(&s).m_type, com::SYN_ALARM);
    assert_eq!(s.at(com::slot(com::PM_PROC_NR)).alarm, None);
    // Woken once: there is no other alarm to come.
    assert!(matches!(receive(&mut s, com::CLOCK), Step::Blocked));
    assert_eq!(run(&mut s), com::FS_PROC_NR);
    for _ in 0..9 {
        clock_tick(&mut s);
        assert_eq!(run(&mut s), com::FS_PROC_NR);
    }
}

#[test]
fn a_semaphore_gives_as_many_units_as_it_has() {
    let (mut s, leader, t) = with_thread();
    let id = sem_create(&mut s, 3).unwrap();
    for _ in 0..3 {
        assert_eq!(sem_acquire(&mut s, id), Step::Done(Ok(())));
    }
    assert_eq!(sem_acquire(&mut s, id), Step::Blocked);
    assert_eq!(run(&mut s), t);
    assert_eq!(sem_acquire(&mut s, id), Step::Blocked);
    assert_eq!(run(&mut s), com::IDLE);
    // Whoever waited longest is served first.
    assert_eq!(sem_release(&mut s, id), Ok(()));
    assert_eq!(run(&mut s), leader);
    assert_eq!(sem_reacquire(&mut s, id), Step::Done(Ok(())));
    assert_eq!(sem_release(&mut s, id), Ok(()));
    yield_now(&mut s);
    assert_eq!(run(&mut s), t);
    assert_eq!(sem_reacquire(&mut s, id), Step::Done(Ok(())));
}

#[test]
fn generations_stay_while_a_process_lives() {
    let (mut s, parent, child) = family();
    let before = (generation_of(&s, parent), generation_of(&s, child));
    clock_tick(&mut s);
    set_alarm(&mut s, 5);
    let image = LoadedImage { pml4: 0x7000, entry: 1, stack_pointer: 2, map: space(0).map };
    let _ = finish_exec(&mut s, parent, image);
    let id = sem_create(&mut s, 0).unwrap();
    assert_eq!(sem_release(&mut s, id), Ok(()));
    assert!(matches!(wait_for_child(&mut s), Step::Blocked));
    assert_eq!((generation_of(&s, parent), generation_of(&s, child)), before);
    assert_eq!(run(&mut s), child);
    exit_now(&mut s, 1);
    assert_eq!(generation_of(&s, parent), before.0);
    assert_eq!(generation_of(&s, child), None);
    // The next process with that number is another one.
    assert_eq!(run(&mut s), parent);
    assert_eq!(alloc_proc_nr(&mut s), Some(child));
    fork_current(&mut s, parent, child, "again", 6, 16, true, space(0x9000), &frame(), TOP, 1);
    assert_eq!(generation_of(&s, child), before.1.map(|g| g + 1));
}
