use neumann::com;
use neumann::interrupts::{recover_or_halt, FaultAction, TrapCounts};
use neumann::ipc::Message;
use neumann::memory::map::Segment;
use neumann::proc::model::AddressSpace;
use neumann::proc::scheduler::Scheduler;
use neumann::rs::{
    flaky_code, flaky_space, flaky_task_entry, launch_reply, service_table, spawn_flaky,
    LaunchAction, ReincarnationServer, RsAction, FLAKY_CODE_ADDR, FLAKY_STACK_ADDR,
    RS_ALREADY_RUNNING, RS_LAUNCH_OK, RS_UNKNOWN_SERVICE,
};
use neumann::table::{boot_entries, task_entries, NR_BOOT_PROCS};
use neumann::usermode::{
    build_ring3_address_space, create_address_space, ring3_task_entry, user_code, USER_CODE_ADDR,
    USER_STACK_ADDR,
};

fn report(nr: i32) -> Message {
    Message { source: com::SYSTEM, m_type: com::proc_died(nr), args: [0, 0, 0, 0] }
}

#[test]
fn flaky_is_restarted_three_times() {
    let mut rs = ReincarnationServer::new();
    let died = report(com::FLAKY_PROC_NR);
    assert_eq!(rs.task(&died), RsAction::RestartFlaky(1));
    assert_eq!(rs.task(&died), RsAction::RestartFlaky(2));
    assert_eq!(rs.task(&died), RsAction::RestartFlaky(3));
    assert_eq!(rs.task(&died), RsAction::GiveUp(com::FLAKY_PROC_NR));
    assert_eq!(rs.task(&died), RsAction::GiveUp(com::FLAKY_PROC_NR));
}

#[test]
fn services_are_launched_by_name() {
    let mut rs = ReincarnationServer::new();
    assert_eq!(rs.launch_service(b"nothing"), LaunchAction::Refuse(RS_UNKNOWN_SERVICE));
    assert_eq!(rs.launch_service(b"hello"), LaunchAction::Load(0));
    assert_eq!(rs.launched(0, Err(-2)), -2);
    assert_eq!(rs.launch_service(b"hello"), LaunchAction::Load(0));
    assert_eq!(rs.launched(0, Ok(())), RS_LAUNCH_OK);
    assert_eq!(rs.launch_service(b"hello"), LaunchAction::Refuse(RS_ALREADY_RUNNING));
    assert_eq!(service_table()[0].path, "/bin/hello");
}

#[test]
fn a_dead_service_may_be_launched_again() {
    let mut rs = ReincarnationServer::new();
    rs.launched(0, Ok(()));
    let died = report(com::APP1_PROC_NR);
    for attempt in 1..4 {
        assert_eq!(rs.task(&died), RsAction::Restart(0, attempt));
        rs.launched(0, Ok(()));
    }
    assert_eq!(rs.task(&died), RsAction::GiveUp(com::APP1_PROC_NR));
    assert_eq!(rs.launch_service(b"hello"), LaunchAction::Load(0));
}

#[test]
fn other_messages() {
    let mut rs = ReincarnationServer::new();
    assert_eq!(rs.task(&report(com::PM_PROC_NR)), RsAction::NoPolicy(com::PM_PROC_NR));
    let launch = Message { source: 9, m_type: com::RS_LAUNCH_REQUEST, args: [0, 0, 0, 0] };
    assert_eq!(rs.task(&launch), RsAction::Launch);
    let odd = Message { source: 9, m_type: 0x1003, args: [0, 0, 0, 0] };
    assert_eq!(rs.task(&odd), RsAction::Ignore);
    let reply = launch_reply(-2);
    assert_eq!((reply.source, reply.m_type, reply.args), (2, 401, [-2, 0, 0, 0]));
}

#[test]
fn flaky_runs_one_faulting_instruction() {
    assert_eq!(flaky_code(), [0x0f, 0x0b]);
    let plan = flaky_space();
    assert_eq!(plan.pages[0].addr, FLAKY_CODE_ADDR);
    assert_eq!(&plan.pages[0].bytes[..3], &[0x0f, 0x0b, 0]);
    assert_eq!(flaky_task_entry(), (FLAKY_CODE_ADDR, FLAKY_STACK_ADDR + 4096));
    let mut s = Scheduler::new((0x1000, 0));
    spawn_flaky(&mut s, AddressSpace { pml4: 0x7000, map: plan.map }, 0x10, 0x9000, 0x20);
    let p = s.at(com::slot(com::FLAKY_PROC_NR));
    assert_eq!((p.name, p.priority, p.cr3), ("flaky (crash demo)", 6, Some(0x7000)));
}

#[test]
fn ring3_programs_have_two_pages() {
    let plan = create_address_space();
    assert_eq!(plan.pages.len(), 2);
    assert_eq!((plan.pages[0].addr, plan.pages[0].flags), (USER_CODE_ADDR, 7));
    assert_eq!((plan.pages[1].addr, plan.pages[1].flags), (USER_STACK_ADDR, 7));
    assert_eq!(&plan.pages[0].bytes[..28], &user_code());
    assert!(plan.pages[1].bytes.iter().all(|&b| b == 0));
    assert_eq!(
        plan.map.segments(),
        vec![Segment { base: USER_CODE_ADDR, pages: 1 }, Segment { base: USER_STACK_ADDR, pages: 1 }]
    );
    assert_eq!(&user_code()[..7], &[0xb8, 1, 0, 0, 0, 0xcd, 0x80]);
    assert_eq!(user_code()[22], 3);
    assert_eq!(ring3_task_entry(), (USER_CODE_ADDR, USER_STACK_ADDR + 4096));
    let odd = build_ring3_address_space(0x1234, &[1, 2], 0x5678);
    assert_eq!((odd.pages[0].addr, odd.pages[1].addr), (0x1000, 0x5000));
    assert_eq!(odd.map.segments()[0].base, 0x1234);
}

#[test]
fn faults_of_programs_and_of_the_kernel() {
    assert_eq!(recover_or_halt(0x23), FaultAction::Kill);
    assert_eq!(recover_or_halt(0x1b), FaultAction::Kill);
    assert_eq!(recover_or_halt(0x08), FaultAction::Halt);
    assert_eq!(recover_or_halt(0x22), FaultAction::Halt);
}

#[test]
fn demo_traps_are_counted() {
    let mut counts = TrapCounts::new();
    for i in 1..5 {
        assert_eq!(counts.record(com::DRVR_PROC_NR), (i, false));
    }
    assert_eq!(counts.record(com::DRVR_PROC_NR), (5, true));
    assert_eq!(counts.record(com::IDLE), (1, false));
}

#[test]
fn the_system_image() {
    let image = boot_entries();
    assert_eq!(image.len(), NR_BOOT_PROCS);
    assert_eq!((image[0].proc_nr, image[0].name), (com::IDLE, "IDLE"));
    assert_eq!((image[7].proc_nr, image[7].name), (com::TTY_PROC_NR, "tty"));
    let mut numbers: Vec<i32> = image.iter().map(|e| e.proc_nr).collect();
    numbers.sort();
    numbers.dedup();
    assert_eq!(numbers.len(), NR_BOOT_PROCS);
}

#[test]
fn the_service_manager_goes_before_programs() {
    let tasks = task_entries();
    let priority = |nr: i32| tasks.iter().find(|t| t.proc_nr == nr).unwrap().priority;
    assert_eq!(tasks.len(), 12);
    assert_eq!(priority(com::RS_PROC_NR), 5);
    assert_eq!(priority(com::FLAKY_PROC_NR), 6);
    assert_eq!(priority(com::SH_PROC_NR), 6);
    assert!(tasks.iter().all(|t| t.proc_nr == com::IDLE || t.priority < priority(com::IDLE)));
    assert!(tasks.iter().all(|t| t.preemptible == (t.proc_nr != com::CLOCK)));
}
