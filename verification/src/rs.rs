//! The service manager: which services there are, when one may be launched,
//! and how often one that died is started again.
use crate::com;
use crate::com::{slot_of, APP1_PROC_NR, FLAKY_PROC_NR, NR_TASKS, PROC_DIED, RS_LAUNCH_REQUEST};
use crate::elf::load::{pages_view, PageModel};
use crate::fs::same_bytes;
use crate::ipc::Message;
use crate::memory::map::{Segment, PAGE_SIZE};
use crate::proc::births::{below, fillable, new_proc, spawn, switch_frame};
use crate::proc::model::{AddressSpace, HEAP_BASE};
use crate::proc::scheduler::Scheduler;
use crate::usermode::{build_ring3_address_space, code_page, RingPlan};
use vstd::prelude::*;
use vstd::string::StringSliceAdditionalSpecFns;

verus! {

/// Where the code and the stack of `flaky` lie.
pub const FLAKY_CODE_ADDR: u64 = 0x5555_5557_0000;
pub const FLAKY_STACK_ADDR: u64 = 0x6666_6668_0000;

/// How often `flaky` is started again.
pub const MAX_RESTARTS: u32 = 3;

/// Replies to a launch request; an error of the loader is passed on as it
/// is.
pub const RS_LAUNCH_OK: i64 = 0;
pub const RS_UNKNOWN_SERVICE: i64 = -1;
pub const RS_ALREADY_RUNNING: i64 = -2;

/// A program that is known by name and restarted when it dies.
#[derive(Clone, Copy, Debug)]
pub struct ServiceEntry {
    pub name: &'static str,
    pub path: &'static str,
    pub proc_nr: i32,
    pub priority: u8,
    pub quantum: i32,
    pub max_restarts: u32,
}

/// Whether a service runs, and how often it has been started again.
#[derive(Clone, Copy, Debug, PartialEq, Eq, Structural)]
pub struct ServiceState {
    pub running: bool,
    pub restarts: u32,
}

/// The services.
pub open spec fn services() -> Seq<ServiceEntry> {
    seq![
        ServiceEntry {
            name: "hello",
            path: "/bin/hello",
            proc_nr: APP1_PROC_NR,
            priority: 6,
            quantum: 16,
            max_restarts: 3,
        },
    ]
}

/// How many there are.
pub const NR_SERVICES: usize = 1;

/// The services.
pub fn service_table() -> (table: [ServiceEntry; 1])
    ensures
        table@ == services(),
{
    let table = [
        ServiceEntry {
            name: "hello",
            path: "/bin/hello",
            proc_nr: APP1_PROC_NR,
            priority: 6,
            quantum: 16,
            max_restarts: 3,
        },
    ];
    assert(table@ =~= services());
    table
}

/// The state of the service manager.
#[verifier::ext_equal]
pub struct RsModel {
    pub flaky_restarts: int,
    pub services: Seq<ServiceState>,
}

/// What a message to the service manager leads to.
#[derive(Clone, Copy, Debug, PartialEq, Eq, Structural)]
pub enum RsAction {
    /// Answer a launch request.
    Launch,
    /// The message is neither a request nor a death report.
    Ignore,
    /// Start `flaky` again, for the given time.
    RestartFlaky(u32),
    /// Start a service again, for the given time.
    Restart(usize, u32),
    /// That process has been started again often enough.
    GiveUp(i32),
    /// That process is none of the services.
    NoPolicy(i32),
}

/// What a launch request leads to.
#[derive(Clone, Copy, Debug, PartialEq, Eq, Structural)]
pub enum LaunchAction {
    /// Load and start that service.
    Load(usize),
    /// Answer with that code.
    Refuse(i64),
}

/// The place of the first service with that name at or after `i`.
pub open spec fn service_named(name: Seq<u8>, i: int) -> Option<int>
    decreases services().len() - i,
{
    if i < 0 || i >= services().len() {
        None
    } else if services()[i].name.spec_bytes() == name {
        Some(i)
    } else {
        service_named(name, i + 1)
    }
}

/// The place of the first service that runs as `proc_nr` at or after `i`.
pub open spec fn service_of(proc_nr: int, i: int) -> Option<int>
    decreases services().len() - i,
{
    if i < 0 || i >= services().len() {
        None
    } else if services()[i].proc_nr == proc_nr {
        Some(i)
    } else {
        service_of(proc_nr, i + 1)
    }
}

/// The process that a death report is about.
pub open spec fn dead(m_type: i32) -> int {
    (m_type & !PROC_DIED) - NR_TASKS
}

impl RsModel {
    pub open spec fn wf(self) -> bool {
        &&& self.services.len() == services().len()
        &&& 0 <= self.flaky_restarts <= MAX_RESTARTS
        &&& forall|i: int|
            0 <= i < services().len() ==> (#[trigger] self.services[i]).restarts
                <= services()[i].max_restarts
    }

    /// The service at `i` died: it no longer runs, and is to be started
    /// again unless that was done often enough.
    pub open spec fn service_died(self, i: int) -> (RsModel, RsAction) {
        let s = self.services[i];
        if s.restarts >= services()[i].max_restarts {
            (
                RsModel {
                    services: self.services.update(
                        i,
                        ServiceState { running: false, restarts: s.restarts },
                    ),
                    ..self
                },
                RsAction::GiveUp(services()[i].proc_nr),
            )
        } else {
            (
                RsModel {
                    services: self.services.update(
                        i,
                        ServiceState { running: false, restarts: (s.restarts + 1) as u32 },
                    ),
                    ..self
                },
                RsAction::Restart(i as usize, (s.restarts + 1) as u32),
            )
        }
    }

    /// What a message of that type leads to.
    pub open spec fn step(self, m_type: i32) -> (RsModel, RsAction) {
        if m_type == RS_LAUNCH_REQUEST {
            (self, RsAction::Launch)
        } else if m_type & PROC_DIED == 0 {
            (self, RsAction::Ignore)
        } else if dead(m_type) == FLAKY_PROC_NR {
            if self.flaky_restarts >= MAX_RESTARTS {
                (self, RsAction::GiveUp(FLAKY_PROC_NR))
            } else {
                (
                    RsModel { flaky_restarts: self.flaky_restarts + 1, ..self },
                    RsAction::RestartFlaky((self.flaky_restarts + 1) as u32),
                )
            }
        } else {
            match service_of(dead(m_type), 0) {
                Some(i) => self.service_died(i),
                None => (self, RsAction::NoPolicy(dead(m_type) as i32)),
            }
        }
    }

    /// What a request to launch `name` leads to.
    pub open spec fn launch(self, name: Seq<u8>) -> LaunchAction {
        match service_named(name, 0) {
            None => LaunchAction::Refuse(RS_UNKNOWN_SERVICE),
            Some(i) => if self.services[i].running {
                LaunchAction::Refuse(RS_ALREADY_RUNNING)
            } else {
                LaunchAction::Load(i as usize)
            },
        }
    }

    /// The service at `i` was started.
    pub open spec fn started(self, i: int) -> RsModel {
        RsModel {
            services: self.services.update(
                i,
                ServiceState { running: true, ..self.services[i] },
            ),
            ..self
        }
    }
}

/// The service manager.
pub struct ReincarnationServer {
    flaky_restarts: u32,
    services: Vec<ServiceState>,
}

impl View for ReincarnationServer {
    type V = RsModel;

    closed spec fn view(&self) -> RsModel {
        RsModel { flaky_restarts: self.flaky_restarts as int, services: self.services@ }
    }
}

impl ReincarnationServer {
    pub open spec fn wf(&self) -> bool {
        self@.wf()
    }

    /// Nothing runs and nothing was started again yet.
    pub fn new() -> (rs: ReincarnationServer)
        ensures
            rs.wf(),
            rs@.flaky_restarts == 0,
            rs@.services == Seq::new(
                services().len(),
                |i: int| ServiceState { running: false, restarts: 0 },
            ),
    {
        let mut states: Vec<ServiceState> = Vec::new();
        states.push(ServiceState { running: false, restarts: 0 });
        assert(states@ =~= Seq::new(
            services().len(),
            |i: int| ServiceState { running: false, restarts: 0 },
        ));
        ReincarnationServer { flaky_restarts: 0, services: states }
    }

    /// Act on a message: the body of the manager's loop.
    pub fn task(&mut self, notif: &Message) -> (action: RsAction)
        requires
            old(self).wf(),
            notif.m_type & PROC_DIED != 0 ==> dead(notif.m_type) >= i32::MIN,
        ensures
            final(self).wf(),
            (final(self)@, action) == old(self)@.step(notif.m_type),
    {
        let ghost before = self@;
        let m_type: i32 = notif.m_type;
        if m_type == RS_LAUNCH_REQUEST {
            return RsAction::Launch;
        }
        if m_type & PROC_DIED == 0 {
            return RsAction::Ignore;
        }
        let proc_nr: i32 = (m_type & !PROC_DIED) - NR_TASKS as i32;
        if proc_nr == FLAKY_PROC_NR {
            if self.flaky_restarts >= MAX_RESTARTS {
                return RsAction::GiveUp(proc_nr);
            }
            self.flaky_restarts += 1;
            return RsAction::RestartFlaky(self.flaky_restarts);
        }
        let table = service_table();
        let mut i: usize = 0;
        while i < NR_SERVICES
            invariant
                i <= NR_SERVICES,
                table@ == services(),
                self.wf(),
                self@ == before,
                before == old(self)@,
                proc_nr == dead(m_type),
                m_type == notif.m_type,
                m_type != RS_LAUNCH_REQUEST,
                m_type & PROC_DIED != 0,
                proc_nr != FLAKY_PROC_NR,
                service_of(proc_nr as int, 0) == service_of(proc_nr as int, i as int),
            decreases NR_SERVICES - i,
        {
            if table[i].proc_nr == proc_nr {
                let mut state = self.services[i];
                state.running = false;
                if state.restarts >= table[i].max_restarts {
                    self.services.set(i, state);
                    assert(self@ =~= before.service_died(i as int).0);
                    return RsAction::GiveUp(proc_nr);
                }
                state.restarts += 1;
                self.services.set(i, state);
                assert(self@ =~= before.service_died(i as int).0);
                return RsAction::Restart(i, state.restarts);
            }
            i += 1;
        }
        RsAction::NoPolicy(proc_nr)
    }

    /// Look `name` up: which service to load and start, or the answer that
    /// refuses it.
    pub fn launch_service(&self, name: &[u8]) -> (action: LaunchAction)
        requires
            self.wf(),
        ensures
            action == self@.launch(name@),
    {
        let table = service_table();
        let mut i: usize = 0;
        while i < NR_SERVICES
            invariant
                i <= NR_SERVICES,
                table@ == services(),
                self.wf(),
                service_named(name@, 0) == service_named(name@, i as int),
            decreases NR_SERVICES - i,
        {
            if same_bytes(table[i].name.as_bytes(), name) {
                return if self.services[i].running {
                    LaunchAction::Refuse(RS_ALREADY_RUNNING)
                } else {
                    LaunchAction::Load(i)
                };
            }
            i += 1;
        }
        LaunchAction::Refuse(RS_UNKNOWN_SERVICE)
    }

    /// Loading service `i`, for the first time or again, came to `outcome`.
    /// Returns the answer to a launch request.
    pub fn launched(&mut self, i: usize, outcome: Result<(), i64>) -> (code: i64)
        requires
            old(self).wf(),
            i < services().len(),
        ensures
            final(self).wf(),
            match outcome {
                Ok(_) => code == RS_LAUNCH_OK && final(self)@ == old(self)@.started(i as int),
                Err(e) => code == e && final(self)@ == old(self)@,
            },
    {
        match outcome {
            Ok(_) => {
                let mut state = self.services[i];
                state.running = true;
                self.services.set(i, state);
                RS_LAUNCH_OK
            },
            Err(e) => e,
        }
    }
}

/// The answer to a launch request.
pub fn launch_reply(code: i64) -> (m: Message)
    ensures
        m == (Message {
            source: com::RS_PROC_NR,
            m_type: RS_LAUNCH_REQUEST,
            args: [code, 0i64, 0i64, 0i64],
        }),
{
    Message { source: com::RS_PROC_NR, m_type: RS_LAUNCH_REQUEST, args: [code, 0, 0, 0] }
}

/// The code of `flaky`: `ud2`, the one instruction that always faults.
pub fn flaky_code() -> (code: [u8; 2])
    ensures
        code@ == seq![0x0fu8, 0x0bu8],
{
    let code: [u8; 2] = [0x0f, 0x0b];
    assert(code@ =~= seq![0x0fu8, 0x0bu8]);
    code
}

/// What to map for `flaky`.
pub fn flaky_space() -> (plan: RingPlan)
    ensures
        plan.map.wf(),
        plan.map@ == seq![
            Segment { base: FLAKY_CODE_ADDR, pages: 1 },
            Segment { base: FLAKY_STACK_ADDR, pages: 1 },
        ],
        pages_view(plan.pages@) == seq![
            PageModel {
                addr: FLAKY_CODE_ADDR,
                flags: 7,
                bytes: code_page(seq![0x0fu8, 0x0bu8]),
            },
            PageModel { addr: FLAKY_STACK_ADDR, flags: 7, bytes: code_page(Seq::empty()) },
        ],
{
    let code = flaky_code();
    build_ring3_address_space(FLAKY_CODE_ADDR, &code, FLAKY_STACK_ADDR)
}

/// Entry point and first stack pointer of `flaky`.
pub fn flaky_task_entry() -> (start: (u64, u64))
    ensures
        start == (FLAKY_CODE_ADDR, (FLAKY_STACK_ADDR + PAGE_SIZE) as u64),
{
    (FLAKY_CODE_ADDR, FLAKY_STACK_ADDR + PAGE_SIZE)
}

/// Make `flaky` a process that runs in `space`, for the first time or again.
/// Returns the words to write at the stack pointer it was given.
pub fn spawn_flaky(
    sched: &mut Scheduler,
    space: AddressSpace,
    task_entry: u64,
    stack_top: u64,
    trampoline: u64,
) -> (frame: Vec<u64>)
    requires
        old(sched).wf(),
        fillable(old(sched)@, FLAKY_PROC_NR),
        space.map.wf(),
        below(stack_top, 8) >= 0,
    ensures
        final(sched).wf(),
        frame@ == switch_frame(trampoline),
        final(sched)@ == old(sched)@.install(
            slot_of(FLAKY_PROC_NR),
            new_proc(
                FLAKY_PROC_NR,
                "flaky (crash demo)",
                task_entry,
                6,
                16,
                true,
                Some(space.pml4),
                space.map,
                below(stack_top, 8) as u64,
                com::NONE,
                FLAKY_PROC_NR,
                HEAP_BASE,
            ),
        ),
{
    spawn(
        sched,
        FLAKY_PROC_NR,
        "flaky (crash demo)",
        task_entry,
        6,
        16,
        true,
        Some(space),
        stack_top,
        trampoline,
    )
}

/// The state after several messages.
pub open spec fn after(rs: RsModel, messages: Seq<i32>) -> RsModel
    decreases messages.len(),
{
    if messages.len() == 0 {
        rs
    } else {
        after(rs, messages.drop_last()).step(messages.last()).0
    }
}

/// How many of several messages led to starting service `i` again.
pub open spec fn times_restarted(rs: RsModel, messages: Seq<i32>, i: int) -> nat
    decreases messages.len(),
{
    if messages.len() == 0 {
        0
    } else {
        let before = times_restarted(rs, messages.drop_last(), i);
        match after(rs, messages.drop_last()).step(messages.last()).1 {
            RsAction::Restart(k, _) => if k == i {
                before + 1
            } else {
                before
            },
            _ => before,
        }
    }
}

/// How many of several messages led to starting `flaky` again.
pub open spec fn times_flaky_restarted(rs: RsModel, messages: Seq<i32>) -> nat
    decreases messages.len(),
{
    if messages.len() == 0 {
        0
    } else {
        let before = times_flaky_restarted(rs, messages.drop_last());
        match after(rs, messages.drop_last()).step(messages.last()).1 {
            RsAction::RestartFlaky(_) => before + 1,
            _ => before,
        }
    }
}

/// Whatever messages arrive, a service that keeps dying is started again at
/// most as often as its entry says, and `flaky` at most `MAX_RESTARTS` times.
pub proof fn restarts_are_limited(rs: RsModel, messages: Seq<i32>, i: int)
    requires
        rs.wf(),
        0 <= i < services().len(),
    ensures
        after(rs, messages).wf(),
        times_restarted(rs, messages, i) + rs.services[i].restarts == after(
            rs,
            messages,
        ).services[i].restarts,
        times_restarted(rs, messages, i) <= services()[i].max_restarts,
        times_flaky_restarted(rs, messages) + rs.flaky_restarts == after(
            rs,
            messages,
        ).flaky_restarts,
        times_flaky_restarted(rs, messages) <= MAX_RESTARTS,
    decreases messages.len(),
{
    if messages.len() > 0 {
        restarts_are_limited(rs, messages.drop_last(), i);
        let before = after(rs, messages.drop_last());
        let m_type = messages.last();
        reveal_with_fuel(service_of, 2);
        match service_of(dead(m_type), 0) {
            Some(k) => {
                assert(k == 0);
            },
            None => {},
        }
    }
}

/// A death report about `flaky` leads to a restart exactly as long as it was
/// not restarted too often.
pub proof fn dead_flaky_is_restarted(rs: RsModel)
    requires
        rs.wf(),
    ensures
        rs.step(com::died_type(FLAKY_PROC_NR)).1 == (if rs.flaky_restarts < MAX_RESTARTS {
            RsAction::RestartFlaky((rs.flaky_restarts + 1) as u32)
        } else {
            RsAction::GiveUp(FLAKY_PROC_NR)
        }),
{
    com::death_report_round_trip(FLAKY_PROC_NR);
    assert((0x4000i32 | 12i32) & !0x4000i32 == 12) by (bit_vector);
    assert((0x4000i32 | 12i32) != 401) by (bit_vector);
}

/// A death report names the process that died.
pub proof fn report_names_the_dead(nr: i32)
    requires
        -4 <= nr,
        nr + 4 < 0x4000,
    ensures
        dead(com::died_type(nr)) == nr,
        com::died_type(nr) & PROC_DIED != 0,
        com::died_type(nr) != RS_LAUNCH_REQUEST,
{
    let n = (nr + NR_TASKS) as i32;
    assert((0x4000i32 | n) & 0x4000i32 != 0 && (0x4000i32 | n) & !0x4000i32 == n && (0x4000i32 | n)
        != 401) by (bit_vector)
        requires
            0 <= n < 0x4000,
    ;
}

/// A service that dies is started again, each time under the next number,
/// until it was three times; then it is given up. It does not count as
/// running until it is started.
pub proof fn dead_service_is_restarted(rs: RsModel)
    requires
        rs.wf(),
    ensures
        ({
            let (next, action) = rs.step(com::died_type(APP1_PROC_NR));
            let n = rs.services[0].restarts;
            &&& !next.services[0].running
            &&& n < 3 ==> action == RsAction::Restart(0, (n + 1) as u32)
                && next.services[0].restarts == n + 1
            &&& n >= 3 ==> action == RsAction::GiveUp(APP1_PROC_NR) && next.services[0].restarts == n
            &&& next.flaky_restarts == rs.flaky_restarts
        }),
        ({
            let (next, action) = rs.step(com::died_type(FLAKY_PROC_NR));
            let n = rs.flaky_restarts;
            &&& n < 3 ==> action == RsAction::RestartFlaky((n + 1) as u32) && next.flaky_restarts == n
                + 1
            &&& n >= 3 ==> action == RsAction::GiveUp(FLAKY_PROC_NR) && next == rs
            &&& next.services == rs.services
        }),
{
    report_names_the_dead(APP1_PROC_NR);
    report_names_the_dead(FLAKY_PROC_NR);
    reveal_with_fuel(service_of, 2);
}

/// The death of a process that is no service changes nothing, and is told
/// apart from any other message; a message that is neither a request nor a
/// report is ignored.
pub proof fn others_are_left_alone(rs: RsModel, nr: i32, m_type: i32)
    requires
        rs.wf(),
        -4 <= nr,
        nr + 4 < 0x4000,
        nr != FLAKY_PROC_NR,
        nr != APP1_PROC_NR,
        m_type & PROC_DIED == 0,
        m_type != RS_LAUNCH_REQUEST,
    ensures
        rs.step(com::died_type(nr)) == (rs, RsAction::NoPolicy(nr)),
        rs.step(m_type) == (rs, RsAction::Ignore),
        rs.step(RS_LAUNCH_REQUEST) == (rs, RsAction::Launch),
{
    report_names_the_dead(nr);
    reveal_with_fuel(service_of, 2);
}

/// A service that does not run is launched by its name and then runs; one
/// that runs is not launched a second time, and a name that no service has
/// is refused.
pub proof fn services_are_launched_once(rs: RsModel, name: Seq<u8>)
    requires
        rs.wf(),
    ensures
        ({
            let known = "hello".spec_bytes();
            &&& !rs.services[0].running ==> rs.launch(known) == LaunchAction::Load(0)
            &&& rs.services[0].running ==> rs.launch(known) == LaunchAction::Refuse(-2i64)
            &&& rs.started(0).services[0].running
            &&& rs.started(0).services[0].restarts == rs.services[0].restarts
            &&& rs.started(0).launch(known) == LaunchAction::Refuse(-2i64)
            &&& name != known ==> rs.launch(name) == LaunchAction::Refuse(-1i64)
        }),
{
    reveal_with_fuel(service_named, 2);
}

} // verus!
