//! Programs given as a piece of code and a stack, one page each.
use crate::elf::load::{pages_view, PageModel, PagePlan};
use crate::memory::map::{MemMap, Segment, PAGE_SIZE};
use crate::memory::paging::{canonical, page_flags, PRESENT, USER_ACCESSIBLE, WRITABLE};
use crate::syscall::dispatch::{SYS_BLOCK_FOREVER, SYS_GET_UPTIME};
use vstd::prelude::*;

verus! {

pub const USER_CODE_ADDR: u64 = 0x5555_5555_0000;
pub const USER_STACK_ADDR: u64 = 0x6666_6666_0000;

/// `mov eax, number; int 0x80`.
pub open spec fn call_code(number: u64) -> Seq<u8> {
    seq![0xb8u8, number as u8, 0u8, 0u8, 0u8, 0xcdu8, 0x80u8]
}

/// Asks for the uptime three times, then blocks for good.
pub open spec fn demo_code() -> Seq<u8> {
    call_code(SYS_GET_UPTIME) + call_code(SYS_GET_UPTIME) + call_code(SYS_GET_UPTIME) + call_code(
        SYS_BLOCK_FOREVER,
    )
}

/// The code of the demo program.
pub fn user_code() -> (code: [u8; 28])
    ensures
        code@ == demo_code(),
{
    let u: u8 = SYS_GET_UPTIME as u8;
    let b: u8 = SYS_BLOCK_FOREVER as u8;
    let code: [u8; 28] = [
        0xb8, u, 0, 0, 0, 0xcd, 0x80, 0xb8, u, 0, 0, 0, 0xcd, 0x80, 0xb8, u, 0, 0, 0, 0xcd, 0x80,
        0xb8, b, 0, 0, 0, 0xcd, 0x80,
    ];
    assert(code@ =~= demo_code());
    code
}

/// The pages and the memory map of such a program.
pub struct RingPlan {
    pub map: MemMap,
    pub pages: Vec<PagePlan>,
}

/// The start of the page that holds `addr`.
pub open spec fn page_start(addr: u64) -> u64 {
    (addr - addr % PAGE_SIZE) as u64
}

/// `code` at the start of a page that is zero otherwise.
pub open spec fn code_page(code: Seq<u8>) -> Seq<u8> {
    Seq::new(
        PAGE_SIZE as nat,
        |i: int|
            if i < code.len() {
                code[i]
            } else {
                0u8
            },
    )
}

fn page_of(bytes: &[u8]) -> (page: Vec<u8>)
    requires
        bytes@.len() <= PAGE_SIZE,
    ensures
        page@ == code_page(bytes@),
{
    let mut page: Vec<u8> = Vec::new();
    let mut i: usize = 0;
    while i < PAGE_SIZE as usize
        invariant
            i <= PAGE_SIZE,
            page@ == code_page(bytes@).take(i as int),
        decreases PAGE_SIZE - i,
    {
        page.push(
            if i < bytes.len() {
                bytes[i]
            } else {
                0
            },
        );
        i += 1;
        assert(page@ =~= code_page(bytes@).take(i as int));
    }
    assert(page@ =~= code_page(bytes@));
    page
}

/// What to map for a program whose `code` runs at `code_addr` with its stack
/// in the page of `stack_addr`: both pages open to it for reading and
/// writing, and both in its memory map.
pub fn build_ring3_address_space(code_addr: u64, code: &[u8], stack_addr: u64) -> (plan: RingPlan)
    requires
        canonical(code_addr),
        canonical(stack_addr),
        code@.len() <= PAGE_SIZE,
    ensures
        plan.map.wf(),
        plan.map@ == seq![
            Segment { base: code_addr, pages: 1 },
            Segment { base: stack_addr, pages: 1 },
        ],
        pages_view(plan.pages@) == seq![
            PageModel {
                addr: page_start(code_addr),
                flags: (PRESENT + WRITABLE + USER_ACCESSIBLE) as u64,
                bytes: code_page(code@),
            },
            PageModel {
                addr: page_start(stack_addr),
                flags: (PRESENT + WRITABLE + USER_ACCESSIBLE) as u64,
                bytes: code_page(Seq::empty()),
            },
        ],
{
    let f = page_flags();
    let flags: u64 = f.present | f.writable | f.user_accessible;
    assert(0x1u64 | 0x2u64 | 0x4u64 == 7) by (bit_vector);
    let empty: [u8; 0] = [];
    assert(empty@ =~= Seq::<u8>::empty());
    let mut pages: Vec<PagePlan> = Vec::new();
    pages.push(
        PagePlan { addr: code_addr - code_addr % PAGE_SIZE, flags, bytes: page_of(code) },
    );
    pages.push(
        PagePlan { addr: stack_addr - stack_addr % PAGE_SIZE, flags, bytes: page_of(&empty) },
    );
    let mut map = MemMap::empty();
    map.push(code_addr, 1);
    map.push(stack_addr, 1);
    assert(map@ =~= seq![
        Segment { base: code_addr, pages: 1 },
        Segment { base: stack_addr, pages: 1 },
    ]);
    RingPlan { map, pages }
}

/// What to map for the demo program.
pub fn create_address_space() -> (plan: RingPlan)
    ensures
        plan.map.wf(),
        plan.map@ == seq![
            Segment { base: USER_CODE_ADDR, pages: 1 },
            Segment { base: USER_STACK_ADDR, pages: 1 },
        ],
        pages_view(plan.pages@) == seq![
            PageModel { addr: USER_CODE_ADDR, flags: 7, bytes: code_page(demo_code()) },
            PageModel { addr: USER_STACK_ADDR, flags: 7, bytes: code_page(Seq::empty()) },
        ],
{
    let code = user_code();
    build_ring3_address_space(USER_CODE_ADDR, &code, USER_STACK_ADDR)
}

/// Entry point and first stack pointer of the demo program: the stack grows
/// down from the end of its page.
pub fn ring3_task_entry() -> (start: (u64, u64))
    ensures
        start == (USER_CODE_ADDR, (USER_STACK_ADDR + PAGE_SIZE) as u64),
{
    (USER_CODE_ADDR, USER_STACK_ADDR + PAGE_SIZE)
}

/// A program's code is at the start of its page and zeros are behind it, and
/// the page is the one that holds the address asked for.
pub proof fn code_is_at_the_start_of_its_page(code: Seq<u8>, addr: u64, i: int)
    requires
        code.len() <= 4096,
        0 <= i < 4096,
    ensures
        code_page(code).len() == 4096,
        i < code.len() ==> code_page(code)[i] == code[i],
        i >= code.len() ==> code_page(code)[i] == 0,
        page_start(addr) % 4096 == 0,
        page_start(addr) <= addr < page_start(addr) + 4096,
{
}

} // verus!
