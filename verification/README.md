# neumann

The core of NeumannOS, a small message-passing operating system for x86_64,
as a verified library: executable Rust whose behaviour is stated in contracts
and proved with Verus.

## Layout

- `src/proc/`: process table, priority scheduler, rendezvous messages, teams
  and threads, semaphores, ports. `model.rs` says what the state is and what
  each operation does to it; `laws.rs` and `histories.rs` hold what follows
  for several operations together.
- `src/memory/`: physical frames, memory maps, page tables and the way through
  them, address spaces, copies between them, and pages that a fork shares
  until one side writes; `steps.rs` says what is done, and undone, while an
  address space is built page by page, and `isolation.rs` that an address
  space does not see what the kernel writes to another one, nor that another
  one is taken down.
- `src/elf/`: program images: headers, the checks before an image is loaded,
  what its pages hold, and the block of arguments on its first stack.
- `src/fs.rs`, `src/fs/`: the in-memory file system and its server.
- `src/syscall/`: what a system call asks for, and which of the caller's
  memory it may name. A call on a port that has to wait is an action of its
  own, and goes on with `write_on`, `read_on` or `size_on`.
- `src/console.rs`, `src/vga.rs`, `src/keyboard.rs`, `src/pic.rs`,
  `src/pit.rs`, `src/interrupts.rs`: devices, as pixels, port writes and
  decisions.
- `src/rs.rs`, `src/table.rs`, `src/usermode.rs`, `src/allocator.rs`,
  `src/calls.rs`, `src/com.rs`, `src/ipc.rs`: the services and the glue
  between the parts.
- `src/rt/`: the runtime that user programs link against, and what the shell
  and the small programs decide.
- `app/`: the kernel binary. It holds the state behind a lock, drives the
  hardware, and carries out what the library decides.
- `tests/`: the library on concrete values.

## How blocking calls work

A call that may block returns a `Step`: `Done` with a result, or `Blocked`, in
which case the running process is off its queue. The caller then reschedules
and, once the process runs again, makes the second half of the call: the same
function again, or the one named for it (`received`, `sem_reacquire`,
`port_read_again` and so on).

## What is trusted

Calls into `x86_64` (`VirtAddr`, `PageTableFlags`) and into the standard
library's UTF-8 support stand behind small functions marked
`#[verifier::external_body]`; their doc comments say what is taken for granted.
