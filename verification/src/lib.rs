//! The core of a small message-passing operating system for x86_64: process
//! table, priority scheduler, rendezvous messages, semaphores, ports, the
//! in-memory file system, the ELF loader's checks, the text console and the
//! runtime that user programs link against.
//!
//! Everything here is a function of plain values. Hardware, page-table
//! registers, interrupts and context switches stay with the kernel binary,
//! which holds the state of this library behind its locks and carries out
//! the actions the library decides on.
pub mod allocator;
pub mod bytes;
pub mod calls;
pub mod com;
pub mod console;
pub mod elf;
pub mod fs;
pub mod interrupts;
pub mod ipc;
pub mod keyboard;
pub mod memory;
pub mod pic;
pub mod pit;
pub mod proc;
pub mod rs;
pub mod rt;
pub mod syscall;
pub mod table;
pub mod usermode;
pub mod vga;
