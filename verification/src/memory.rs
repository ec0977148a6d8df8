//! Memory: what a process's address space holds.
pub mod copy;
pub mod cow;
pub mod frames;
pub mod isolation;
pub mod map;
pub mod meaning;
pub mod paging;
pub mod space;
pub mod steps;
pub mod walk;
