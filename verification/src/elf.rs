//! Program images: what an ELF file says, whether it may be loaded, and what
//! its pages and its first stack hold.
pub mod check;
pub mod file;
pub mod header;
pub mod load;
pub mod placement;
pub mod spawn;
pub mod stack;
