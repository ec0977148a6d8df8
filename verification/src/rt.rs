//! The runtime that user programs link against, and what the programs
//! themselves decide.
pub mod args;
pub mod heap;
pub mod output;
pub mod reading;
pub mod text;
pub mod os;
pub mod sys;
pub mod thread;
pub mod tools;
pub mod sh;
