//! System calls: what a caller asks for, and what is to be done about it.
pub mod caller;
pub mod dispatch;
pub mod ports;
pub mod promises;
