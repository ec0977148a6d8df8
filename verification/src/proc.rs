//! Process table and scheduler.
pub mod births;
pub mod clock;
pub mod endings;
pub mod fairness;
pub mod farewells;
pub mod forks;
pub mod haiku;
pub mod heaps;
pub mod histories;
pub mod laws;
pub mod lifecycle;
pub mod lists;
pub mod mailboxes;
pub mod meetings;
pub mod model;
pub mod ports;
pub mod queries;
pub mod rendezvous;
pub mod rts;
pub mod scheduler;
pub mod sems;
pub mod soundness;
pub mod standing;
pub mod timeouts;
