//! What the kernel promises, stated by what a program or the processor observes.
pub mod addresses;
pub mod boot;
pub mod devices;
pub mod exiting;
pub mod forking;
pub mod machine;
pub mod mapping;
pub mod programs;
pub mod queues;
pub mod scheduling;
pub mod sharing;
pub mod signals;
pub mod spaces;
pub mod starting;
pub mod tables;
pub mod user_access;
pub mod waiting;
