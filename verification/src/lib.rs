//! A verified x86-64 teaching kernel: frame allocation, four-level page
//! tables, address spaces, processes, threads, signals, scheduling and the
//! tables the processor is programmed with, as functions on plain state.
pub mod config;
pub mod cpu;
pub mod drivers;
pub mod ioapic;
pub mod laws;
pub mod limine_reqs;
pub mod loader;
pub mod mm;
pub mod sync;
pub mod syscall;
pub mod task;
pub mod timer;
pub mod trap;
pub mod uart;
pub mod user;
