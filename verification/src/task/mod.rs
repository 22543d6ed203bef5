//! Processes and threads.
//!
//! The scheduling unit is a thread; what the threads of a process share lives
//! in the process. A thread is named by the number of its kernel stack, a
//! process by its pid.
pub mod action;
pub mod adopt;
pub mod args;
pub mod boot;
pub mod check;
pub mod context;
pub mod create;
pub mod delivery;
pub mod exec;
pub mod exit;
pub mod fork;
pub mod guarantees;
pub mod id;
pub mod initproc;
pub mod kernel;
pub mod manager;
pub mod pid;
pub mod process;
pub mod processor;
pub mod reap;
pub mod res;
pub mod schedule;
pub mod signal;
pub mod signals;
pub mod task;
pub mod terminate;
