//! System calls.
//!
//! A user program makes a system call with the `syscall` instruction. Each one
//! is a function of its own, named `sys_` and the name of the call.
pub mod dispatch;
pub mod exec;
pub mod process;
pub mod wait;
