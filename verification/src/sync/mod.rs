//! Synchronization between the threads of a process.
//!
//! A thread is named by the number of its kernel stack. An operation that
//! would put the running thread to sleep says so in its result; the scheduler
//! acts on it.
pub mod condvar;
pub mod mutex;
pub mod semaphore;
pub mod up;
