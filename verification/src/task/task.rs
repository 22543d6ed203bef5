//! Threads.
use vstd::prelude::*;
use super::context::TaskContext;
use super::id::{KernelStack, TaskUserRes};
use crate::trap::context::TrapContext;

verus! {

/// The scheduling state of a thread.
#[derive(Copy, Clone, Debug, PartialEq, Eq, Structural)]
pub enum TaskStatus {
    /// waiting in the ready queue
    Ready,
    /// running on a processor
    Running,
    /// waiting for a timer or for another thread
    Blocked,
}

/// A thread of a process.
#[derive(Copy, Clone, Debug, PartialEq, Eq, Structural)]
pub struct TaskControlBlock {
    /// the process of the thread
    pub process: usize,
    /// the kernel stack of the thread
    pub kstack: KernelStack,
    /// the processor that last ran the thread and saves its context
    pub last_cpu: usize,
    /// what changes while the thread lives
    pub inner: TaskControlBlockInner,
}

/// The part of a thread that changes.
#[derive(Copy, Clone, Debug, PartialEq, Eq, Structural)]
pub struct TaskControlBlockInner {
    /// the number and the user stack of the thread, until it exits
    pub res: Option<TaskUserRes>,
    /// the address of the trap context on the kernel stack
    pub trap_cx_ptr: u64,
    /// the trap context
    pub trap_cx: TrapContext,
    /// where the thread goes on in the kernel
    pub task_cx: TaskContext,
    /// the scheduling state
    pub task_status: TaskStatus,
    /// the exit code, once the thread has exited
    pub exit_code: Option<i32>,
}

impl TaskControlBlockInner {
    /// The trap context.
    pub fn get_trap_cx(&self) -> (r: TrapContext)
        ensures
            r == self.trap_cx,
    {
        self.trap_cx
    }
}

} // verus!
