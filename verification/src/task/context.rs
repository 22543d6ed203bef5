//! The context of a thread that is switched away from in the kernel.
use vstd::prelude::*;

verus! {

/// The registers that a switch between threads saves.
#[derive(Copy, Clone, Debug, PartialEq, Eq, Structural)]
pub struct TaskContext {
    /// where to go on: the end of the trap path for a new thread, the return
    /// address of the switch for one that was switched away from
    pub rip: u64,
    /// the kernel stack pointer
    pub rsp: u64,
    pub rbx: u64,
    pub rbp: u64,
    pub r12: u64,
    pub r13: u64,
    pub r14: u64,
    pub r15: u64,
}

/// The context that goes on at `rip` with stack pointer `rsp`.
pub open spec fn context_at(rip: u64, rsp: u64) -> TaskContext {
    TaskContext { rip, rsp, rbx: 0, rbp: 0, r12: 0, r13: 0, r14: 0, r15: 0 }
}

impl TaskContext {
    /// An empty context.
    pub fn zero_init() -> (r: Self)
        ensures
            r == context_at(0, 0),
    {
        Self { rip: 0, rsp: 0, rbx: 0, rbp: 0, r12: 0, r13: 0, r14: 0, r15: 0 }
    }

    /// The context of a new thread: it goes on at `restore`, which returns to
    /// user mode with the trap context at `kstack_ptr` on its kernel stack.
    pub fn goto_restore(restore: u64, kstack_ptr: u64) -> (r: Self)
        ensures
            r == context_at(restore, kstack_ptr),
    {
        Self { rip: restore, rsp: kstack_ptr, rbx: 0, rbp: 0, r12: 0, r13: 0, r14: 0, r15: 0 }
    }
}

} // verus!
