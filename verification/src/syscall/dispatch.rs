//! The entry point of all system calls.
use vstd::prelude::*;
use super::process::{sys_exit, sys_get_time, sys_yield};
use crate::mm::phys::PhysMemory;
use crate::task::kernel::Kernel;
use crate::task::schedule::suspended;
use crate::task::signals::{running, runs};
use crate::task::terminate::{can_exit, exited, ExitOutcome};

verus! {

/// The numbers of the system calls follow the Linux convention for x86-64 where
/// there is one.
pub const SYSCALL_WRITE: u64 = 1;

pub const SYSCALL_EXIT: u64 = 60;

pub const SYSCALL_YIELD: u64 = 24;

/// Linux has `time` here; this call counts milliseconds.
pub const SYSCALL_GET_TIME: u64 = 201;

/// Linux has `brk` at 12.
pub const SYSCALL_SBRK: u64 = 214;

/// What comes of a system call.
#[derive(Copy, Clone, Debug, PartialEq, Eq, Structural)]
pub enum SysOutcome {
    /// the result
    Return(isize),
    /// the thread was suspended, and gets 0 as the result when it goes on
    Yielded { task: usize },
    /// the thread has exited
    Exited(ExitOutcome),
    /// write `len` bytes from `buf` on to file `fd`
    Write { fd: u64, buf: u64, len: u64 },
    /// move the end of the heap by `size` bytes
    Sbrk { size: i32 },
}

/// Whether there is a system call with this number.
pub open spec fn supported(syscall_id: u64) -> bool {
    ||| syscall_id == SYSCALL_WRITE
    ||| syscall_id == SYSCALL_EXIT
    ||| syscall_id == SYSCALL_YIELD
    ||| syscall_id == SYSCALL_GET_TIME
    ||| syscall_id == SYSCALL_SBRK
}

/// What system call `syscall_id` with arguments `args` of the thread on processor `cpu`
/// does, with outcome `r`.
pub open spec fn syscall_done<M: PhysMemory>(
    kernel: &Kernel<M>,
    old_kernel: &Kernel<M>,
    cpu: usize,
    syscall_id: u64,
    args: Seq<u64>,
    r: SysOutcome,
) -> bool {
    &&& syscall_id == SYSCALL_WRITE ==> r == (SysOutcome::Write {
        fd: args[0],
        buf: args[1],
        len: args[2],
    }) && *kernel == *old_kernel
    &&& syscall_id == SYSCALL_EXIT ==> (r matches SysOutcome::Exited(outcome) && exited(
        kernel,
        old_kernel,
        cpu as int,
        args[0] as i32,
        outcome,
    ))
    &&& syscall_id == SYSCALL_YIELD ==> r == (SysOutcome::Yielded {
        task: running(old_kernel, cpu),
    }) && suspended(kernel, old_kernel, cpu, running(old_kernel, cpu))
    &&& syscall_id == SYSCALL_GET_TIME ==> r == SysOutcome::Return(
        old_kernel.timers.ticks() as isize,
    ) && *kernel == *old_kernel
    &&& syscall_id == SYSCALL_SBRK ==> r == (SysOutcome::Sbrk { size: args[0] as i32 })
        && *kernel == *old_kernel
}

/// Handle system call `syscall_id` of the thread that runs on processor `cpu`.
/// What concerns files and the heap is handed back, with its arguments.
pub fn syscall<M: PhysMemory>(
    kernel: &mut Kernel<M>,
    cpu: usize,
    syscall_id: u64,
    args: [u64; 3],
) -> (r: SysOutcome)
    requires
        old(kernel).wf(),
        runs(old(kernel), cpu),
        supported(syscall_id),
        syscall_id == SYSCALL_EXIT ==> can_exit(old(kernel), cpu as int),
    ensures
        final(kernel).wf(),
        syscall_done(final(kernel), old(kernel), cpu, syscall_id, args@, r),
{
    if syscall_id == SYSCALL_WRITE {
        SysOutcome::Write { fd: args[0], buf: args[1], len: args[2] }
    } else if syscall_id == SYSCALL_EXIT {
        SysOutcome::Exited(sys_exit(kernel, cpu, args[0] as i32))
    } else if syscall_id == SYSCALL_YIELD {
        SysOutcome::Yielded { task: sys_yield(kernel, cpu) }
    } else if syscall_id == SYSCALL_GET_TIME {
        SysOutcome::Return(sys_get_time(kernel))
    } else {
        SysOutcome::Sbrk { size: args[0] as i32 }
    }
}

} // verus!
