//! System calls as a user program makes them.
use vstd::prelude::*;
use crate::mm::phys::PhysMemory;
use crate::syscall::dispatch::{
    syscall_done, SysOutcome, SYSCALL_EXIT, SYSCALL_GET_TIME, SYSCALL_WRITE, SYSCALL_YIELD,
};
use crate::task::kernel::Kernel;
use crate::task::terminate::exited;

verus! {

/// A system call: its number goes to RAX, the arguments to RDI, RSI and RDX. The
/// result comes in RAX; RCX and R11 are lost.
#[derive(Copy, Clone, Debug)]
pub struct SyscallRequest {
    pub id: u64,
    pub args: [u64; 3],
}

/// Write the `len` bytes at `buffer` to file `fd`.
pub fn sys_write(fd: u64, buffer: u64, len: u64) -> (r: SyscallRequest)
    ensures
        write_request(r, fd, buffer, len),
{
    let r = SyscallRequest { id: SYSCALL_WRITE, args: [fd, buffer, len] };
    assert(r.args@ =~= seq![fd, buffer, len]);
    r
}

/// End the thread.
pub fn sys_exit(exit_code: i32) -> (r: SyscallRequest)
    ensures
        exit_request(r, exit_code),
{
    let r = SyscallRequest { id: SYSCALL_EXIT, args: [exit_code as u64, 0, 0] };
    assert(r.args@ =~= seq![exit_code as u64, 0u64, 0u64]);
    r
}

/// Give up the processor.
pub fn sys_yield() -> (r: SyscallRequest)
    ensures
        plain_request(r, SYSCALL_YIELD),
{
    let r = SyscallRequest { id: SYSCALL_YIELD, args: [0, 0, 0] };
    assert(r.args@ =~= seq![0u64, 0u64, 0u64]);
    r
}

/// Ask for the time.
pub fn sys_get_time() -> (r: SyscallRequest)
    ensures
        plain_request(r, SYSCALL_GET_TIME),
{
    let r = SyscallRequest { id: SYSCALL_GET_TIME, args: [0, 0, 0] };
    assert(r.args@ =~= seq![0u64, 0u64, 0u64]);
    r
}

/// Whether `request` asks to write a buffer.
pub open spec fn write_request(request: SyscallRequest, fd: u64, buffer: u64, len: u64) -> bool {
    &&& request.id == SYSCALL_WRITE
    &&& request.args@ == seq![fd, buffer, len]
}

/// Whether `request` is system call `id` without arguments.
pub open spec fn plain_request(request: SyscallRequest, id: u64) -> bool {
    &&& request.id == id
    &&& request.args@ == seq![0u64, 0u64, 0u64]
}

/// Whether `request` asks to end the thread with `exit_code`.
pub open spec fn exit_request(request: SyscallRequest, exit_code: i32) -> bool {
    &&& request.id == SYSCALL_EXIT
    &&& request.args@ == seq![exit_code as u64, 0u64, 0u64]
}

/// Where a program asks to end its thread with a code, and the kernel handles the
/// system call, the thread ends with exactly that code.
pub proof fn exit_code_arrives<M: PhysMemory>(
    kernel: &Kernel<M>,
    old_kernel: &Kernel<M>,
    cpu: usize,
    request: SyscallRequest,
    exit_code: i32,
    r: SysOutcome,
)
    requires
        exit_request(request, exit_code),
        syscall_done(kernel, old_kernel, cpu, request.id, request.args@, r),
    ensures
        r matches SysOutcome::Exited(outcome) && exited(
            kernel,
            old_kernel,
            cpu as int,
            exit_code,
            outcome,
        ),
{
    assert((exit_code as u64) as i32 == exit_code) by (bit_vector);
}

} // verus!
