//! How processes and threads start.
use vstd::prelude::*;
use super::machine::byte_at;
use super::mapping::{inserted_area_is_reached, permissions_allow_what_they_say};
use super::spaces::{lemma_permissions, reached};
use crate::config::kernel_stack_id_ok;
use crate::mm::elf::{elf_entry, image_stack_bottom};
use crate::mm::frame_allocator::FramePool;
use crate::mm::map_area::{MAP_R, MAP_U, MAP_W};
use crate::mm::memory_set::{framed_area, pushed, MemorySet};
use crate::mm::phys::PhysMemory;
use crate::task::create::process_made;
use crate::task::id::{ustack_bottom, TaskUserRes};
use crate::task::kernel::{new_thread, stack_area, ustack_area, Kernel};
use crate::task::process::{free_fd, FileHandle};
use crate::task::task::TaskStatus;
use crate::trap::context::TrapContext;

verus! {

/// A new thread is ready. It enters user mode with the registers that it was given: they
/// lie on top of its kernel stack, where its kernel context leads to.
pub proof fn new_thread_enters_user_mode(
    id: usize,
    res: TaskUserRes,
    restore: u64,
    trap_cx: TrapContext,
)
    requires
        kernel_stack_id_ok(id as int),
    ensures
        ({
            let thread = new_thread(id, res, restore, trap_cx);
            let top = 0xffff_ffff_c000_0000 + id * 0x3000 + 0x2000;
            &&& thread.process == res.process
            &&& thread.kstack.id == id
            &&& thread.inner.task_status == TaskStatus::Ready
            &&& thread.inner.exit_code is None
            &&& thread.inner.res == Some(res)
            &&& thread.inner.trap_cx == trap_cx
            &&& thread.inner.trap_cx_ptr == top - 22 * 8
            &&& thread.inner.task_cx.rip == restore
            &&& thread.inner.task_cx.rsp == top - 22 * 8
        }),
{
}

/// A process that is made of a program has one thread, which is ready to run behind all
/// others. It starts at the entry point of the program in user mode, with the stack
/// pointer at the end of its stack and all other registers zero. The process has the
/// console as its standard input, output and error output, no parent, no children and no
/// pending signal, and no signal has a handler.
pub proof fn new_process_starts_its_program<M: PhysMemory>(
    kernel: &Kernel<M>,
    kernel0: &Kernel<M>,
    pid: usize,
    b: Seq<u8>,
)
    requires
        process_made(kernel, kernel0, pid, b),
        0 <= elf_entry(b) <= u64::MAX,
        0 <= image_stack_bottom(b),
        image_stack_bottom(b) + 0x2000 <= u64::MAX,
    ensures
        ({
            let inner = kernel.processes@[pid].inner;
            let u = inner.tasks@[0]->Some_0;
            let cx = kernel.tasks@[u].inner.trap_cx;
            &&& pid == kernel0.pid_allocator@.next_id()
            &&& kernel.pid2process@.dom().contains(pid)
            &&& inner.tasks@.len() == 1 && inner.tasks@[0] is Some
            &&& kernel.tasks@.dom() == kernel0.tasks@.dom().insert(u)
            &&& kernel.tasks@[u].process == pid
            &&& kernel.tasks@[u].inner.res matches Some(res) && res.tid == 0 && res.process == pid
                && res.ustack_base == image_stack_bottom(b)
            &&& kernel.tasks@[u].inner.task_status == TaskStatus::Ready
            &&& kernel.task_manager@.len() == kernel0.task_manager@.len() + 1
            &&& kernel.task_manager@.last() == u
            &&& cx.rip == elf_entry(b)
            &&& cx.rsp == image_stack_bottom(b) + 0x2000
            &&& cx.cs == 0x1B && cx.ss == 0x23 && cx.rflags == 2
            &&& cx.rax == 0 && cx.rbx == 0 && cx.rcx == 0 && cx.rdx == 0 && cx.rsi == 0
            &&& cx.rdi == 0 && cx.rbp == 0 && cx.r8 == 0 && cx.r9 == 0 && cx.r10 == 0
            &&& cx.r11 == 0 && cx.r12 == 0 && cx.r13 == 0 && cx.r14 == 0 && cx.r15 == 0
            &&& inner.parent is None && inner.children@.len() == 0 && !inner.is_zombie
            &&& inner.fd_table@.len() == 3
            &&& inner.fd_table@[0] == Some(FileHandle::Stdin)
            &&& inner.fd_table@[1] == Some(FileHandle::Stdout)
            &&& inner.fd_table@[2] == Some(FileHandle::Stdout)
            &&& inner.signals.bits == 0 && inner.signal_mask.bits == 0 && inner.handling_sig == -1
            &&& forall|s: int|
                0 <= s < 32 ==> (#[trigger] inner.signal_actions.table@[s]).handler == 0
                    && inner.signal_actions.table@[s].mask.bits == 40
        }),
{
    let u = kernel0.next_kstack();
    assert(kernel.processes@[pid].inner.tasks@[0] == Some(u));
    assert(kernel.tasks@.dom() =~= kernel0.tasks@.dom().insert(u));
    assert forall|s: int| 0 <= s < 32 implies (
    #[trigger] kernel.processes@[pid].inner.signal_actions.table@[s]).handler == 0 by {}
}

/// A thread other than the main one gets a stack of two pages of zeros of its own, which
/// it can write and not execute. The stacks of the threads of a process lie one above the
/// other, with a page between that belongs to none.
pub proof fn thread_stack_is_found<M: PhysMemory>(
    ms: &MemorySet,
    pool: &FramePool<M>,
    ms0: &MemorySet,
    pool0: &FramePool<M>,
    ustack_base: u64,
    tid: usize,
    ptr: int,
)
    requires
        pool.wf(),
        ms.wf(pool),
        pushed(ms, pool, ms0, pool0, ustack_area(ustack_base, tid), None),
        ustack_base % 0x1000 == 0,
        ustack_base + tid * 0x3000 + 0x2000 < 0x8000_0000_0000,
        ustack_base + tid * 0x3000 <= ptr < ustack_base + tid * 0x3000 + 0x2000,
    ensures
        reached(ms, pool, ptr) matches Some(a) && {
            &&& a.user && a.write && !a.execute
            &&& byte_at(pool.frames(), a.pa) == 0
        },
{
    let bottom = ustack_base + tid * 0x3000;
    assert(ustack_bottom(ustack_base, tid) == bottom);
    assert(bottom % 0x1_0000_0000_0000 == bottom);
    assert((bottom + 0x2000) % 0x1_0000_0000_0000 == bottom + 0x2000);
    assert(ptr % 0x1_0000_0000_0000 == ptr);
    let perm: u8 = MAP_R | MAP_W | MAP_U;
    assert(bottom / 0x1000 * 0x1000 <= ptr < (bottom + 0x2000 + 0xfff) / 0x1000 * 0x1000);
    inserted_area_is_reached(ms, pool, ms0, pool0, bottom, bottom + 0x2000, perm, ptr);
    lemma_permissions();
    permissions_allow_what_they_say(perm);
}

/// A kernel stack is made of two pages of zeros that only the kernel can write.
pub proof fn kernel_stack_is_found<M: PhysMemory>(
    ms: &MemorySet,
    pool: &FramePool<M>,
    ms0: &MemorySet,
    pool0: &FramePool<M>,
    id: usize,
    ptr: int,
)
    requires
        pool.wf(),
        ms.wf(pool),
        pushed(ms, pool, ms0, pool0, stack_area(id), None),
        kernel_stack_id_ok(id as int),
        0xffff_ffff_c000_0000 + id * 0x3000 <= ptr < 0xffff_ffff_c000_0000 + id * 0x3000 + 0x2000,
    ensures
        reached(ms, pool, ptr) matches Some(a) && {
            &&& !a.user && a.write && !a.execute
            &&& byte_at(pool.frames(), a.pa) == 0
        },
{
    let bottom = 0xffff_c000_0000 + id * 0x3000;
    let va = ptr - 0xffff_0000_0000_0000;
    lemma_kernel_stack_numbers(id as int, ptr);
    let perm: u8 = MAP_R | MAP_W;
    assert(stack_area(id) == framed_area(bottom, bottom + 0x2000, perm));
    inserted_area_is_reached(ms, pool, ms0, pool0, bottom, bottom + 0x2000, perm, va);
    lemma_permissions();
    permissions_allow_what_they_say(perm);
}

proof fn lemma_kernel_stack_numbers(id: int, ptr: int)
    requires
        kernel_stack_id_ok(id),
        0xffff_ffff_c000_0000 + id * 0x3000 <= ptr < 0xffff_ffff_c000_0000 + id * 0x3000 + 0x2000,
    ensures
        ({
            let bottom = 0xffff_c000_0000 + id * 0x3000;
            let va = ptr - 0xffff_0000_0000_0000;
            &&& ptr % 0x1_0000_0000_0000 == va
            &&& 0 <= va < 0x1_0000_0000_0000
            &&& (0xffff_ffff_c000_0000 + id * 0x3000) % 0x1_0000_0000_0000 == bottom
            &&& (0xffff_ffff_c000_0000 + id * 0x3000 + 0x2000) % 0x1_0000_0000_0000 == bottom
                + 0x2000
            &&& bottom / 0x1000 * 0x1000 <= va < (bottom + 0x2000 + 0xfff) / 0x1000 * 0x1000
        }),
{
    let m = 0x1_0000_0000_0000int;
    assert(0xffff_ffff_c000_0000 + id * 0x3000 == 0xffff * m + (0xffff_c000_0000 + id * 0x3000));
    assert(ptr == 0xffff * m + (ptr - 0xffff_0000_0000_0000));
    assert(id * 0x3000 + 0x2000 < 0x4000_0000);
}

/// A file that is opened gets the lowest descriptor that is not in use.
pub proof fn lowest_free_descriptor_is_used(table: Seq<Option<FileHandle>>, from: int)
    requires
        0 <= from <= table.len(),
    ensures
        ({
            let fd = free_fd(table, from);
            &&& from <= fd <= table.len()
            &&& fd < table.len() ==> table[fd] is None
            &&& forall|j: int| from <= j < fd ==> #[trigger] table[j] is Some
        }),
    decreases table.len() - from,
{
    if from < table.len() {
        lowest_free_descriptor_is_used(table, from + 1);
    }
}

} // verus!
