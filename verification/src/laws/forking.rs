//! What a child has of its parent.
use vstd::prelude::*;
use super::machine::frames_are_bytes;
use super::programs::byte_read;
use super::spaces::{areas_are_reached, nothing_else_is_reached, reached};
use crate::mm::frame_allocator::FramePool;
use crate::mm::memory_set::{config, configs, same_contents, MemorySet};
use crate::mm::phys::PhysMemory;
use crate::mm::user_write::page_of;
use crate::syscall::process::process_forked;
use crate::task::fork::{copies_space, forked};
use crate::task::id::alloc_takes_unused_id;
use crate::task::kernel::{memory_wf, references_wf, user_space, Kernel};
use crate::task::signals::{lemma_running, running_process, runs};
use crate::task::task::TaskStatus;

verus! {

/// A page of the parent and the same page of the child.
proof fn lemma_copied_page<M: PhysMemory>(
    kernel: &Kernel<M>,
    kernel0: &Kernel<M>,
    pid: usize,
    child: usize,
    k: int,
    ptr: int,
)
    requires
        kernel0.wf(),
        kernel.wf(),
        kernel0.processes@.dom().contains(pid),
        forked(kernel, kernel0, pid, child),
        0 <= ptr < 0x8000_0000_0000,
        page_of(&kernel0.processes@[pid].inner.memory_set, k, ptr / 0x1000),
    ensures
        ({
            let ms0 = kernel0.processes@[pid].inner.memory_set;
            let ms = kernel.processes@[child].inner.memory_set;
            let f0 = ms0.areas()[k].data[ptr / 0x1000];
            let f = ms.areas()[k].data[ptr / 0x1000];
            &&& reached(&ms0, &kernel0.pool, ptr) matches Some(a0) && reached(
                &ms,
                &kernel.pool,
                ptr,
            ) matches Some(a) && {
                &&& a.user == a0.user && a.write == a0.write && a.execute == a0.execute
                &&& a0.pa == f0 * 0x1000 + ptr % 0x1000
                &&& a.pa == f * 0x1000 + ptr % 0x1000
            }
            &&& f != f0
            &&& byte_read(&ms, &kernel.pool, ptr) == byte_read(&ms0, &kernel0.pool, ptr)
        }),
{
    let ms0 = kernel0.processes@[pid].inner.memory_set;
    let ms = kernel.processes@[child].inner.memory_set;
    assert(copies_space(&ms, &kernel.pool, &ms0, kernel0));
    assert(same_contents(&ms, &kernel.pool, &ms0, &kernel0.pool, k, ptr / 0x1000));
    lemma_child_is_new(kernel0, pid, child);
    lemma_spaces_apart(kernel, kernel0, pid, child);
    lemma_same_page(&ms, &kernel.pool, &ms0, &kernel0.pool, k, ptr);
}

/// The pid of a child was not in use.
proof fn lemma_child_is_new<M: PhysMemory>(kernel0: &Kernel<M>, pid: usize, child: usize)
    requires
        kernel0.wf(),
        kernel0.processes@.dom().contains(pid),
        child == kernel0.pid_allocator@.next_id(),
    ensures
        pid != child,
{
    reveal(references_wf);
    alloc_takes_unused_id(kernel0.pid_allocator@);
    assert(kernel0.pid_allocator@.live(pid));
}

/// The address spaces of two processes have no frame in common.
proof fn lemma_spaces_apart<M: PhysMemory>(
    kernel: &Kernel<M>,
    kernel0: &Kernel<M>,
    pid: usize,
    child: usize,
)
    requires
        kernel0.wf(),
        kernel.wf(),
        pid != child,
        kernel0.processes@.dom().contains(pid),
        kernel.processes@.dom().contains(pid),
        kernel.processes@.dom().contains(child),
        kernel.processes@[pid].inner.memory_set == kernel0.processes@[pid].inner.memory_set,
    ensures
        ({
            let ms0 = kernel0.processes@[pid].inner.memory_set;
            let ms = kernel.processes@[child].inner.memory_set;
            &&& ms.owned().disjoint(ms0.owned())
            &&& ms.wf(&kernel.pool)
            &&& ms0.wf(&kernel0.pool)
            &&& kernel.pool.wf()
            &&& kernel0.pool.wf()
        }),
{
    reveal(memory_wf);
    assert(kernel0.spaces().dom().contains(pid));
    assert(kernel.spaces().dom().contains(child));
    assert(kernel.spaces().dom().contains(pid));
    assert(kernel.spaces()[pid].owned().disjoint(kernel.spaces()[child].owned()));
}

proof fn lemma_same_page<M: PhysMemory>(
    ms: &MemorySet,
    pool: &FramePool<M>,
    ms0: &MemorySet,
    pool0: &FramePool<M>,
    k: int,
    ptr: int,
)
    requires
        pool.wf(),
        pool0.wf(),
        ms.wf(pool),
        ms0.wf(pool0),
        configs(ms.areas()) == configs(ms0.areas()),
        ms.owned().disjoint(ms0.owned()),
        0 <= ptr < 0x8000_0000_0000,
        page_of(ms0, k, ptr / 0x1000),
        same_contents(ms, pool, ms0, pool0, k, ptr / 0x1000),
    ensures
        ({
            let f0 = ms0.areas()[k].data[ptr / 0x1000];
            let f = ms.areas()[k].data[ptr / 0x1000];
            &&& reached(ms0, pool0, ptr) matches Some(a0) && reached(ms, pool, ptr) matches Some(a)
                && {
                &&& a.user == a0.user && a.write == a0.write && a.execute == a0.execute
                &&& a0.pa == f0 * 0x1000 + ptr % 0x1000
                &&& a.pa == f * 0x1000 + ptr % 0x1000
            }
            &&& f != f0
            &&& byte_read(ms, pool, ptr) == byte_read(ms0, pool0, ptr)
        }),
{
    let v = ptr / 0x1000;
    assert(ptr % 0x1_0000_0000_0000 == ptr);
    assert(configs(ms.areas()).len() == ms.areas().len());
    assert(configs(ms0.areas()).len() == ms0.areas().len());
    assert(configs(ms.areas())[k] == configs(ms0.areas())[k]);
    let a0 = ms0.areas()[k];
    let a = ms.areas()[k];
    assert(config(a).start == config(a0).start && config(a).end == config(a0).end && config(a).perm
        == config(a0).perm && config(a).map_type == config(a0).map_type);
    areas_are_reached(ms0, pool0, k, ptr);
    areas_are_reached(ms, pool, k, ptr);
    assert(a.wf() && a0.wf());
    assert(a.data.dom().contains(v) && a0.data.dom().contains(v));
    assert(a.data_set().contains(a.data[v]) && a0.data_set().contains(a0.data[v]));
    assert(ms.owned().contains(a.data[v]));
    assert(ms0.owned().contains(a0.data[v]));
    frames_are_bytes(pool0.frames(), a0.data[v], ptr % 0x1000);
    frames_are_bytes(pool.frames(), a.data[v], ptr % 0x1000);
}

/// A child can do with every page of its memory what its parent can do with the page of
/// the same address. It reads what its parent reads, but from a frame of its own.
pub proof fn child_has_a_copy_of_memory<M: PhysMemory>(
    kernel: &Kernel<M>,
    kernel0: &Kernel<M>,
    pid: usize,
    child: usize,
    ptr: int,
)
    requires
        kernel0.wf(),
        kernel.wf(),
        kernel0.processes@.dom().contains(pid),
        forked(kernel, kernel0, pid, child),
        0 <= ptr < 0x8000_0000_0000,
        ptr < kernel0.processes@[pid].inner.memory_set.table().slots() * 0x80_0000_0000,
    ensures
        ({
            let ms0 = kernel0.processes@[pid].inner.memory_set;
            let ms = kernel.processes@[child].inner.memory_set;
            reached(&ms, &kernel.pool, ptr) matches Some(a) ==> {
                &&& reached(&ms0, &kernel0.pool, ptr) matches Some(a0) && a.user == a0.user
                    && a.write == a0.write && a.execute == a0.execute && a.pa != a0.pa
                &&& byte_read(&ms, &kernel.pool, ptr) == byte_read(&ms0, &kernel0.pool, ptr)
            }
        }),
        forall|k: int|
            #[trigger] page_of(&kernel0.processes@[pid].inner.memory_set, k, ptr / 0x1000)
                ==> reached(
                &kernel.processes@[child].inner.memory_set,
                &kernel.pool,
                ptr,
            ) is Some,
{
    let ms0 = kernel0.processes@[pid].inner.memory_set;
    let ms = kernel.processes@[child].inner.memory_set;
    let v = ptr / 0x1000;
    assert(ptr % 0x1_0000_0000_0000 == ptr);
    assert forall|k: int| #[trigger] page_of(&ms0, k, v) implies reached(&ms, &kernel.pool, ptr) is Some by {
        lemma_copied_page(kernel, kernel0, pid, child, k, ptr);
    }
    if reached(&ms, &kernel.pool, ptr) is Some {
        assert(copies_space(&ms, &kernel.pool, &ms0, kernel0));
        assert(configs(ms.areas()).len() == ms.areas().len());
        assert(configs(ms0.areas()).len() == ms0.areas().len());
        lemma_user_spaces(kernel, kernel0, pid, child);
        if forall|k: int| 0 <= k < ms.areas().len() ==> !(#[trigger] ms.areas()[k].contains(v)) {
            nothing_else_is_reached(&ms, &kernel.pool, ptr);
        }
        let k = choose|k: int| 0 <= k < ms.areas().len() && #[trigger] ms.areas()[k].contains(v);
        assert(configs(ms.areas())[k] == configs(ms0.areas())[k]);
        assert(config(ms.areas()[k]).start == config(ms0.areas()[k]).start);
        assert(config(ms.areas()[k]).end == config(ms0.areas()[k]).end);
        assert(page_of(&ms0, k, v));
        lemma_copied_page(kernel, kernel0, pid, child, k, ptr);
    }
}

proof fn lemma_user_spaces<M: PhysMemory>(
    kernel: &Kernel<M>,
    kernel0: &Kernel<M>,
    pid: usize,
    child: usize,
)
    requires
        kernel0.wf(),
        kernel.wf(),
        kernel0.processes@.dom().contains(pid),
        kernel.processes@.dom().contains(child),
        kernel.phys_offset == kernel0.phys_offset,
    ensures
        ({
            let ms0 = kernel0.processes@[pid].inner.memory_set;
            let ms = kernel.processes@[child].inner.memory_set;
            &&& ms.wf(&kernel.pool)
            &&& ms.table().slots() == ms0.table().slots()
            &&& ms.table().slots() <= 512
            &&& forall|i: int| 0 <= i < ms0.areas().len() ==> (#[trigger] ms0.areas()[i]).framed()
        }),
{
    reveal(memory_wf);
    reveal(references_wf);
    assert(kernel.spaces().dom().contains(child));
    assert(user_space(&kernel0.processes@[pid].inner.memory_set, kernel0.phys_offset));
    assert(user_space(&kernel.processes@[child].inner.memory_set, kernel.phys_offset));
}

/// A child is a new process, known by its pid and to its parent. Its one thread is ready
/// to run, behind all others, with the registers of its parent but for the register of
/// results, which is 0. It has the files and the signal actions of its parent, and no
/// signal is pending. Of its parent nothing else changes.
pub proof fn child_goes_on_like_its_parent<M: PhysMemory>(
    kernel: &Kernel<M>,
    kernel0: &Kernel<M>,
    pid: usize,
    child: usize,
    t: usize,
)
    requires
        kernel0.wf(),
        kernel0.processes@.dom().contains(pid),
        kernel0.processes@[pid].inner.tasks@.len() == 1,
        kernel0.processes@[pid].inner.tasks@[0] == Some(t),
        kernel0.pid_allocator@.next_id() <= usize::MAX,
        kernel0.kstack_available(),
        forked(kernel, kernel0, pid, child),
    ensures
        ({
            let inner0 = kernel0.processes@[pid].inner;
            let parent = kernel.processes@[pid].inner;
            let inner = kernel.processes@[child].inner;
            let caller = kernel0.tasks@[t].inner;
            &&& !kernel0.pid_allocator@.live(child)
            &&& kernel.pid_allocator@.live(child)
            &&& kernel.processes@.dom() == kernel0.processes@.dom().insert(child)
            &&& kernel.pid2process@.dom().contains(child) && kernel.pid2process@[child] == child
            &&& inner.parent == Some(pid)
            &&& inner.children@.len() == 0
            &&& inner.fd_table@ == inner0.fd_table@
            &&& inner.signals.bits == 0
            &&& inner.signal_mask == inner0.signal_mask
            &&& inner.signal_actions.table@ == inner0.signal_actions.table@
            &&& inner.handling_sig == -1 && !inner.killed && !inner.frozen && !inner.is_zombie
            &&& inner.tasks@.len() == 1
            &&& inner.tasks@[0] matches Some(u) && {
                let thread = kernel.tasks@[u];
                &&& thread.process == child
                &&& thread.inner.res matches Some(res) && res.tid == 0 && res.process == child
                    && res.ustack_base == caller.res->Some_0.ustack_base
                &&& thread.inner.trap_cx.rax == 0
                &&& thread.inner.trap_cx.rip == caller.trap_cx.rip
                &&& thread.inner.trap_cx.rsp == caller.trap_cx.rsp
                &&& thread.inner.trap_cx.rflags == caller.trap_cx.rflags
                &&& thread.inner.trap_cx.cs == caller.trap_cx.cs
                &&& thread.inner.trap_cx.ss == caller.trap_cx.ss
                &&& thread.inner.trap_cx.rbx == caller.trap_cx.rbx
                &&& thread.inner.trap_cx.rcx == caller.trap_cx.rcx
                &&& thread.inner.trap_cx.rdx == caller.trap_cx.rdx
                &&& thread.inner.trap_cx.rsi == caller.trap_cx.rsi
                &&& thread.inner.trap_cx.rdi == caller.trap_cx.rdi
                &&& thread.inner.trap_cx.rbp == caller.trap_cx.rbp
                &&& thread.inner.trap_cx.r8 == caller.trap_cx.r8
                &&& thread.inner.trap_cx.r9 == caller.trap_cx.r9
                &&& thread.inner.trap_cx.r10 == caller.trap_cx.r10
                &&& thread.inner.trap_cx.r11 == caller.trap_cx.r11
                &&& thread.inner.trap_cx.r12 == caller.trap_cx.r12
                &&& thread.inner.trap_cx.r13 == caller.trap_cx.r13
                &&& thread.inner.trap_cx.r14 == caller.trap_cx.r14
                &&& thread.inner.trap_cx.r15 == caller.trap_cx.r15
                &&& thread.inner.task_status == TaskStatus::Ready
                &&& kernel.task_manager@.len() == kernel0.task_manager@.len() + 1
                &&& kernel.task_manager@.last() == u
                &&& u != t
            }
            &&& forall|i: int|
                0 <= i < kernel0.task_manager@.len() ==> #[trigger] kernel.task_manager@[i]
                    == kernel0.task_manager@[i]
            &&& parent.children@.len() == inner0.children@.len() + 1
            &&& parent.children@.last() == child
            &&& forall|i: int|
                0 <= i < inner0.children@.len() ==> #[trigger] parent.children@[i]
                    == inner0.children@[i]
            &&& parent.memory_set == inner0.memory_set
            &&& parent.signals == inner0.signals
            &&& parent.fd_table == inner0.fd_table
            &&& kernel.tasks@[t] == kernel0.tasks@[t]
            &&& forall|q: usize|
                q != pid && q != child ==> #[trigger] kernel.processes@[q] == kernel0.processes@[q]
        }),
{
    reveal(references_wf);
    reveal(memory_wf);
    alloc_takes_unused_id(kernel0.pid_allocator@);
    alloc_takes_unused_id(kernel0.kstack_allocator@);
    assert(kernel0.tasks@.dom().contains(t));
    assert(kernel.processes@.dom() =~= kernel0.processes@.dom().insert(child));
    assert(kernel0.processes@.dom().contains(pid) && kernel0.pid_allocator@.live(pid));
}

/// The parent is told the pid of its new child, which is the last of its children; the
/// child is told 0.
pub proof fn fork_tells_parent_and_child_apart<M: PhysMemory>(
    kernel: &Kernel<M>,
    kernel0: &Kernel<M>,
    cpu: usize,
    r: isize,
    t: usize,
)
    requires
        kernel0.wf(),
        runs(kernel0, cpu),
        process_forked(kernel, kernel0, cpu, r),
        kernel0.processes@[running_process(kernel0, cpu)].inner.tasks@.len() == 1,
        kernel0.processes@[running_process(kernel0, cpu)].inner.tasks@[0] == Some(t),
        kernel0.pid_allocator@.next_id() <= usize::MAX,
        kernel0.kstack_available(),
    ensures
        ({
            let parent = kernel.processes@[running_process(kernel0, cpu)].inner;
            let child = parent.children@.last();
            &&& parent.children@.len() > 0
            &&& r == child as isize
            &&& kernel.processes@[child].inner.tasks@.len() == 1
            &&& kernel.processes@[child].inner.tasks@[0] matches Some(u)
                && kernel.tasks@[u].inner.trap_cx.rax == 0
            &&& !kernel0.processes@.dom().contains(child)
        }),
{
    lemma_running(kernel0, cpu);
    let child = kernel0.pid_allocator@.next_id() as usize;
    child_goes_on_like_its_parent(kernel, kernel0, running_process(kernel0, cpu), child, t);
    assert(!kernel0.processes@.dom().contains(child)) by {
        if kernel0.processes@.dom().contains(child) {
            lemma_child_is_new(kernel0, child, child);
        }
    }
}

} // verus!
