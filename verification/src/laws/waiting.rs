//! What a process gets when it waits for its children.
use vstd::prelude::*;
use super::machine::frames_are_bytes;
use super::programs::byte_read;
use super::spaces::areas_are_reached;
use super::user_access::lemma_half_bytes;
use crate::config::NCPU;
use crate::mm::frame_allocator::FramePool;
use crate::mm::memory_set::{lemma_owned_allocated, MemorySet};
use crate::mm::phys::PhysMemory;
use crate::mm::user_write::{
    area_byte, overwritten, page_of, user_mapped, user_page, user_range, user_written,
};
use crate::syscall::process::half_bytes;
use crate::syscall::wait::{any_wanted, child_taken, first_ended, waited, wanted};
use crate::task::exit::{inactive, lemma_inactive_same, on_core};
use crate::task::kernel::{memory_wf, Kernel};
use crate::task::process::ProcessControlBlock;
use crate::task::reap::{
    active_in, exiting_dropped, hold_ended, is_parent, process_dropped, process_released,
    referenced, threads_forgotten, threads_swept,
};
use crate::task::signals::{lemma_running, running_process, runs};

verus! {

/// The children of the process that runs on processor `cpu`, by their pids.
pub open spec fn children_of<M: PhysMemory>(kernel: &Kernel<M>, cpu: usize) -> Seq<usize> {
    kernel.processes@[running_process(kernel, cpu)].inner.children@
}

/// Whether the process that runs on processor `cpu` waits for its child number `i`: for
/// pid -1 it waits for any child.
pub open spec fn fits<M: PhysMemory>(kernel: &Kernel<M>, cpu: usize, pid: isize, i: int) -> bool {
    &&& 0 <= i < children_of(kernel, cpu).len()
    &&& pid == -1 || pid as usize == children_of(kernel, cpu)[i]
}

/// Whether child number `i` of the process that runs on processor `cpu` has ended.
pub open spec fn ended<M: PhysMemory>(kernel: &Kernel<M>, cpu: usize, i: int) -> bool {
    kernel.processes@[children_of(kernel, cpu)[i]].inner.is_zombie
}

proof fn lemma_first_ended(
    processes: Map<usize, ProcessControlBlock>,
    children: Seq<usize>,
    pid: isize,
    from: int,
)
    requires
        0 <= from <= children.len(),
    ensures
        ({
            let r = first_ended(processes, children, pid, from);
            &&& from <= r <= children.len()
            &&& r < children.len() ==> processes[children[r]].inner.is_zombie && (pid == -1
                || pid as usize == children[r])
            &&& forall|j: int|
                from <= j < r ==> !((#[trigger] processes[children[j]]).inner.is_zombie && (pid == -1
                    || pid as usize == children[j]))
        }),
    decreases children.len() - from,
{
    if from < children.len() {
        lemma_first_ended(processes, children, pid, from + 1);
    }
}

/// Who waits for a child that does not exist is told so, and nothing changes.
pub proof fn no_child_to_wait_for<M: PhysMemory>(
    kernel: &Kernel<M>,
    kernel0: &Kernel<M>,
    cpu: usize,
    pid: isize,
    ptr: u64,
    r: isize,
)
    requires
        waited(kernel, kernel0, cpu, pid, ptr, r),
        forall|i: int| !#[trigger] fits(kernel0, cpu, pid, i),
    ensures
        r == -1,
        *kernel == *kernel0,
{
    let children = children_of(kernel0, cpu);
    if any_wanted(children, pid) {
        let i = choose|i: int| 0 <= i < children.len() && wanted(pid, #[trigger] children[i]);
        assert(fits(kernel0, cpu, pid, i));
    }
}

/// Who waits for children of which none has ended is told so, and nothing changes.
pub proof fn no_child_has_ended<M: PhysMemory>(
    kernel: &Kernel<M>,
    kernel0: &Kernel<M>,
    cpu: usize,
    pid: isize,
    ptr: u64,
    r: isize,
    i: int,
)
    requires
        waited(kernel, kernel0, cpu, pid, ptr, r),
        fits(kernel0, cpu, pid, i),
        forall|j: int| #[trigger] fits(kernel0, cpu, pid, j) ==> !ended(kernel0, cpu, j),
    ensures
        r == -2,
        *kernel == *kernel0,
{
    let children = children_of(kernel0, cpu);
    assert(wanted(pid, children[i]));
    lemma_first_ended(kernel0.processes@, children, pid, 0);
    let k = first_ended(kernel0.processes@, children, pid, 0);
    if k < children.len() {
        assert(fits(kernel0, cpu, pid, k));
    }
}

/// Who waits for children of which some have ended gets the pid of the first of them,
/// which is not its child any longer. The exit code of the child is found at the address
/// that was given, the lowest byte first.
pub proof fn first_ended_child_is_handed_out<M: PhysMemory>(
    kernel: &Kernel<M>,
    kernel0: &Kernel<M>,
    cpu: usize,
    pid: isize,
    ptr: u64,
    r: isize,
    i: int,
)
    requires
        kernel.wf(),
        kernel0.wf(),
        runs(kernel0, cpu),
        waited(kernel, kernel0, cpu, pid, ptr, r),
        fits(kernel0, cpu, pid, i),
        ended(kernel0, cpu, i),
        forall|j: int| #[trigger] fits(kernel0, cpu, pid, j) && j < i ==> !ended(kernel0, cpu, j),
        kernel.processes@.dom().contains(running_process(kernel0, cpu)),
        user_range(
            &kernel0.processes@[running_process(kernel0, cpu)].inner.memory_set,
            ptr as int,
            4,
        ),
    ensures
        ({
            let parent = running_process(kernel0, cpu);
            let child = children_of(kernel0, cpu)[i];
            let code = kernel0.processes@[child].inner.exit_code as u32 as int;
            let ms = kernel.processes@[parent].inner.memory_set;
            &&& r == child as isize
            &&& kernel.processes@[parent].inner.children@ == children_of(kernel0, cpu).remove(i)
            &&& byte_read(&ms, &kernel.pool, ptr as int) == code % 256
            &&& byte_read(&ms, &kernel.pool, ptr + 1) == (code / 0x100) % 256
            &&& byte_read(&ms, &kernel.pool, ptr + 2) == (code / 0x1_0000) % 256
            &&& byte_read(&ms, &kernel.pool, ptr + 3) == code / 0x100_0000
        }),
{
    let parent = running_process(kernel0, cpu);
    let child = children_of(kernel0, cpu)[i];
    let k1 = lemma_between(kernel, kernel0, cpu, pid, ptr, r, i);
    lemma_running(kernel0, cpu);
    lemma_parent_kept(kernel, &k1, kernel0, parent, i, ptr);
    lemma_code_read(kernel, &k1, kernel0, parent, i, ptr, 0);
    lemma_code_read(kernel, &k1, kernel0, parent, i, ptr, 1);
    lemma_code_read(kernel, &k1, kernel0, parent, i, ptr, 2);
    lemma_code_read(kernel, &k1, kernel0, parent, i, ptr, 3);
    lemma_half_bytes(kernel0.processes@[child].inner.exit_code as u32);
}

/// The kernel between taking the child from its parent and dropping it.
proof fn lemma_between<M: PhysMemory>(
    kernel: &Kernel<M>,
    kernel0: &Kernel<M>,
    cpu: usize,
    pid: isize,
    ptr: u64,
    r: isize,
    i: int,
) -> (k1: Kernel<M>)
    requires
        waited(kernel, kernel0, cpu, pid, ptr, r),
        fits(kernel0, cpu, pid, i),
        ended(kernel0, cpu, i),
        forall|j: int| #[trigger] fits(kernel0, cpu, pid, j) && j < i ==> !ended(kernel0, cpu, j),
    ensures
        ({
            let child = children_of(kernel0, cpu)[i];
            &&& r == child as isize
            &&& child_taken(&k1, kernel0, running_process(kernel0, cpu), i, ptr)
            &&& if referenced(&k1, child) {
                *kernel == k1
            } else {
                process_released(kernel, &k1, child)
            }
        }),
{
    let child = children_of(kernel0, cpu)[i];
    lemma_taken_child(kernel0, cpu, pid, i);
    choose|k1: Kernel<M>| #[trigger]
        child_taken(&k1, kernel0, running_process(kernel0, cpu), i, ptr) && if referenced(
            &k1,
            child,
        ) {
            *kernel == k1
        } else {
            process_released(kernel, &k1, child)
        }
}

proof fn lemma_taken_child<M: PhysMemory>(kernel0: &Kernel<M>, cpu: usize, pid: isize, i: int)
    requires
        fits(kernel0, cpu, pid, i),
        ended(kernel0, cpu, i),
        forall|j: int| #[trigger] fits(kernel0, cpu, pid, j) && j < i ==> !ended(kernel0, cpu, j),
    ensures
        any_wanted(children_of(kernel0, cpu), pid),
        first_ended(kernel0.processes@, children_of(kernel0, cpu), pid, 0) == i,
{
    let children = children_of(kernel0, cpu);
    assert(wanted(pid, children[i]));
    lemma_first_ended(kernel0.processes@, children, pid, 0);
    let k = first_ended(kernel0.processes@, children, pid, 0);
    if k < i {
        assert(fits(kernel0, cpu, pid, k));
    }
    if k > i {
        assert(kernel0.processes@[children[i]].inner.is_zombie);
    }
}

/// What is left of the parent, and of its memory, when the child is gone.
proof fn lemma_parent_kept<M: PhysMemory>(
    kernel: &Kernel<M>,
    k1: &Kernel<M>,
    kernel0: &Kernel<M>,
    parent: usize,
    idx: int,
    ptr: u64,
)
    requires
        kernel0.wf(),
        kernel0.processes@.dom().contains(parent),
        kernel.processes@.dom().contains(parent),
        0 <= idx < kernel0.processes@[parent].inner.children@.len(),
        child_taken(k1, kernel0, parent, idx, ptr),
        ({
            let child = kernel0.processes@[parent].inner.children@[idx];
            *kernel == *k1 || process_released(kernel, k1, child)
        }),
    ensures
        kernel.processes@[parent].inner.memory_set == kernel0.processes@[parent].inner.memory_set,
        kernel.processes@[parent].inner.children@ == kernel0.processes@[parent].inner.children@.remove(
            idx,
        ),
        forall|f: u64| #[trigger]
            kernel0.processes@[parent].inner.memory_set.owned().contains(f)
                ==> kernel.pool.frames()[f] == k1.pool.frames()[f],
{
    let child = kernel0.processes@[parent].inner.children@[idx];
    let ms = kernel0.processes@[parent].inner.memory_set;
    reveal(memory_wf);
    assert(kernel0.spaces().dom().contains(parent));
    if *kernel != *k1 {
        let (k2, k3) = choose|k2: Kernel<M>, k3: Kernel<M>|
            #![trigger threads_forgotten(&k2, k1, child), threads_swept(&k3, &k2, child, k2.kstack_allocator@.current)]
            {
                &&& threads_forgotten(&k2, k1, child)
                &&& threads_swept(&k3, &k2, child, k2.kstack_allocator@.current)
                &&& process_dropped(kernel, &k3, child)
            };
        assert forall|f: u64| #[trigger] ms.owned().contains(f) implies kernel.pool.frames()[f]
            == k1.pool.frames()[f] by {
            lemma_owned_allocated(&ms, &kernel0.pool, f);
            assert(!kernel0.kernel_space.owned().contains(f));
            assert(k3.pool.frames()[f] == k2.pool.frames()[f]);
        }
    }
}

/// A byte of the exit code, as the parent reads it.
proof fn lemma_code_read<M: PhysMemory>(
    kernel: &Kernel<M>,
    k1: &Kernel<M>,
    kernel0: &Kernel<M>,
    parent: usize,
    idx: int,
    ptr: u64,
    i: int,
)
    requires
        kernel.wf(),
        kernel.processes@.dom().contains(parent),
        kernel.processes@[parent].inner.memory_set == kernel0.processes@[parent].inner.memory_set,
        user_range(&kernel0.processes@[parent].inner.memory_set, ptr as int, 4),
        child_taken(k1, kernel0, parent, idx, ptr),
        forall|f: u64| #[trigger]
            kernel0.processes@[parent].inner.memory_set.owned().contains(f)
                ==> kernel.pool.frames()[f] == k1.pool.frames()[f],
        0 <= i < 4,
    ensures
        ({
            let child = kernel0.processes@[parent].inner.children@[idx];
            byte_read(&kernel.processes@[parent].inner.memory_set, &kernel.pool, ptr + i)
                == half_bytes(kernel0.processes@[child].inner.exit_code as u32)[i]
        }),
{
    let ms = kernel0.processes@[parent].inner.memory_set;
    let child = kernel0.processes@[parent].inner.children@[idx];
    let bytes = half_bytes(kernel0.processes@[child].inner.exit_code as u32);
    assert(ms.wf(&kernel.pool) && kernel.pool.wf()) by {
        reveal(memory_wf);
        assert(kernel.spaces().dom().contains(parent));
    }
    lemma_written_read(&ms, &kernel.pool, &k1.pool, &kernel0.pool, ptr, bytes, i);
}

/// A byte that was written, as it is read when the pages of the process are as they were.
proof fn lemma_written_read<M: PhysMemory>(
    ms: &MemorySet,
    pool: &FramePool<M>,
    pool1: &FramePool<M>,
    pool0: &FramePool<M>,
    ptr: u64,
    bytes: Seq<u8>,
    i: int,
)
    requires
        pool.wf(),
        ms.wf(pool),
        user_range(ms, ptr as int, bytes.len() as int),
        user_written(ms, pool1, pool0, ptr as int, bytes),
        forall|f: u64| #[trigger]
            ms.owned().contains(f) ==> pool.frames()[f] == pool1.frames()[f],
        0 <= i < bytes.len(),
    ensures
        byte_read(ms, pool, ptr + i) == bytes[i],
{
    let v = user_page(ptr as int, i);
    let va = (ptr + i) % 0x1_0000_0000_0000;
    let j = (ptr + i) % 0x1000;
    lemma_user_place(ptr as int, i);
    assert(user_mapped(ms, v));
    let k = choose|k: int| page_of(ms, k, v);
    areas_are_reached(ms, pool, k, va);
    let area = ms.areas()[k];
    assert(area.wf());
    assert(area.data.dom().contains(v));
    assert(area.data_set().contains(area.data[v]));
    assert(ms.owned().contains(area.data[v]));
    frames_are_bytes(pool.frames(), area.data[v], j);
    assert(area_byte(ms, pool1, k, v, j) == overwritten(
        ptr as int,
        bytes,
        v,
        j,
        area_byte(ms, pool0, k, v, j),
    ));
}

proof fn lemma_user_place(ptr: int, i: int)
    requires
        0 <= ptr,
        0 <= i,
        ptr % 0x1_0000_0000_0000 + i < 0x1_0000_0000_0000,
    ensures
        ({
            let va = (ptr + i) % 0x1_0000_0000_0000;
            let v = user_page(ptr, i);
            &&& va == ptr % 0x1_0000_0000_0000 + i
            &&& va / 0x1000 == v
            &&& va % 0x1000 == (ptr + i) % 0x1000
            &&& v * 0x1000 + (ptr + i) % 0x1000 - ptr % 0x1_0000_0000_0000 == i
        }),
{
    let q = ptr / 0x1_0000_0000_0000;
    assert(ptr + i == q * 0x1_0000_0000_0000 + (ptr % 0x1_0000_0000_0000 + i));
}

/// The child that a process has waited for is gone for good, unless its last thread still
/// has to leave a processor or a queue.
pub proof fn waited_child_is_gone<M: PhysMemory>(
    kernel: &Kernel<M>,
    kernel0: &Kernel<M>,
    cpu: usize,
    pid: isize,
    ptr: u64,
    r: isize,
    i: int,
)
    requires
        waited(kernel, kernel0, cpu, pid, ptr, r),
        fits(kernel0, cpu, pid, i),
        ended(kernel0, cpu, i),
        forall|j: int| #[trigger] fits(kernel0, cpu, pid, j) && j < i ==> !ended(kernel0, cpu, j),
        ({
            let child = children_of(kernel0, cpu)[i];
            &&& !kernel0.pid2process@.dom().contains(child)
            &&& kernel0.initproc != Some(child)
            &&& forall|c: int|
                0 <= c < kernel0.processors@.len() ==> (#[trigger] kernel0.processors@[c]).exiting_process
                    != Some(child)
            &&& forall|q: usize|
                q != running_process(kernel0, cpu) && #[trigger] kernel0.processes@.dom().contains(q)
                    ==> !kernel0.processes@[q].inner.children@.contains(child)
            &&& !children_of(kernel0, cpu).remove(i).contains(child)
            &&& forall|t: usize| #[trigger]
                kernel0.tasks@.dom().contains(t) && kernel0.tasks@[t].process == child ==> inactive(
                    kernel0,
                    t,
                )
        }),
    ensures
        ({
            let child = children_of(kernel0, cpu)[i];
            &&& !kernel.processes@.dom().contains(child)
            &&& kernel.pid_allocator@ == kernel0.pid_allocator@.after_dealloc(child)
            &&& forall|f: u64| #[trigger]
                kernel0.processes@[child].inner.memory_set.owned().contains(f)
                    && child != running_process(kernel0, cpu) ==> kernel.pool.free().contains(f)
            &&& forall|t: usize| #[trigger]
                kernel.tasks@.dom().contains(t) && t < kernel0.kstack_allocator@.current
                    ==> kernel.tasks@[t].process != child
        }),
{
    let parent = running_process(kernel0, cpu);
    let child = children_of(kernel0, cpu)[i];
    let k1 = lemma_between(kernel, kernel0, cpu, pid, ptr, r, i);
    assert forall|q: usize| !is_parent(&k1, q, child) by {
        if q != parent && k1.processes@.dom().contains(q) {
            assert(kernel0.processes@.dom().contains(q));
        }
    }
    assert forall|t: usize| !active_in(&k1, child, t) by {
        lemma_inactive_same(&k1, kernel0, t);
    }
    assert(!referenced(&k1, child));
    let (k2, k3) = choose|k2: Kernel<M>, k3: Kernel<M>|
        #![trigger threads_forgotten(&k2, &k1, child), threads_swept(&k3, &k2, child, k2.kstack_allocator@.current)]
        {
            &&& threads_forgotten(&k2, &k1, child)
            &&& threads_swept(&k3, &k2, child, k2.kstack_allocator@.current)
            &&& process_dropped(kernel, &k3, child)
        };
    assert(threads_forgotten(&k2, &k1, child));
    assert(threads_swept(&k3, &k2, child, k2.kstack_allocator@.current));
}

/// Once a processor is back in its idle loop it holds no process back. The process that it
/// held back is gone for good if its parent has waited for it; otherwise it stays a zombie
/// until it does.
pub proof fn held_back_process_is_let_go<M: PhysMemory>(
    kernel: &Kernel<M>,
    kernel0: &Kernel<M>,
    cpu: int,
    pid: usize,
)
    requires
        kernel0.processors@.len() == NCPU,
        0 <= cpu < NCPU,
        exiting_dropped(kernel, kernel0, cpu),
        kernel0.processors@[cpu].exiting_process == Some(pid),
        !kernel0.pid2process@.dom().contains(pid),
        kernel0.initproc != Some(pid),
        forall|c: int|
            0 <= c < kernel0.processors@.len() && c != cpu ==> (
            #[trigger] kernel0.processors@[c]).exiting_process != Some(pid),
        forall|t: usize| #[trigger]
            kernel0.tasks@.dom().contains(t) && kernel0.tasks@[t].process == pid ==> inactive(
                kernel0,
                t,
            ),
    ensures
        kernel.processors@[cpu].exiting_process is None,
        (forall|q: usize| #[trigger]
            kernel0.processes@.dom().contains(q)
                ==> !kernel0.processes@[q].inner.children@.contains(pid))
            ==> !kernel.processes@.dom().contains(pid) && kernel.pid_allocator@
            == kernel0.pid_allocator@.after_dealloc(pid),
        (exists|q: usize| #[trigger]
            kernel0.processes@.dom().contains(q)
                && kernel0.processes@[q].inner.children@.contains(pid)) ==> kernel.processes
            == kernel0.processes && kernel.tasks == kernel0.tasks,
{
    let k1 = choose|k1: Kernel<M>| #[trigger]
        hold_ended(&k1, kernel0, cpu) && if referenced(&k1, pid) {
            *kernel == k1
        } else {
            process_released(kernel, &k1, pid)
        };
    assert forall|t: usize| inactive(kernel0, t) implies inactive(&k1, t) by {
        lemma_inactive_held(&k1, kernel0, cpu, t);
    }
    assert forall|t: usize| !active_in(&k1, pid, t) by {}
    if exists|q: usize| #[trigger]
        kernel0.processes@.dom().contains(q) && kernel0.processes@[q].inner.children@.contains(pid) {
        let q = choose|q: usize| #[trigger]
            kernel0.processes@.dom().contains(q)
                && kernel0.processes@[q].inner.children@.contains(pid);
        assert(is_parent(&k1, q, pid));
    } else {
        assert forall|q: usize| !is_parent(&k1, q, pid) by {
            if k1.processes@.dom().contains(q) {
                assert(kernel0.processes@.dom().contains(q));
            }
        }
        assert(!referenced(&k1, pid));
        let (k2, k3) = choose|k2: Kernel<M>, k3: Kernel<M>|
            #![trigger threads_forgotten(&k2, &k1, pid), threads_swept(&k3, &k2, pid, k2.kstack_allocator@.current)]
            {
                &&& threads_forgotten(&k2, &k1, pid)
                &&& threads_swept(&k3, &k2, pid, k2.kstack_allocator@.current)
                &&& process_dropped(kernel, &k3, pid)
            };
        assert(threads_forgotten(&k2, &k1, pid));
    }
}

proof fn lemma_inactive_held<M: PhysMemory>(
    kernel: &Kernel<M>,
    kernel0: &Kernel<M>,
    cpu: int,
    t: usize,
)
    requires
        kernel0.processors@.len() == NCPU,
        0 <= cpu < NCPU,
        hold_ended(kernel, kernel0, cpu),
        inactive(kernel0, t),
    ensures
        inactive(kernel, t),
{
    assert forall|c: int| 0 <= c < NCPU implies (#[trigger] kernel.processors@[c]).current
        == kernel0.processors@[c].current && kernel.processors@[c].pending_requeue
        == kernel0.processors@[c].pending_requeue by {}
    if on_core(kernel, t) {
        let c = choose|c: int|
            0 <= c < NCPU && (#[trigger] kernel.processors@[c]).current == Some(t);
        assert(kernel0.processors@[c].current == Some(t));
    }
    assert forall|c: int| 0 <= c < NCPU implies !(
    #[trigger] kernel.processors@[c]).pending_requeue@.contains(t) by {
        assert(!kernel0.processors@[c].pending_requeue@.contains(t));
    }
}

} // verus!
