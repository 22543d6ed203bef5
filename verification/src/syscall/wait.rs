//! Waiting for a child.
use vstd::prelude::*;
use super::process::{half_bytes, half_word};
use crate::mm::phys::PhysMemory;
use crate::mm::user_write::{user_range, user_written};
use crate::task::exec::write_process;
use crate::task::guarantees::{process_byte, process_reads_what_was_written};
use crate::task::kernel::{
    children_wf, lemma_memory_kept, lemma_refs_kept, lemma_schedule_kept, references_wf, Kernel,
};
use crate::task::process::{ProcessControlBlock, ProcessControlBlockInner};
use crate::task::reap::{drop_process, process_released, referenced};
use crate::task::schedule::current_process;
use crate::task::signals::{lemma_running, running_process, runs};

verus! {

/// Whether `child` is one of the children that a process waits for: any child
/// for -1, else the one with that pid.
pub open spec fn wanted(pid: isize, child: usize) -> bool {
    pid == -1 || pid as usize == child
}

/// Whether a process waits for one of `children`.
pub open spec fn any_wanted(children: Seq<usize>, pid: isize) -> bool {
    exists|i: int| 0 <= i < children.len() && wanted(pid, #[trigger] children[i])
}

/// The position of the first child from `i` on that is waited for and has ended,
/// or the number of children if there is none.
pub open spec fn first_ended(
    processes: Map<usize, ProcessControlBlock>,
    children: Seq<usize>,
    pid: isize,
    i: int,
) -> int
    decreases children.len() - i,
{
    if i >= children.len() {
        children.len() as int
    } else if processes[children[i]].inner.is_zombie && wanted(pid, children[i]) {
        i
    } else {
        first_ended(processes, children, pid, i + 1)
    }
}

/// `kernel` came from `kernel0` by taking child number `idx` from process `pid`
/// and writing its exit code to pointer value `ptr`.
pub open spec fn child_taken<M: PhysMemory>(
    kernel: &Kernel<M>,
    kernel0: &Kernel<M>,
    pid: usize,
    idx: int,
    ptr: u64,
) -> bool {
    let p0 = kernel0.processes@[pid];
    let p1 = kernel.processes@[pid];
    let child = p0.inner.children@[idx];
    &&& kernel.processes@ == kernel0.processes@.insert(pid, p1)
    &&& p1.inner.children@ == p0.inner.children@.remove(idx)
    &&& p1 == (ProcessControlBlock {
        inner: ProcessControlBlockInner { children: p1.inner.children, ..p0.inner },
        ..p0
    })
    &&& user_written(
        &p0.inner.memory_set,
        &kernel.pool,
        &kernel0.pool,
        ptr as int,
        half_bytes(kernel0.processes@[child].inner.exit_code as u32),
    )
    &&& *kernel == (Kernel { pool: kernel.pool, processes: kernel.processes, ..*kernel0 })
}

/// `kernel` came from `kernel0` by waiting for a child of the process that runs on
/// processor `cpu`, which gave `r`.
pub open spec fn waited<M: PhysMemory>(
    kernel: &Kernel<M>,
    kernel0: &Kernel<M>,
    cpu: usize,
    pid: isize,
    ptr: u64,
    r: isize,
) -> bool {
    let parent = running_process(kernel0, cpu);
    let children = kernel0.processes@[parent].inner.children@;
    let i = first_ended(kernel0.processes@, children, pid, 0);
    if !any_wanted(children, pid) {
        &&& r == -1
        &&& *kernel == *kernel0
    } else if i >= children.len() {
        &&& r == -2
        &&& *kernel == *kernel0
    } else {
        &&& r == children[i] as isize
        &&& kernel0.processes@[children[i]].inner.is_zombie
        &&& exists|k1: Kernel<M>| #[trigger]
            child_taken(&k1, kernel0, parent, i, ptr) && if referenced(&k1, children[i]) {
                *kernel == k1
            } else {
                process_released(kernel, &k1, children[i])
            }
    }
}

/// Find a child that has ended.
fn find_ended<M: PhysMemory>(kernel: &Kernel<M>, parent: usize, pid: isize) -> (r: (
    bool,
    Option<usize>,
))
    requires
        kernel.wf(),
        kernel.processes@.dom().contains(parent),
    ensures
        ({
            let children = kernel.processes@[parent].inner.children@;
            let i = first_ended(kernel.processes@, children, pid, 0);
            &&& r.0 == any_wanted(children, pid)
            &&& r.1 is Some <==> i < children.len()
            &&& r.1 matches Some(k) ==> k == i
            &&& 0 <= i <= children.len()
            &&& i < children.len() ==> {
                &&& r.0
                &&& kernel.processes@.dom().contains(children[i])
                &&& kernel.processes@[children[i]].inner.is_zombie
            }
        }),
{
    let process = kernel.processes.get(&parent).unwrap();
    let ghost children = process.inner.children@;
    let ghost all = first_ended(kernel.processes@, children, pid, 0);
    let mut any: bool = false;
    let mut i: usize = 0;
    while i < process.inner.children.len()
        invariant
            i <= children.len(),
            children == process.inner.children@,
            children == kernel.processes@[parent].inner.children@,
            kernel.wf(),
            kernel.processes@.dom().contains(parent),
            all == first_ended(kernel.processes@, children, pid, 0),
            first_ended(kernel.processes@, children, pid, i as int) == all,
            any == exists|k: int| 0 <= k < i && wanted(pid, #[trigger] children[k]),
        decreases children.len() - i,
    {
        let child: usize = process.inner.children[i];
        proof {
            reveal(references_wf);
            assert(kernel.processes@.dom().contains(
                kernel.processes@[parent].inner.children@[i as int],
            ));
        }
        let fits: bool = pid == -1 || pid as usize == child;
        if fits {
            assert(wanted(pid, children[i as int]));
            any = true;
        }
        let p = kernel.processes.get(&child).unwrap();
        if p.inner.is_zombie && fits {
            return (true, Some(i));
        }
        i = i + 1;
    }
    (any, None)
}

/// Taking a child from a process keeps the kernel sound.
proof fn lemma_child_taken<M: PhysMemory>(
    kernel: &Kernel<M>,
    kernel0: &Kernel<M>,
    pid: usize,
    idx: int,
)
    requires
        kernel0.wf(),
        kernel0.processes@.dom().contains(pid),
        0 <= idx < kernel0.processes@[pid].inner.children@.len(),
        ({
            let p0 = kernel0.processes@[pid];
            let p1 = kernel.processes@[pid];
            &&& kernel.processes@ == kernel0.processes@.insert(pid, p1)
            &&& p1.inner.children@ == p0.inner.children@.remove(idx)
            &&& p1 == (ProcessControlBlock {
                inner: ProcessControlBlockInner { children: p1.inner.children, ..p0.inner },
                ..p0
            })
            &&& *kernel == (Kernel { processes: kernel.processes, ..*kernel0 })
        }),
    ensures
        kernel.wf(),
{
    assert(kernel.spaces() =~= kernel0.spaces());
    lemma_memory_kept(kernel, kernel0);
    assert(kernel.processes@.dom() =~= kernel0.processes@.dom());
    lemma_schedule_kept(kernel, kernel0);
    reveal(references_wf);
    let children0 = kernel0.processes@[pid].inner.children@;
    let children = kernel.processes@[pid].inner.children@;
    assert forall|i: int| 0 <= i < children.len() implies kernel.processes@.dom().contains(
        #[trigger] children[i],
    ) by {
        let k = if i < idx {
            i
        } else {
            i + 1
        };
        assert(children[i] == kernel0.processes@[pid].inner.children@[k]);
    }
    assert(children_wf(kernel, pid));
    lemma_refs_kept(kernel, kernel0);
}

/// Wait for a child of the running process: `pid` says which, -1 any. Returns -1
/// if there is no such child, -2 if there is one but none has ended. Otherwise
/// the child is gone, its exit code is written to `exit_code_ptr`, and its pid is
/// returned.
pub fn sys_waitpid<M: PhysMemory>(
    kernel: &mut Kernel<M>,
    cpu: usize,
    pid: isize,
    exit_code_ptr: u64,
) -> (r: isize)
    requires
        old(kernel).wf(),
        runs(old(kernel), cpu),
        ({
            let inner = old(kernel).processes@[running_process(old(kernel), cpu)].inner;
            first_ended(old(kernel).processes@, inner.children@, pid, 0) < inner.children@.len()
                ==> user_range(&inner.memory_set, exit_code_ptr as int, 4)
        }),
    ensures
        final(kernel).wf(),
        waited(final(kernel), old(kernel), cpu, pid, exit_code_ptr, r),
{
    let ghost k0 = *kernel;
    proof {
        lemma_running(&k0, cpu);
    }
    let parent: usize = current_process(kernel, cpu);
    let (any, found) = find_ended(kernel, parent, pid);
    if !any {
        return -1;
    }
    if let Some(idx) = found {
        let mut process = kernel.processes.remove(&parent).unwrap();
        let child: usize = process.inner.children.remove(idx);
        let ghost p1 = process;
        kernel.processes.insert(parent, process);
        let ghost k1 = *kernel;
        proof {
            assert(kernel.processes@ =~= k0.processes@.insert(parent, p1));
            lemma_child_taken(&k1, &k0, parent, idx as int);
            assert(k0.processes@.dom().contains(child));
        }
        let exit_code: i32 = kernel.processes.get(&child).unwrap().inner.exit_code;
        let bytes: Vec<u8> = half_word(exit_code as u32);
        write_process(kernel, parent, exit_code_ptr, bytes.as_slice());
        let ghost k2 = *kernel;
        proof {
            assert(child_taken(&k2, &k0, parent, idx as int, exit_code_ptr));
        }
        drop_process(kernel, child);
        child as isize
    } else {
        -2
    }
}

/// After a successful wait the parent finds the exit code of the child at the
/// pointer that it gave.
pub proof fn parent_reads_exit_code<M: PhysMemory>(
    kernel: &Kernel<M>,
    kernel0: &Kernel<M>,
    parent: usize,
    idx: int,
    ptr: u64,
    i: int,
)
    requires
        kernel.mem_wf(),
        kernel0.processes@.dom().contains(parent),
        user_range(&kernel0.processes@[parent].inner.memory_set, ptr as int, 4),
        child_taken(kernel, kernel0, parent, idx, ptr),
        0 <= i < 4,
    ensures
        ({
            let child = kernel0.processes@[parent].inner.children@[idx];
            process_byte(kernel, parent, ptr + i) == half_bytes(
                kernel0.processes@[child].inner.exit_code as u32,
            )[i]
        }),
{
    let child = kernel0.processes@[parent].inner.children@[idx];
    process_reads_what_was_written(
        kernel,
        kernel0,
        parent,
        ptr as int,
        half_bytes(kernel0.processes@[child].inner.exit_code as u32),
        i,
    );
}

/// A child whose last thread has not left its processor yet is still referred to
/// when its parent takes it, so it is not released: the thread keeps its kernel stack
/// until it has left.
pub proof fn waiting_spares_the_exiting_thread<M: PhysMemory>(
    kernel: &Kernel<M>,
    kernel0: &Kernel<M>,
    parent: usize,
    idx: int,
    ptr: u64,
    c: int,
)
    requires
        child_taken(kernel, kernel0, parent, idx, ptr),
        0 <= c < kernel0.processors@.len(),
        kernel0.processors@[c].exiting_process == Some(
            kernel0.processes@[parent].inner.children@[idx],
        ),
    ensures
        referenced(kernel, kernel0.processes@[parent].inner.children@[idx]),
{
    assert(kernel.processors@[c].exiting_process == kernel0.processors@[c].exiting_process);
}

} // verus!
