//! What is left of a thread and its process when the thread ends.
use vstd::prelude::*;
use super::mapping::lemma_index;
use super::programs::byte_read;
use super::waiting::{children_of, ended, first_ended_child_is_handed_out, fits};
use crate::config::NCPU;
use crate::mm::memory_set::area_index;
use crate::mm::phys::PhysMemory;
use crate::mm::user_write::user_range;
use crate::syscall::wait::waited;
use crate::task::adopt::{adopted, adopted_process};
use crate::task::exit::retired;
use crate::task::kernel::{processor_wf, references_wf, Kernel, IDLE_PID};
use crate::task::process::ProcessControlBlockInner;
use crate::task::res::ustack_page;
use crate::task::signals::{running, running_process, runs};
use crate::task::terminate::{
    can_exit, ended_process_is_a_zombie, exited, listed_wait_nowhere, process_cut, process_emptied,
    process_ended, thread_ended, thread_stopped, threads_retired, zombie_made, ExitOutcome,
};

verus! {

/// Whether the thread that runs on processor `cpu` is the main thread of its process: the
/// one with number 0.
pub open spec fn main_thread_runs<M: PhysMemory>(kernel: &Kernel<M>, cpu: usize) -> bool {
    kernel.tasks@[running(kernel, cpu)].inner.res matches Some(res) && res.tid == 0
}

/// What is seen of the end of a thread, apart from what happens to its process.
spec fn thread_seen_ended<M: PhysMemory>(
    kernel: &Kernel<M>,
    kernel0: &Kernel<M>,
    cpu: usize,
    exit_code: i32,
) -> bool {
    let t = running(kernel0, cpu);
    let pid = running_process(kernel0, cpu);
    let inner0 = kernel0.processes@[pid].inner;
    let inner = kernel.processes@[pid].inner;
    &&& kernel.tasks@.dom() == kernel0.tasks@.dom()
    &&& kernel.tasks@[t].inner.exit_code == Some(exit_code)
    &&& kernel.tasks@[t].inner.res is None
    &&& kernel.tasks@[t].process == pid
    &&& forall|u: usize| u != t ==> #[trigger] kernel.tasks@[u] == kernel0.tasks@[u]
    &&& kernel.processors@.len() == kernel0.processors@.len()
    &&& kernel.processors@[cpu as int].current is None
    &&& forall|c: int|
        0 <= c < kernel0.processors@.len() && c != cpu ==> #[trigger] kernel.processors@[c]
            == kernel0.processors@[c]
    &&& kernel.task_manager == kernel0.task_manager
    &&& kernel.timers == kernel0.timers
    &&& kernel.pid2process == kernel0.pid2process
    &&& kernel.initproc == kernel0.initproc
    &&& kernel0.processes@.dom().contains(pid)
    &&& kernel.processes@.dom() == kernel0.processes@.dom()
    &&& forall|q: usize| q != pid ==> #[trigger] kernel.processes@[q] == kernel0.processes@[q]
    &&& inner == (ProcessControlBlockInner {
        task_res_allocator: inner.task_res_allocator,
        memory_set: inner.memory_set,
        ..inner0
    })
}

/// What ending a thread does, apart from what happens to its process.
proof fn lemma_thread_ended<M: PhysMemory>(
    kernel: &Kernel<M>,
    kernel0: &Kernel<M>,
    cpu: usize,
    exit_code: i32,
)
    requires
        kernel0.wf(),
        runs(kernel0, cpu),
        can_exit(kernel0, cpu as int),
        thread_ended(kernel, kernel0, cpu as int, exit_code),
    ensures
        thread_seen_ended(kernel, kernel0, cpu, exit_code),
{
    let t = running(kernel0, cpu);
    reveal(references_wf);
    assert(processor_wf(kernel0, cpu as int));
    let k1 = choose|k1: Kernel<M>| #[trigger]
        thread_stopped(&k1, kernel0, cpu as int, exit_code) && retired(kernel, &k1, t);
    assert(kernel0.tasks@.dom().contains(t));
    assert(kernel.tasks@.dom() =~= kernel0.tasks@.dom());
    assert(kernel.processes@.dom() =~= kernel0.processes@.dom());
}

/// A thread that ends and is not the main one leaves its processor with its exit code.
/// Its process goes on: it is no zombie, and keeps its children and its files. Who waits
/// in a queue or for a timer still does.
pub proof fn other_thread_ends_alone<M: PhysMemory>(
    kernel: &Kernel<M>,
    kernel0: &Kernel<M>,
    cpu: usize,
    exit_code: i32,
    outcome: ExitOutcome,
)
    requires
        kernel0.wf(),
        runs(kernel0, cpu),
        can_exit(kernel0, cpu as int),
        exited(kernel, kernel0, cpu as int, exit_code, outcome),
        !main_thread_runs(kernel0, cpu),
    ensures
        ({
            let t = running(kernel0, cpu);
            let pid = running_process(kernel0, cpu);
            let inner0 = kernel0.processes@[pid].inner;
            let inner = kernel.processes@[pid].inner;
            &&& outcome == ExitOutcome::Switch
            &&& kernel.processors@[cpu as int].current is None
            &&& kernel.tasks@[t].inner.exit_code == Some(exit_code)
            &&& kernel.tasks@[t].inner.res is None
            &&& forall|u: usize| u != t ==> #[trigger] kernel.tasks@[u] == kernel0.tasks@[u]
            &&& inner.is_zombie == inner0.is_zombie
            &&& inner.exit_code == inner0.exit_code
            &&& inner.children == inner0.children
            &&& inner.fd_table == inner0.fd_table
            &&& inner.tasks == inner0.tasks
            &&& kernel.task_manager == kernel0.task_manager
            &&& kernel.timers == kernel0.timers
            &&& kernel.pid2process == kernel0.pid2process
        }),
        forall|q: usize|
            q != running_process(kernel0, cpu) ==> #[trigger] kernel.processes@[q]
                == kernel0.processes@[q],
{
    lemma_thread_ended(kernel, kernel0, cpu, exit_code);
}

/// When the main thread of the first process ends, the machine is shut down, and the exit
/// code tells whether that is a failure.
pub proof fn first_process_shuts_down<M: PhysMemory>(
    kernel: &Kernel<M>,
    kernel0: &Kernel<M>,
    cpu: usize,
    exit_code: i32,
    outcome: ExitOutcome,
)
    requires
        kernel0.wf(),
        runs(kernel0, cpu),
        can_exit(kernel0, cpu as int),
        exited(kernel, kernel0, cpu as int, exit_code, outcome),
    ensures
        main_thread_runs(kernel0, cpu) && running_process(kernel0, cpu) == 1 ==> outcome == (
        ExitOutcome::Shutdown { failure: exit_code != 0 }),
        !main_thread_runs(kernel0, cpu) || running_process(kernel0, cpu) != 1 ==> outcome
            == ExitOutcome::Switch,
{
}

/// When the main thread of a process ends, the process is a zombie with the exit code,
/// and its processor holds it until it has left its kernel stack. It has no memory, no
/// files, no children and cannot be found by its pid. Its children are children of the
/// first process; no other process, but that one, changes.
pub proof fn main_thread_ends_its_process<M: PhysMemory>(
    kernel: &Kernel<M>,
    kernel0: &Kernel<M>,
    cpu: usize,
    exit_code: i32,
    outcome: ExitOutcome,
)
    requires
        kernel0.wf(),
        runs(kernel0, cpu),
        can_exit(kernel0, cpu as int),
        exited(kernel, kernel0, cpu as int, exit_code, outcome),
        main_thread_runs(kernel0, cpu),
        running_process(kernel0, cpu) != 1,
    ensures
        ({
            let pid = running_process(kernel0, cpu);
            let inner0 = kernel0.processes@[pid].inner;
            let inner = kernel.processes@[pid].inner;
            &&& inner.is_zombie
            &&& inner.exit_code == exit_code
            &&& inner.children@.len() == 0
            &&& inner.fd_table@.len() == 0
            &&& inner.memory_set.areas().len() == 0
            &&& inner.parent == (if inner0.children@.contains(pid) {
                Some(1usize)
            } else {
                inner0.parent
            })
            &&& !kernel.pid2process@.dom().contains(pid)
            &&& forall|q: usize|
                q != pid ==> kernel.pid2process@.dom().contains(q)
                    == #[trigger] kernel0.pid2process@.dom().contains(q)
            &&& kernel.processors@[cpu as int].current is None
            &&& kernel.processors@[cpu as int].exiting_process == Some(pid)
            &&& kernel.processes@.dom() == kernel0.processes@.dom()
            &&& forall|q: usize| #[trigger]
                kernel0.processes@.dom().contains(q) && q != pid ==> {
                    let other0 = kernel0.processes@[q].inner;
                    let other = kernel.processes@[q].inner;
                    &&& other.parent == (if inner0.children@.contains(q) {
                        Some(1usize)
                    } else {
                        other0.parent
                    })
                    &&& other.children@ == (if q == 1 {
                        other0.children@ + inner0.children@
                    } else {
                        other0.children@
                    })
                    &&& other.is_zombie == other0.is_zombie
                    &&& other.exit_code == other0.exit_code
                    &&& other.memory_set == other0.memory_set
                    &&& other.fd_table == other0.fd_table
                    &&& other.tasks == other0.tasks
                    &&& other.signals == other0.signals
                }
        }),
{
    let k1 = lemma_main_ended(kernel, kernel0, cpu, exit_code, outcome);
    lemma_ends_seen(kernel, &k1, kernel0, cpu, exit_code);
}

proof fn lemma_ends_seen<M: PhysMemory>(
    kernel: &Kernel<M>,
    k1: &Kernel<M>,
    kernel0: &Kernel<M>,
    cpu: usize,
    exit_code: i32,
)
    requires
        thread_seen_ended(k1, kernel0, cpu, exit_code),
        process_seen_ended(kernel, k1, running_process(kernel0, cpu), cpu as int),
    ensures
        ({
            let pid = running_process(kernel0, cpu);
            &&& kernel.processes@[pid].inner.parent == (
            if kernel0.processes@[pid].inner.children@.contains(pid) {
                Some(1usize)
            } else {
                kernel0.processes@[pid].inner.parent
            })
            &&& forall|q: usize|
                q != pid ==> kernel.pid2process@.dom().contains(q)
                    == #[trigger] kernel0.pid2process@.dom().contains(q)
            &&& kernel.processors@[cpu as int].current is None
            &&& kernel.processors@[cpu as int].exiting_process == Some(pid)
            &&& kernel.processes@.dom() == kernel0.processes@.dom()
            &&& forall|q: usize| #[trigger]
                kernel0.processes@.dom().contains(q) && q != pid ==> adopted_process(
                    kernel.processes@[q],
                    kernel0.processes@[q],
                    q,
                    1,
                    kernel0.processes@[pid].inner.children@,
                )
        }),
{
    let pid = running_process(kernel0, cpu);
    assert(k1.processes@[pid].inner.children == kernel0.processes@[pid].inner.children);
    assert forall|q: usize| #[trigger] kernel0.processes@.dom().contains(q) && q != pid implies
        adopted_process(
        kernel.processes@[q],
        kernel0.processes@[q],
        q,
        1,
        kernel0.processes@[pid].inner.children@,
    ) by {
        assert(k1.processes@.dom().contains(q));
        assert(k1.processes@[q] == kernel0.processes@[q]);
    }
}

/// The kernel between the end of the main thread and that of its process.
proof fn lemma_main_ended<M: PhysMemory>(
    kernel: &Kernel<M>,
    kernel0: &Kernel<M>,
    cpu: usize,
    exit_code: i32,
    outcome: ExitOutcome,
) -> (k1: Kernel<M>)
    requires
        kernel0.wf(),
        runs(kernel0, cpu),
        can_exit(kernel0, cpu as int),
        exited(kernel, kernel0, cpu as int, exit_code, outcome),
        main_thread_runs(kernel0, cpu),
        running_process(kernel0, cpu) != 1,
    ensures
        thread_seen_ended(&k1, kernel0, cpu, exit_code),
        process_seen_ended(kernel, &k1, running_process(kernel0, cpu), cpu as int),
        ({
            let inner = kernel.processes@[running_process(kernel0, cpu)].inner;
            &&& inner.is_zombie
            &&& inner.exit_code == exit_code
            &&& inner.children@.len() == 0
            &&& inner.fd_table@.len() == 0
            &&& inner.memory_set.areas().len() == 0
            &&& !kernel.pid2process@.dom().contains(running_process(kernel0, cpu))
        }),
{
    let pid = running_process(kernel0, cpu);
    let k1 = choose|k1: Kernel<M>| #[trigger]
        thread_ended(&k1, kernel0, cpu as int, exit_code) && process_ended(
            kernel,
            &k1,
            pid,
            cpu as int,
            exit_code,
        );
    lemma_thread_ended(&k1, kernel0, cpu, exit_code);
    assert(kernel0.processors@.len() == NCPU) by {
        reveal(references_wf);
    }
    lemma_process_ended(kernel, &k1, pid, cpu as int, exit_code);
    ended_process_is_a_zombie(kernel, &k1, pid, cpu as int, exit_code);
    k1
}

/// What is seen of the end of a process.
spec fn process_seen_ended<M: PhysMemory>(
    kernel: &Kernel<M>,
    kernel0: &Kernel<M>,
    pid: usize,
    cpu: int,
) -> bool {
    let inner0 = kernel0.processes@[pid].inner;
    &&& kernel.processes@.dom() == kernel0.processes@.dom()
    &&& forall|q: usize|
        q != pid ==> kernel.pid2process@.dom().contains(q)
            == #[trigger] kernel0.pid2process@.dom().contains(q)
    &&& kernel.processors@[cpu].current is None
    &&& kernel.processors@[cpu].exiting_process == Some(pid)
    &&& kernel.processes@[pid].inner.parent == (if inner0.children@.contains(pid) {
        Some(1usize)
    } else {
        inner0.parent
    })
    &&& forall|q: usize| #[trigger]
        kernel0.processes@.dom().contains(q) && q != pid ==> adopted_process(
            kernel.processes@[q],
            kernel0.processes@[q],
            q,
            1,
            inner0.children@,
        )
}

/// What the end of a process does to it and to the other processes.
proof fn lemma_process_ended<M: PhysMemory>(
    kernel: &Kernel<M>,
    kernel0: &Kernel<M>,
    pid: usize,
    cpu: int,
    exit_code: i32,
)
    requires
        process_ended(kernel, kernel0, pid, cpu, exit_code),
        kernel0.processes@.dom().contains(pid),
        0 <= cpu < kernel0.processors@.len(),
        kernel0.processors@[cpu].current is None,
        pid != 1,
    ensures
        process_seen_ended(kernel, kernel0, pid, cpu),
{
    let inner0 = kernel0.processes@[pid].inner;
    let (k1, k2, k3, k4) = choose|
        k1: Kernel<M>,
        k2: Kernel<M>,
        k3: Kernel<M>,
        k4: Kernel<M>,
    |
        #![trigger adopted(&k1, kernel0, IDLE_PID, inner0.children@),
            threads_retired(&k2, &k1, pid, inner0.tasks@.len() as int),
            process_emptied(&k3, &k2, pid), process_cut(&k4, &k3, pid, 1)]
        {
            &&& adopted(&k1, kernel0, IDLE_PID, inner0.children@)
            &&& threads_retired(&k2, &k1, pid, inner0.tasks@.len() as int)
            &&& listed_wait_nowhere(&k2, inner0.tasks@, inner0.tasks@.len() as int)
            &&& process_emptied(&k3, &k2, pid)
            &&& process_cut(&k4, &k3, pid, 1)
            &&& zombie_made(kernel, &k4, pid, cpu, exit_code)
        };
    assert(adopted_process(
        k1.processes@[pid],
        kernel0.processes@[pid],
        pid,
        IDLE_PID,
        inner0.children@,
    ));
    assert(kernel.processes@.dom() =~= kernel0.processes@.dom());
    assert(k2.processors@[cpu].current is None);
    assert forall|q: usize| #[trigger] kernel0.processes@.dom().contains(q) && q != pid implies
        adopted_process(kernel.processes@[q], kernel0.processes@[q], q, 1, inner0.children@) by {
        assert(adopted_process(
            k1.processes@[q],
            kernel0.processes@[q],
            q,
            IDLE_PID,
            inner0.children@,
        ));
        assert(kernel.processes@[q] == k1.processes@[q]);
    }
}

/// A parent that waits for a child that has just ended reads the exit code that the child
/// ended with.
pub proof fn exit_code_reaches_the_parent<M: PhysMemory>(
    kernel0: &Kernel<M>,
    kernel1: &Kernel<M>,
    kernel2: &Kernel<M>,
    cpu: usize,
    exit_code: i32,
    outcome: ExitOutcome,
    parent_cpu: usize,
    ptr: u64,
    r: isize,
    i: int,
)
    requires
        kernel0.wf(),
        kernel1.wf(),
        kernel2.wf(),
        runs(kernel0, cpu),
        can_exit(kernel0, cpu as int),
        main_thread_runs(kernel0, cpu),
        running_process(kernel0, cpu) != 1,
        exited(kernel1, kernel0, cpu as int, exit_code, outcome),
        runs(kernel1, parent_cpu),
        fits(kernel1, parent_cpu, running_process(kernel0, cpu) as isize, i),
        children_of(kernel1, parent_cpu)[i] == running_process(kernel0, cpu),
        running_process(kernel0, cpu) as isize != -1,
        forall|j: int|
            0 <= j < i ==> (#[trigger] children_of(kernel1, parent_cpu)[j]) as isize
                != running_process(kernel0, cpu) as isize,
        user_range(
            &kernel1.processes@[running_process(kernel1, parent_cpu)].inner.memory_set,
            ptr as int,
            4,
        ),
        waited(
            kernel2,
            kernel1,
            parent_cpu,
            running_process(kernel0, cpu) as isize,
            ptr,
            r,
        ),
        kernel2.processes@.dom().contains(running_process(kernel1, parent_cpu)),
    ensures
        ({
            let ms = kernel2.processes@[running_process(kernel1, parent_cpu)].inner.memory_set;
            let code = exit_code as u32 as int;
            &&& r == running_process(kernel0, cpu) as isize
            &&& byte_read(&ms, &kernel2.pool, ptr as int) == code % 256
            &&& byte_read(&ms, &kernel2.pool, ptr + 1) == (code / 0x100) % 256
            &&& byte_read(&ms, &kernel2.pool, ptr + 2) == (code / 0x1_0000) % 256
            &&& byte_read(&ms, &kernel2.pool, ptr + 3) == code / 0x100_0000
        }),
{
    let pid = running_process(kernel0, cpu);
    main_thread_ends_its_process(kernel1, kernel0, cpu, exit_code, outcome);
    assert(ended(kernel1, parent_cpu, i));
    assert forall|j: int| #[trigger] fits(kernel1, parent_cpu, pid as isize, j) && j < i implies !ended(
        kernel1,
        parent_cpu,
        j,
    ) by {
        assert(children_of(kernel1, parent_cpu)[j] as isize != pid as isize);
    }
    first_ended_child_is_handed_out(kernel2, kernel1, parent_cpu, pid as isize, ptr, r, i);
}

/// A thread that ends gives back its user stack: the area that begins at the bottom of the
/// stack is no longer part of the memory of its process, and all other areas still are,
/// with the frames that they had.
pub proof fn ended_thread_gives_back_its_stack<M: PhysMemory>(
    kernel: &Kernel<M>,
    kernel0: &Kernel<M>,
    cpu: usize,
    exit_code: i32,
    outcome: ExitOutcome,
    k: int,
)
    requires
        kernel0.wf(),
        runs(kernel0, cpu),
        can_exit(kernel0, cpu as int),
        exited(kernel, kernel0, cpu as int, exit_code, outcome),
        !main_thread_runs(kernel0, cpu),
        ({
            let areas = kernel0.processes@[running_process(kernel0, cpu)].inner.memory_set.areas();
            let res = kernel0.tasks@[running(kernel0, cpu)].inner.res->Some_0;
            let bottom = res.ustack_base + res.tid * 0x3000;
            &&& 0 <= k < areas.len()
            &&& areas[k].start == (bottom % 0x1_0000_0000_0000) / 0x1000
            &&& forall|j: int|
                0 <= j < k ==> (#[trigger] areas[j]).start != (bottom % 0x1_0000_0000_0000) / 0x1000
        }),
    ensures
        ({
            let pid = running_process(kernel0, cpu);
            let areas0 = kernel0.processes@[pid].inner.memory_set.areas();
            let areas = kernel.processes@[pid].inner.memory_set.areas();
            &&& areas.len() == areas0.len() - 1
            &&& forall|j: int| 0 <= j < k ==> #[trigger] areas[j] == areas0[j]
            &&& forall|j: int| k <= j < areas.len() ==> #[trigger] areas[j] == areas0[j + 1]
        }),
{
    let t = running(kernel0, cpu);
    reveal(references_wf);
    assert(processor_wf(kernel0, cpu as int));
    assert(kernel0.tasks@.dom().contains(t));
    let res = kernel0.tasks@[t].inner.res->Some_0;
    let areas = kernel0.processes@[running_process(kernel0, cpu)].inner.memory_set.areas();
    let k1 = choose|k1: Kernel<M>| #[trigger]
        thread_stopped(&k1, kernel0, cpu as int, exit_code) && retired(kernel, &k1, t);
    lemma_index(areas, ustack_page(res), 0);
    assert(area_index(areas, ustack_page(res), 0) == k);
}

} // verus!
