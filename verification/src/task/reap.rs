//! Dropping processes that nobody refers to any more.
use vstd::prelude::*;
use super::exit::{
    drop_thread, inactive, is_inactive, lemma_inactive_same, lemma_no_threads_gone,
    lemma_threads_gone_more, thread_dropped, threads_gone,
};
use super::id::dealloc_frees_id;
use super::kernel::{
    lemma_memory_kept, lemma_processor_kept, lemma_refs_kept, lemma_schedule_kept, memory_wf,
    names_wf, parked, processes_wf, processor_wf, references_wf, schedule_wf, threads_wf,
    user_space, Kernel,
};
use super::process::{ProcessControlBlock, ProcessControlBlockInner};
use super::processor::Processor;
use super::task::TaskControlBlock;
use crate::config::NCPU;
use crate::mm::phys::PhysMemory;
use crate::mm::spaces::{confined, lemma_bystander, lemma_space_gone};

verus! {

/// Whether process `q` lists process `pid` as its child.
pub open spec fn is_parent<M: PhysMemory>(kernel: &Kernel<M>, q: usize, pid: usize) -> bool {
    kernel.processes@.dom().contains(q) && kernel.processes@[q].inner.children@.contains(pid)
}

/// Whether `t` is a thread of process `pid` that runs, or waits to run or to be woken by
/// a timer.
pub open spec fn active_in<M: PhysMemory>(kernel: &Kernel<M>, pid: usize, t: usize) -> bool {
    &&& kernel.tasks@.dom().contains(t)
    &&& kernel.tasks@[t].process == pid
    &&& !inactive(kernel, t)
}

/// Whether something refers to process `pid`: it can be found by its pid, it is
/// the first process, a processor holds it back, it is the child of a process, or one of
/// its threads is still active and needs its page table.
pub open spec fn referenced<M: PhysMemory>(kernel: &Kernel<M>, pid: usize) -> bool {
    ||| kernel.pid2process@.dom().contains(pid)
    ||| kernel.initproc == Some(pid)
    ||| exists|c: int|
        0 <= c < kernel.processors@.len() && (#[trigger] kernel.processors@[c]).exiting_process
            == Some(pid)
    ||| exists|q: usize| is_parent(kernel, q, pid)
    ||| exists|t: usize| active_in(kernel, pid, t)
}

/// Whether a list of processes holds `pid`.
fn list_contains(list: &Vec<usize>, pid: usize) -> (r: bool)
    ensures
        r == list@.contains(pid),
{
    let mut i: usize = 0;
    while i < list.len()
        invariant
            i <= list@.len(),
            forall|j: int| 0 <= j < i ==> #[trigger] list@[j] != pid,
        decreases list@.len() - i,
    {
        if list[i] == pid {
            assert(list@[i as int] == pid);
            return true;
        }
        i = i + 1;
    }
    false
}

/// Whether something refers to process `pid`.
fn is_referenced<M: PhysMemory>(kernel: &Kernel<M>, pid: usize) -> (r: bool)
    requires
        kernel.wf(),
    ensures
        r == referenced(kernel, pid),
{
    if kernel.pid2process.contains_key(&pid) {
        return true;
    }
    if let Some(init) = kernel.initproc {
        if init == pid {
            return true;
        }
    }
    let mut cpu: usize = 0;
    while cpu < kernel.processors.len()
        invariant
            cpu <= kernel.processors@.len(),
            forall|c: int|
                0 <= c < cpu ==> (#[trigger] kernel.processors@[c]).exiting_process != Some(pid),
        decreases kernel.processors@.len() - cpu,
    {
        if let Some(held) = kernel.processors[cpu].exiting_process {
            if held == pid {
                assert(kernel.processors@[cpu as int].exiting_process == Some(pid));
                return true;
            }
        }
        cpu = cpu + 1;
    }
    let bound: usize = kernel.pid_allocator.bound();
    let mut q: usize = 0;
    while q < bound
        invariant
            q <= bound == kernel.pid_allocator@.current,
            forall|p: usize| p < q ==> !#[trigger] is_parent(kernel, p, pid),
        decreases bound - q,
    {
        if let Some(process) = kernel.processes.get(&q) {
            if list_contains(&process.inner.children, pid) {
                assert(is_parent(kernel, q, pid));
                return true;
            }
        }
        q = q + 1;
    }
    let stacks: usize = kernel.kstack_allocator.bound();
    let mut t: usize = 0;
    while t < stacks
        invariant
            t <= stacks == kernel.kstack_allocator@.current,
            kernel.wf(),
            forall|u: usize| u < t ==> !#[trigger] active_in(kernel, pid, u),
        decreases stacks - t,
    {
        let belongs: bool = match kernel.tasks.get(&t) {
            Some(task) => task.process == pid,
            None => false,
        };
        if belongs && !is_inactive(kernel, t) {
            assert(active_in(kernel, pid, t));
            return true;
        }
        t = t + 1;
    }
    proof {
        reveal(references_wf);
        assert forall|p: usize| !#[trigger] is_parent(kernel, p, pid) by {
            if kernel.processes@.dom().contains(p) {
                assert(kernel.pid_allocator@.live(p));
            }
        }
        assert forall|u: usize| !#[trigger] active_in(kernel, pid, u) by {
            if kernel.tasks@.dom().contains(u) {
                assert(kernel.kstack_allocator@.live(u));
            }
        }
    }
    false
}

/// The threads of process `pid` among those with a number below `n`, in order.
pub open spec fn threads_below(
    tasks: Map<usize, TaskControlBlock>,
    pid: usize,
    n: int,
) -> Seq<usize>
    decreases n,
{
    if n <= 0 {
        Seq::empty()
    } else {
        let t = (n - 1) as usize;
        let before = threads_below(tasks, pid, n - 1);
        if tasks.dom().contains(t) && tasks[t].process == pid {
            before.push(t)
        } else {
            before
        }
    }
}

/// `kernel` came from `kernel0` by dropping the threads of process `pid` with a
/// number below `n`, none of which is listed in the process.
pub open spec fn threads_swept<M: PhysMemory>(
    kernel: &Kernel<M>,
    kernel0: &Kernel<M>,
    pid: usize,
    n: int,
) -> bool {
    &&& forall|t: usize| #[trigger]
        kernel.tasks@.dom().contains(t) <==> kernel0.tasks@.dom().contains(t) && !(t < n
            && kernel0.tasks@[t].process == pid)
    &&& forall|t: usize| #[trigger]
        kernel.tasks@.dom().contains(t) ==> kernel.tasks@[t] == kernel0.tasks@[t]
    &&& threads_gone(kernel, kernel0, threads_below(kernel0.tasks@, pid, n))
    &&& *kernel == (Kernel {
        pool: kernel.pool,
        kernel_space: kernel.kernel_space,
        kstack_allocator: kernel.kstack_allocator,
        orphans: kernel.orphans,
        tasks: kernel.tasks,
        ..*kernel0
    })
}

/// Drop all threads of process `pid`, none of which is listed there.
fn sweep_threads<M: PhysMemory>(kernel: &mut Kernel<M>, pid: usize)
    requires
        old(kernel).wf(),
        old(kernel).processes@.dom().contains(pid),
        !old(kernel).pid2process@.dom().contains(pid),
        old(kernel).processes@[pid].inner.tasks@.len() == 0,
        forall|t: usize| !#[trigger] active_in(old(kernel), pid, t),
    ensures
        final(kernel).wf(),
        threads_swept(final(kernel), old(kernel), pid, old(kernel).kstack_allocator@.current),
        forall|t: usize| #[trigger]
            final(kernel).tasks@.dom().contains(t) ==> final(kernel).tasks@[t].process != pid,
{
    let ghost k0 = *kernel;
    let bound: usize = kernel.kstack_allocator.bound();
    proof {
        lemma_no_threads_gone(&k0);
    }
    let mut i: usize = 0;
    while i < bound
        invariant
            i <= bound == k0.kstack_allocator@.current,
            k0.wf(),
            kernel.wf(),
            kernel.processes@.dom().contains(pid),
            !kernel.pid2process@.dom().contains(pid),
            kernel.processes@[pid].inner.tasks@.len() == 0,
            forall|t: usize| !#[trigger] active_in(&k0, pid, t),
            threads_swept(kernel, &k0, pid, i as int),
        decreases bound - i,
    {
        let ghost k1 = *kernel;
        let belongs: bool = match kernel.tasks.get(&i) {
            Some(task) => task.process == pid,
            None => false,
        };
        if belongs {
            proof {
                reveal(references_wf);
                assert(kernel.tasks@.dom().contains(i));
                assert(!active_in(&k0, pid, i));
                lemma_inactive_same(kernel, &k0, i);
            }
            drop_thread(kernel, i);
            proof {
                assert(thread_dropped(kernel, &k1, i));
                lemma_threads_gone_more(
                    kernel,
                    &k1,
                    &k0,
                    threads_below(k0.tasks@, pid, i as int),
                    i,
                );
            }
        }
        i = i + 1;
        proof {
            assert forall|t: usize| #[trigger]
                kernel.tasks@.dom().contains(t) <==> k0.tasks@.dom().contains(t) && !(t < i
                    && k0.tasks@[t].process == pid) by {
                assert(k1.tasks@.dom().contains(t) <==> k0.tasks@.dom().contains(t) && !(t < i - 1
                    && k0.tasks@[t].process == pid));
            }
            assert forall|t: usize| #[trigger]
                kernel.tasks@.dom().contains(t) implies kernel.tasks@[t] == k0.tasks@[t] by {
                assert(k1.tasks@.dom().contains(t));
            }
        }
    }
    proof {
        reveal(references_wf);
        assert forall|t: usize| #[trigger] kernel.tasks@.dom().contains(t) implies kernel.tasks@[t].process
            != pid by {
            assert(k0.tasks@.dom().contains(t));
            assert(k0.kstack_allocator@.live(t));
        }
    }
}

/// `kernel` came from `kernel0` by letting process `pid` forget its threads.
pub open spec fn threads_forgotten<M: PhysMemory>(
    kernel: &Kernel<M>,
    kernel0: &Kernel<M>,
    pid: usize,
) -> bool {
    let p0 = kernel0.processes@[pid];
    let p1 = kernel.processes@[pid];
    &&& kernel.processes@ == kernel0.processes@.insert(pid, p1)
    &&& p1.inner.tasks@.len() == 0
    &&& p1 == (ProcessControlBlock {
        inner: ProcessControlBlockInner { tasks: p1.inner.tasks, ..p0.inner },
        ..p0
    })
    &&& *kernel == (Kernel { processes: kernel.processes, ..*kernel0 })
}

proof fn lemma_forgotten<M: PhysMemory>(kernel: &Kernel<M>, kernel0: &Kernel<M>, pid: usize)
    requires
        kernel0.wf(),
        kernel0.processes@.dom().contains(pid),
        !kernel0.pid2process@.dom().contains(pid),
        threads_forgotten(kernel, kernel0, pid),
    ensures
        kernel.wf(),
{
    reveal(references_wf);
    let ps = kernel.processes@;
    let ps0 = kernel0.processes@;
    let ts = kernel.tasks@;
    assert(ps.dom() =~= ps0.dom());
    assert(kernel.spaces() =~= kernel0.spaces());
    lemma_memory_kept(kernel, kernel0);
    lemma_schedule_kept(kernel, kernel0);
    assert(processes_wf(ps, kernel.pid_allocator@, kernel.phys_offset)) by {
        assert forall|q: usize, i: int|
            #[trigger] ps.dom().contains(q) && 0 <= i < ps[q].inner.children@.len() implies ps.dom().contains(
        #[trigger] ps[q].inner.children@[i]) by {
            assert(ps0.dom().contains(ps0[q].inner.children@[i]));
        }
    }
    assert(threads_wf(ps, ts, kernel.kstack_allocator@, kernel.orphans@)) by {
        assert forall|u: usize| #[trigger] ts.dom().contains(u) implies {
            let task = ts[u];
            &&& task.kstack.id == u
            &&& task.last_cpu < NCPU
            &&& ps.dom().contains(task.process)
            &&& task.inner.res matches Some(res) ==> {
                let inner = ps[task.process].inner;
                &&& res.process == task.process
                &&& res.wf()
                &&& inner.task_res_allocator@.live(res.tid)
                &&& res.tid < inner.tasks@.len()
                &&& inner.tasks@[res.tid as int] == Some(u)
            }
        } by {
            assert(kernel0.tasks@.dom().contains(u));
        }
        assert forall|q: usize, i: int|
            #[trigger] ps.dom().contains(q) && 0 <= i < ps[q].inner.tasks@.len() && (
            #[trigger] ps[q].inner.tasks@[i]) is Some implies {
            let u = ps[q].inner.tasks@[i]->Some_0;
            &&& ts.dom().contains(u)
            &&& ts[u].process == q
        } by {
            assert(ps0.dom().contains(q));
            assert(ps0[q].inner.tasks@[i] is Some);
        }
        assert forall|q: usize, i: int, j: int|
            #[trigger] ps.dom().contains(q) && 0 <= i < ps[q].inner.tasks@.len() && 0 <= j
                < ps[q].inner.tasks@.len() && (#[trigger] ps[q].inner.tasks@[i]) is Some
                && ps[q].inner.tasks@[i] == (#[trigger] ps[q].inner.tasks@[j]) implies i == j by {
            assert(ps0.dom().contains(q));
            assert(ps0[q].inner.tasks@[i] == ps0[q].inner.tasks@[j]);
        }
    }
    assert(names_wf(kernel));
}

/// `kernel` came from `kernel0` by dropping process `pid`, whose threads are gone:
/// its address space and its pid are given back.
pub open spec fn process_dropped<M: PhysMemory>(
    kernel: &Kernel<M>,
    kernel0: &Kernel<M>,
    pid: usize,
) -> bool {
    let ms = kernel0.processes@[pid].inner.memory_set;
    &&& kernel.processes@ == kernel0.processes@.remove(pid)
    &&& kernel.pid_allocator@ == kernel0.pid_allocator@.after_dealloc(pid)
    &&& kernel.pool.same_extent(&kernel0.pool)
    &&& kernel.pool.frames() == kernel0.pool.frames()
    &&& kernel.pool.free() == kernel0.pool.free().union(ms.owned())
    &&& kernel.pool.free_count() == kernel0.pool.free_count() + ms.owned_count()
    &&& *kernel == (Kernel {
        pool: kernel.pool,
        processes: kernel.processes,
        pid_allocator: kernel.pid_allocator,
        ..*kernel0
    })
}

proof fn lemma_dropped<M: PhysMemory>(kernel: &Kernel<M>, kernel0: &Kernel<M>, pid: usize)
    requires
        kernel0.wf(),
        kernel0.processes@.dom().contains(pid),
        !referenced(kernel0, pid),
        forall|t: usize| #[trigger]
            kernel0.tasks@.dom().contains(t) ==> kernel0.tasks@[t].process != pid,
        process_dropped(kernel, kernel0, pid),
    ensures
        kernel.refs_wf(),
{
    reveal(references_wf);
    let ps = kernel.processes@;
    let ps0 = kernel0.processes@;
    let ts = kernel.tasks@;
    dealloc_frees_id(kernel0.pid_allocator@, pid);
    assert(processes_wf(ps, kernel.pid_allocator@, kernel.phys_offset)) by {
        assert forall|q: usize, i: int|
            #[trigger] ps.dom().contains(q) && 0 <= i < ps[q].inner.children@.len() implies ps.dom().contains(
        #[trigger] ps[q].inner.children@[i]) by {
            assert(ps0.dom().contains(ps0[q].inner.children@[i]));
            assert(!is_parent(kernel0, q, pid));
            assert(ps0[q].inner.children@.contains(ps0[q].inner.children@[i]));
        }
        assert forall|p: usize| #[trigger] ps.dom().contains(p) implies {
            &&& ps[p].pid.0 == p
            &&& p != 0
            &&& kernel.pid_allocator@.live(p)
            &&& ps[p].inner.task_res_allocator@.wf()
            &&& ps[p].inner.signals_wf()
            &&& user_space(&ps[p].inner.memory_set, kernel.phys_offset)
        } by {
            assert(ps0.dom().contains(p));
        }
        assert forall|p: usize| #[trigger] kernel.pid_allocator@.live(p) && p != 0 implies ps.dom().contains(
            p,
        ) by {
            assert(kernel0.pid_allocator@.live(p));
        }
        assert(kernel.pid_allocator@.live(0)) by {
            assert(pid != 0);
        }
    }
    assert(threads_wf(ps, ts, kernel.kstack_allocator@, kernel.orphans@)) by {
        assert forall|u: usize| #[trigger] ts.dom().contains(u) implies {
            let task = ts[u];
            &&& task.kstack.id == u
            &&& task.last_cpu < NCPU
            &&& ps.dom().contains(task.process)
            &&& task.inner.res matches Some(res) ==> {
                let inner = ps[task.process].inner;
                &&& res.process == task.process
                &&& res.wf()
                &&& inner.task_res_allocator@.live(res.tid)
                &&& res.tid < inner.tasks@.len()
                &&& inner.tasks@[res.tid as int] == Some(u)
            }
        } by {
            assert(kernel0.tasks@.dom().contains(u));
        }
        assert forall|q: usize, i: int|
            #[trigger] ps.dom().contains(q) && 0 <= i < ps[q].inner.tasks@.len() && (
            #[trigger] ps[q].inner.tasks@[i]) is Some implies {
            let u = ps[q].inner.tasks@[i]->Some_0;
            &&& ts.dom().contains(u)
            &&& ts[u].process == q
        } by {
            assert(ps0.dom().contains(q));
            assert(ps0[q].inner.tasks@[i] is Some);
        }
        assert forall|q: usize, i: int, j: int|
            #[trigger] ps.dom().contains(q) && 0 <= i < ps[q].inner.tasks@.len() && 0 <= j
                < ps[q].inner.tasks@.len() && (#[trigger] ps[q].inner.tasks@[i]) is Some
                && ps[q].inner.tasks@[i] == (#[trigger] ps[q].inner.tasks@[j]) implies i == j by {
            assert(ps0.dom().contains(q));
            assert(ps0[q].inner.tasks@[i] == ps0[q].inner.tasks@[j]);
        }
    }
    assert(schedule_wf(kernel)) by {
        assert forall|c: int| 0 <= c < NCPU implies #[trigger] processor_wf(kernel, c) by {
            assert(processor_wf(kernel0, c));
            assert(kernel0.processors@[c].exiting_process != Some(pid));
            let pending = kernel0.processors@[c].pending_requeue@;
            assert forall|i: int| 0 <= i < pending.len() implies parked(
                kernel,
                c,
                #[trigger] pending[i],
            ) by {
                assert(parked(kernel0, c, pending[i]));
            }
        }
    }
    assert(names_wf(kernel)) by {
        assert forall|p: usize| #[trigger]
            kernel.pid2process@.dom().contains(p) implies kernel.pid2process@[p] == p
            && ps.dom().contains(p) by {
            assert(p != pid);
        }
        assert forall|p: usize| #[trigger]
            ps.dom().contains(p) && !kernel.pid2process@.dom().contains(p) implies ps[p].inner.children@.len()
            == 0 by {
            assert(ps0.dom().contains(p));
        }
    }
}

/// `kernel` came from `kernel0` by dropping process `pid` and all its threads.
pub open spec fn process_released<M: PhysMemory>(
    kernel: &Kernel<M>,
    kernel0: &Kernel<M>,
    pid: usize,
) -> bool {
    exists|k1: Kernel<M>, k2: Kernel<M>|
        #![trigger threads_forgotten(&k1, kernel0, pid), threads_swept(&k2, &k1, pid, k1.kstack_allocator@.current)]
        {
            &&& threads_forgotten(&k1, kernel0, pid)
            &&& threads_swept(&k2, &k1, pid, k1.kstack_allocator@.current)
            &&& process_dropped(kernel, &k2, pid)
        }
}

/// Drop process `pid`, to which nothing refers, and all its threads.
fn release_process<M: PhysMemory>(kernel: &mut Kernel<M>, pid: usize)
    requires
        old(kernel).wf(),
        old(kernel).processes@.dom().contains(pid),
        !referenced(old(kernel), pid),
    ensures
        final(kernel).wf(),
        process_released(final(kernel), old(kernel), pid),
{
    let ghost k0 = *kernel;
    let mut process = kernel.processes.remove(&pid).unwrap();
    process.inner.tasks.clear();
    let ghost p1 = process;
    kernel.processes.insert(pid, process);
    let ghost k1 = *kernel;
    proof {
        assert(kernel.processes@ =~= k0.processes@.insert(pid, p1));
        assert(threads_forgotten(&k1, &k0, pid));
        lemma_forgotten(&k1, &k0, pid);
        assert forall|t: usize| !#[trigger] active_in(&k1, pid, t) by {
            assert(!active_in(&k0, pid, t));
            lemma_inactive_same(&k1, &k0, t);
        }
    }
    sweep_threads(kernel, pid);
    let ghost k2 = *kernel;
    proof {
        assert(threads_swept(&k2, &k1, pid, k1.kstack_allocator@.current));
        assert(!referenced(&k2, pid)) by {
            assert forall|q: usize| !#[trigger] is_parent(&k2, q, pid) by {
                assert(!is_parent(&k0, q, pid));
            }
            assert forall|t: usize| !#[trigger] active_in(&k2, pid, t) by {
                if k2.tasks@.dom().contains(t) {
                    assert(k2.tasks@[t].process != pid);
                }
            }
        }
        reveal(memory_wf);
        assert(k2.spaces().dom().contains(pid));
        assert(k2.pid_allocator@.live(pid)) by {
            reveal(references_wf);
        }
    }
    let process = kernel.processes.remove(&pid).unwrap();
    let ghost ms = process.inner.memory_set;
    process.inner.memory_set.release(&mut kernel.pool);
    kernel.pid_allocator.dealloc(pid);
    proof {
        assert(confined(&kernel.pool, &k2.pool, ms.owned()));
        lemma_space_gone(&kernel.pool, &k2.pool, &k2.kernel_space, k2.spaces(), pid);
        lemma_bystander(&k2.kernel_space, &kernel.pool, &k2.pool, ms.owned());
        assert(kernel.spaces() =~= k2.spaces().remove(pid));
        assert(kernel.mem_wf());
        lemma_dropped(kernel, &k2, pid);
    }
}

/// Drop process `pid` and all its threads, unless something still refers to it.
pub fn drop_process<M: PhysMemory>(kernel: &mut Kernel<M>, pid: usize)
    requires
        old(kernel).wf(),
        old(kernel).processes@.dom().contains(pid),
    ensures
        final(kernel).wf(),
        if referenced(old(kernel), pid) {
            *final(kernel) == *old(kernel)
        } else {
            process_released(final(kernel), old(kernel), pid)
        },
{
    if !is_referenced(kernel, pid) {
        release_process(kernel, pid);
    }
}

/// `kernel` came from `kernel0` by dropping the process that processor `cpu` holds back, if
/// there is one.
pub open spec fn exiting_dropped<M: PhysMemory>(
    kernel: &Kernel<M>,
    kernel0: &Kernel<M>,
    cpu: int,
) -> bool {
    match kernel0.processors@[cpu].exiting_process {
        Some(pid) => exists|k1: Kernel<M>| #[trigger]
            hold_ended(&k1, kernel0, cpu) && if referenced(&k1, pid) {
                *kernel == k1
            } else {
                process_released(kernel, &k1, pid)
            },
        None => *kernel == *kernel0,
    }
}

/// Drop the process that processor `cpu` holds back: its main thread has left its
/// kernel stack, since the processor is back in its idle loop and the kernel's
/// address space is active.
pub fn drop_exiting<M: PhysMemory>(kernel: &mut Kernel<M>, cpu: usize)
    requires
        old(kernel).wf(),
        cpu < NCPU,
    ensures
        final(kernel).wf(),
        exiting_dropped(final(kernel), old(kernel), cpu as int),
{
    let ghost k0 = *kernel;
    proof {
        reveal(references_wf);
        assert(processor_wf(&k0, cpu as int));
    }
    if let Some(pid) = kernel.processors[cpu].exiting_process {
        kernel.processors[cpu].exiting_process = None;
        let ghost k1 = *kernel;
        proof {
            assert(hold_ended(&k1, &k0, cpu as int));
            lemma_hold_ended(kernel, &k0, cpu as int);
        }
        drop_process(kernel, pid);
    }
}

/// `kernel` came from `kernel0` by letting processor `cpu` no longer hold a
/// process back.
pub open spec fn hold_ended<M: PhysMemory>(
    kernel: &Kernel<M>,
    kernel0: &Kernel<M>,
    cpu: int,
) -> bool {
    &&& kernel.processors@ == kernel0.processors@.update(
        cpu,
        (Processor { exiting_process: None, ..kernel0.processors@[cpu] }),
    )
    &&& *kernel == (Kernel { processors: kernel.processors, ..*kernel0 })
}

proof fn lemma_hold_ended<M: PhysMemory>(kernel: &Kernel<M>, kernel0: &Kernel<M>, cpu: int)
    requires
        kernel0.wf(),
        0 <= cpu < NCPU,
        hold_ended(kernel, kernel0, cpu),
    ensures
        kernel.wf(),
{
    reveal(references_wf);
    lemma_memory_kept(kernel, kernel0);
    assert forall|c: int| 0 <= c < NCPU implies #[trigger] processor_wf(kernel, c) by {
        assert(processor_wf(kernel0, c));
        if c != cpu {
            lemma_processor_kept(kernel, kernel0, c);
        } else {
            let pending = kernel0.processors@[c].pending_requeue@;
            assert forall|i: int| 0 <= i < pending.len() implies parked(
                kernel,
                c,
                #[trigger] pending[i],
            ) by {
                assert(parked(kernel0, c, pending[i]));
            }
            if kernel0.processors@[c].current is Some {
                assert(parked(
                    kernel0,
                    c,
                    kernel0.processors@[c].current->Some_0,
                ));
            }
        }
    }
    lemma_refs_kept(kernel, kernel0);
}

} // verus!
