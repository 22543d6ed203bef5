//! The end of a process.
use vstd::prelude::*;
use super::adopt::{adopt_children, adopted, adopted_process};
use super::exit::{
    deactivated, drop_thread, lemma_no_threads_gone, lemma_still_waits_nowhere,
    lemma_threads_gone_more, on_core, remove_inactive_task, retire, retired, runs_on_core, stripped,
    thread_dropped, threads_gone, waits_nowhere,
};
use super::id::IdView;
use super::kernel::{
    children_wf, lemma_memory_kept, lemma_processor_kept, lemma_refs_kept, lemma_schedule_kept,
    lemma_spaces_insert, memory_wf, names_wf, parked, processes_wf, processor_wf, references_wf,
    schedule_wf, threads_wf, Kernel, IDLE_PID,
};
use super::manager::{without_all, without_first};
use super::process::{FileHandle, ProcessControlBlock, ProcessControlBlockInner};
use super::processor::Processor;
use super::res::{areas_given_back, lemma_given_back_trans};
use super::schedule::{
    current_task, lemma_current_taken, lemma_only_processors, lemma_rescheduled,
    remove_from_pid2process, take_current_task,
};
use super::task::{TaskControlBlock, TaskControlBlockInner};
use crate::config::NCPU;
use crate::mm::map_area::AreaView;
use crate::mm::memory_set::areas_data;
use crate::mm::phys::PhysMemory;
use crate::mm::spaces::{lemma_bystander, lemma_own_part_changed, lemma_space_changed};
use crate::timer::{events_without, TimerCondVar};

verus! {

/// The ready queue without the first `n` threads of `list`.
pub open spec fn ready_without(queue: Seq<usize>, list: Seq<Option<usize>>, n: int) -> Seq<usize>
    decreases n,
{
    if n <= 0 {
        queue
    } else {
        let before = ready_without(queue, list, n - 1);
        match list[n - 1] {
            Some(t) => without_first(before, t),
            None => before,
        }
    }
}

/// The queue of a processor without the first `n` threads of `list`.
pub open spec fn pending_without(queue: Seq<usize>, list: Seq<Option<usize>>, n: int) -> Seq<usize>
    decreases n,
{
    if n <= 0 {
        queue
    } else {
        let before = pending_without(queue, list, n - 1);
        match list[n - 1] {
            Some(t) => without_all(before, before.len() as int, t),
            None => before,
        }
    }
}

/// The timers without those of the first `n` threads of `list`.
pub open spec fn timers_without(
    events: Seq<TimerCondVar>,
    list: Seq<Option<usize>>,
    n: int,
) -> Seq<TimerCondVar>
    decreases n,
{
    if n <= 0 {
        events
    } else {
        let before = timers_without(events, list, n - 1);
        match list[n - 1] {
            Some(t) => events_without(before, before.len() as int, t),
            None => before,
        }
    }
}

/// The numbers of threads once those of the first `n` threads of `list` were
/// given back.
pub open spec fn tids_without(
    ids: IdView,
    tasks: Map<usize, TaskControlBlock>,
    list: Seq<Option<usize>>,
    n: int,
) -> IdView
    decreases n,
{
    if n <= 0 {
        ids
    } else {
        let before = tids_without(ids, tasks, list, n - 1);
        match list[n - 1] {
            Some(t) => match tasks[t].inner.res {
                Some(res) => before.after_dealloc(res.tid),
                None => before,
            },
            None => before,
        }
    }
}

/// `kernel` came from `kernel0` by taking the first `n` threads of process `pid`
/// out of all queues, and what they had in the process from them.
pub open spec fn threads_retired<M: PhysMemory>(
    kernel: &Kernel<M>,
    kernel0: &Kernel<M>,
    pid: usize,
    n: int,
) -> bool {
    let p0 = kernel0.processes@[pid];
    let p1 = kernel.processes@[pid];
    let list = p0.inner.tasks@;
    &&& kernel.tasks@.dom() == kernel0.tasks@.dom()
    &&& forall|t: usize| #[trigger]
        kernel0.tasks@.dom().contains(t) ==> kernel.tasks@[t] == if list.take(n).contains(Some(t)) {
            stripped(kernel0.tasks@[t])
        } else {
            kernel0.tasks@[t]
        }
    &&& kernel.task_manager@ == ready_without(kernel0.task_manager@, list, n)
    &&& kernel.timers.events() == timers_without(kernel0.timers.events(), list, n)
    &&& kernel.timers.ticks() == kernel0.timers.ticks()
    &&& kernel.processors@.len() == kernel0.processors@.len()
    &&& forall|c: int|
        0 <= c < kernel.processors@.len() ==> {
            let c0 = kernel0.processors@[c];
            let c1 = #[trigger] kernel.processors@[c];
            &&& c1.pending_requeue@ == pending_without(c0.pending_requeue@, list, n)
            &&& c1 == (Processor { pending_requeue: c1.pending_requeue, ..c0 })
        }
    &&& kernel.processes@ == kernel0.processes@.insert(pid, p1)
    &&& p1.inner.task_res_allocator@ == tids_without(
        p0.inner.task_res_allocator@,
        kernel0.tasks@,
        list,
        n,
    )
    &&& areas_given_back(
        &p1.inner.memory_set,
        &kernel.pool,
        &p0.inner.memory_set,
        &kernel0.pool,
    )
    &&& p1 == (ProcessControlBlock {
        inner: ProcessControlBlockInner {
            task_res_allocator: p1.inner.task_res_allocator,
            memory_set: p1.inner.memory_set,
            ..p0.inner
        },
        ..p0
    })
    &&& *kernel == (Kernel {
        pool: kernel.pool,
        processes: kernel.processes,
        tasks: kernel.tasks,
        task_manager: kernel.task_manager,
        timers: kernel.timers,
        processors: kernel.processors,
        ..*kernel0
    })
}

proof fn lemma_retired_step<M: PhysMemory>(
    k3: &Kernel<M>,
    k2: &Kernel<M>,
    k1: &Kernel<M>,
    kernel0: &Kernel<M>,
    pid: usize,
    n: int,
    t: usize,
)
    requires
        kernel0.refs_wf(),
        kernel0.processes@.dom().contains(pid),
        0 <= n < kernel0.processes@[pid].inner.tasks@.len(),
        kernel0.processes@[pid].inner.tasks@[n] == Some(t),
        threads_retired(k1, kernel0, pid, n),
        deactivated(k2, k1, t),
        retired(k3, k2, t),
    ensures
        threads_retired(k3, kernel0, pid, n + 1),
{
    reveal(references_wf);
    let list = kernel0.processes@[pid].inner.tasks@;
    let head = list.take(n);
    let more = list.take(n + 1);
    assert(more =~= head.push(Some(t)));
    assert(kernel0.tasks@.dom().contains(t));
    assert(kernel0.tasks@[t].process == pid);
    assert(!head.contains(Some(t))) by {
        if head.contains(Some(t)) {
            let i = choose|i: int| 0 <= i < head.len() && head[i] == Some(t);
            assert(list[i] is Some && list[i] == list[n]);
        }
    }
    assert(k1.tasks@[t] == kernel0.tasks@[t]);
    assert forall|u: usize| #[trigger]
        kernel0.tasks@.dom().contains(u) implies k3.tasks@[u] == if more.contains(Some(u)) {
        stripped(kernel0.tasks@[u])
    } else {
        kernel0.tasks@[u]
    } by {
        if more.contains(Some(u)) && u != t {
            let i = choose|i: int| 0 <= i < more.len() && more[i] == Some(u);
            assert(head[i] == Some(u));
        }
        if head.contains(Some(u)) {
            let i = choose|i: int| 0 <= i < head.len() && head[i] == Some(u);
            assert(more[i] == Some(u));
        }
        assert(more[n] == Some(t));
    }
    assert(k3.tasks@.dom() =~= kernel0.tasks@.dom());
    assert forall|c: int| 0 <= c < k3.processors@.len() implies {
        let c0 = kernel0.processors@[c];
        let c1 = #[trigger] k3.processors@[c];
        &&& c1.pending_requeue@ == pending_without(c0.pending_requeue@, list, n + 1)
        &&& c1 == (Processor { pending_requeue: c1.pending_requeue, ..c0 })
    } by {
        assert(k2.processors@[c].pending_requeue@ == without_all(
            k1.processors@[c].pending_requeue@,
            k1.processors@[c].pending_requeue@.len() as int,
            t,
        ));
    }
    assert(k3.processes@ =~= kernel0.processes@.insert(pid, k3.processes@[pid]));
    lemma_given_back_same(k3, k2, k1, kernel0, pid, t);
}

proof fn lemma_given_back_same<M: PhysMemory>(
    k3: &Kernel<M>,
    k2: &Kernel<M>,
    k1: &Kernel<M>,
    kernel0: &Kernel<M>,
    pid: usize,
    t: usize,
)
    requires
        k2.processes == k1.processes,
        k2.pool == k1.pool,
        retired(k3, k2, t),
        k2.tasks@[t].inner.res matches Some(res) ==> res.process == pid,
        areas_given_back(
            &k1.processes@[pid].inner.memory_set,
            &k1.pool,
            &kernel0.processes@[pid].inner.memory_set,
            &kernel0.pool,
        ),
    ensures
        areas_given_back(
            &k3.processes@[pid].inner.memory_set,
            &k3.pool,
            &kernel0.processes@[pid].inner.memory_set,
            &kernel0.pool,
        ),
{
    if k2.tasks@[t].inner.res is Some {
        lemma_given_back_trans(
            &k3.processes@[pid].inner.memory_set,
            &k3.pool,
            &k1.processes@[pid].inner.memory_set,
            &k1.pool,
            &kernel0.processes@[pid].inner.memory_set,
            &kernel0.pool,
        );
    }
}

/// Whether none of the first `n` threads of `list` waits to run or to be woken by a
/// timer.
pub open spec fn listed_wait_nowhere<M: PhysMemory>(
    kernel: &Kernel<M>,
    list: Seq<Option<usize>>,
    n: int,
) -> bool {
    forall|i: int|
        0 <= i < n && (#[trigger] list[i]) is Some ==> waits_nowhere(kernel, list[i]->Some_0)
}

/// Take all threads of process `pid` out of all queues, and give back what they have in
/// the process.
fn retire_threads<M: PhysMemory>(kernel: &mut Kernel<M>, pid: usize)
    requires
        old(kernel).wf(),
        old(kernel).processes@.dom().contains(pid),
    ensures
        final(kernel).wf(),
        threads_retired(
            final(kernel),
            old(kernel),
            pid,
            old(kernel).processes@[pid].inner.tasks@.len() as int,
        ),
        listed_wait_nowhere(
            final(kernel),
            old(kernel).processes@[pid].inner.tasks@,
            old(kernel).processes@[pid].inner.tasks@.len() as int,
        ),
{
    let ghost k0 = *kernel;
    let ghost list = k0.processes@[pid].inner.tasks@;
    let n: usize = kernel.processes.get(&pid).unwrap().inner.thread_count();
    let mut i: usize = 0;
    assert(list.take(0) =~= Seq::empty());
    assert(kernel.processes@ =~= k0.processes@.insert(pid, k0.processes@[pid]));
    while i < n
        invariant
            i <= n == list.len(),
            list == k0.processes@[pid].inner.tasks@,
            k0.wf(),
            k0.processes@.dom().contains(pid),
            kernel.wf(),
            threads_retired(kernel, &k0, pid, i as int),
            listed_wait_nowhere(kernel, list, i as int),
        decreases n - i,
    {
        let ghost k1 = *kernel;
        let entry: Option<usize> = kernel.processes.get(&pid).unwrap().inner.tasks[i];
        if let Some(t) = entry {
            proof {
                reveal(references_wf);
                assert(list[i as int] is Some);
                assert(k0.tasks@.dom().contains(t) && k0.tasks@[t].process == pid);
            }
            remove_inactive_task(kernel, t);
            let ghost k2 = *kernel;
            retire(kernel, t);
            proof {
                assert forall|k: int| 0 <= k <= i && (
                #[trigger] list[k]) is Some implies waits_nowhere(kernel, list[k]->Some_0) by {
                    if k < i {
                        lemma_still_waits_nowhere(&k2, &k1, t, list[k]->Some_0);
                    }
                    assert(waits_nowhere(&k2, list[k]->Some_0));
                }
                lemma_retired_step(kernel, &k2, &k1, &k0, pid, i as int, t);
            }
        } else {
            proof {
                let head = list.take(i as int);
                let more = list.take(i + 1);
                assert(more =~= head.push(None));
                assert forall|u: usize| #[trigger]
                    k0.tasks@.dom().contains(u) implies more.contains(Some(u)) == head.contains(
                    Some(u),
                ) by {
                    if more.contains(Some(u)) {
                        let k = choose|k: int| 0 <= k < more.len() && more[k] == Some(u);
                        assert(head[k] == Some(u));
                    }
                    if head.contains(Some(u)) {
                        let k = choose|k: int| 0 <= k < head.len() && head[k] == Some(u);
                        assert(more[k] == Some(u));
                    }
                }
            }
        }
        i = i + 1;
    }
}

/// `kernel` came from `kernel0` by letting process `pid` forget its children,
/// drop its memory and close its files.
pub open spec fn process_emptied<M: PhysMemory>(
    kernel: &Kernel<M>,
    kernel0: &Kernel<M>,
    pid: usize,
) -> bool {
    let p0 = kernel0.processes@[pid];
    let p1 = kernel.processes@[pid];
    &&& kernel.processes@ == kernel0.processes@.insert(pid, p1)
    &&& p1.inner.children@ == Seq::<usize>::empty()
    &&& p1.inner.fd_table@ == Seq::<Option<FileHandle>>::empty()
    &&& p1.inner.memory_set.areas() == Seq::<AreaView>::empty()
    &&& areas_given_back(
        &p1.inner.memory_set,
        &kernel.pool,
        &p0.inner.memory_set,
        &kernel0.pool,
    )
    &&& p1 == (ProcessControlBlock {
        inner: ProcessControlBlockInner {
            children: p1.inner.children,
            fd_table: p1.inner.fd_table,
            memory_set: p1.inner.memory_set,
            ..p0.inner
        },
        ..p0
    })
    &&& *kernel == (Kernel { pool: kernel.pool, processes: kernel.processes, ..*kernel0 })
}

/// Let process `pid` forget its children, drop its memory and close its files.
fn empty_process<M: PhysMemory>(kernel: &mut Kernel<M>, pid: usize)
    requires
        old(kernel).wf(),
        old(kernel).processes@.dom().contains(pid),
    ensures
        final(kernel).wf(),
        process_emptied(final(kernel), old(kernel), pid),
{
    let ghost k0 = *kernel;
    let mut process = kernel.processes.remove(&pid).unwrap();
    let ghost p0 = process;
    let ghost ms0 = p0.inner.memory_set;
    proof {
        reveal(memory_wf);
        assert(k0.spaces().dom().contains(pid));
    }
    process.inner.children.clear();
    process.inner.memory_set.recycle_data_pages(&mut kernel.pool);
    process.inner.fd_table.clear();
    let ghost p1 = process;
    let ghost ms1 = p1.inner.memory_set;
    kernel.processes.insert(pid, process);
    proof {
        assert(areas_data(ms1.areas()) =~= Set::empty());
        assert(kernel.pool.free().union(areas_data(ms1.areas())) =~= k0.pool.free().union(
            areas_data(ms0.areas()),
        ));
        assert(p1.inner.children@ =~= Seq::empty());
        assert(p1.inner.fd_table@ =~= Seq::empty());
        lemma_own_part_changed(&ms1, &kernel.pool, &ms0, &k0.pool, &k0.kernel_space);
        lemma_space_changed(
            &kernel.pool,
            &k0.pool,
            &k0.kernel_space,
            k0.spaces(),
            pid,
            ms1,
            ms0.owned(),
        );
        lemma_bystander(&k0.kernel_space, &kernel.pool, &k0.pool, ms0.owned());
        lemma_spaces_insert(k0.processes@, pid, p1);
        assert(kernel.processes@ =~= k0.processes@.insert(pid, p1));
        assert(kernel.mem_wf());
        lemma_emptied(kernel, &k0, pid);
    }
}

proof fn lemma_emptied<M: PhysMemory>(kernel: &Kernel<M>, kernel0: &Kernel<M>, pid: usize)
    requires
        kernel0.wf(),
        kernel0.processes@.dom().contains(pid),
        process_emptied(kernel, kernel0, pid),
    ensures
        kernel.refs_wf(),
{
    reveal(references_wf);
    assert(kernel.processes@.dom() =~= kernel0.processes@.dom());
    lemma_schedule_kept(kernel, kernel0);
    assert(children_wf(kernel, pid));
    lemma_refs_kept(kernel, kernel0);
}

/// Whether something but the list of threads of process `pid` refers to its thread `t`:
/// the thread waits for something of the process, or a processor runs it.
pub open spec fn thread_held<M: PhysMemory>(kernel: &Kernel<M>, pid: usize, t: usize) -> bool {
    kernel.processes@[pid].inner.waits(t) || on_core(kernel, t)
}

/// Whether thread `t` is dropped when process `pid` keeps only its first `n` threads.
pub open spec fn thread_cut<M: PhysMemory>(
    kernel: &Kernel<M>,
    pid: usize,
    n: int,
    t: usize,
) -> bool {
    kernel.processes@[pid].inner.tasks@.skip(n).contains(Some(t)) && !thread_held(kernel, pid, t)
}

/// The threads that are dropped, the last one first.
pub open spec fn threads_cut<M: PhysMemory>(kernel: &Kernel<M>, pid: usize, n: int) -> Seq<usize>
    decreases kernel.processes@[pid].inner.tasks@.len() - n,
{
    let list = kernel.processes@[pid].inner.tasks@;
    if n >= list.len() {
        Seq::empty()
    } else {
        let before = threads_cut(kernel, pid, n + 1);
        match list[n] {
            Some(t) => if thread_held(kernel, pid, t) {
                before
            } else {
                before.push(t)
            },
            None => before,
        }
    }
}

/// `kernel` came from `kernel0` by letting process `pid` keep only its first `n`
/// threads. A thread that waits for something of the process or runs on a processor
/// stays, as it is still known there.
pub open spec fn process_cut<M: PhysMemory>(
    kernel: &Kernel<M>,
    kernel0: &Kernel<M>,
    pid: usize,
    n: int,
) -> bool {
    let p0 = kernel0.processes@[pid];
    let p1 = kernel.processes@[pid];
    &&& kernel.processes@ == kernel0.processes@.insert(pid, p1)
    &&& p1.inner.tasks@ == p0.inner.tasks@.take(n)
    &&& p1 == (ProcessControlBlock {
        inner: ProcessControlBlockInner { tasks: p1.inner.tasks, ..p0.inner },
        ..p0
    })
    &&& forall|t: usize| #[trigger]
        kernel.tasks@.dom().contains(t) <==> kernel0.tasks@.dom().contains(t) && !thread_cut(
            kernel0,
            pid,
            n,
            t,
        )
    &&& forall|t: usize| #[trigger]
        kernel.tasks@.dom().contains(t) ==> kernel.tasks@[t] == kernel0.tasks@[t]
    &&& threads_gone(kernel, kernel0, threads_cut(kernel0, pid, n))
    &&& *kernel == (Kernel {
        pool: kernel.pool,
        kernel_space: kernel.kernel_space,
        kstack_allocator: kernel.kstack_allocator,
        orphans: kernel.orphans,
        processes: kernel.processes,
        tasks: kernel.tasks,
        ..*kernel0
    })
}

/// The list of threads of a process can be cut, if the threads that are no
/// longer listed have exited.
proof fn lemma_unlisted<M: PhysMemory>(kernel: &Kernel<M>, kernel0: &Kernel<M>, pid: usize)
    requires
        kernel0.wf(),
        kernel0.processes@.dom().contains(pid),
        ({
            let p0 = kernel0.processes@[pid];
            let p1 = kernel.processes@[pid];
            let n = p0.inner.tasks@.len() - 1;
            &&& n >= 0
            &&& p0.inner.tasks@[n] matches Some(t) ==> kernel0.tasks@[t].inner.res is None
            &&& kernel.processes@ == kernel0.processes@.insert(pid, p1)
            &&& p1.inner.tasks@ == p0.inner.tasks@.take(n)
            &&& p1 == (ProcessControlBlock {
                inner: ProcessControlBlockInner { tasks: p1.inner.tasks, ..p0.inner },
                ..p0
            })
            &&& *kernel == (Kernel { processes: kernel.processes, ..*kernel0 })
        }),
    ensures
        kernel.wf(),
{
    reveal(references_wf);
    let ps = kernel.processes@;
    let ps0 = kernel0.processes@;
    let ts = kernel.tasks@;
    assert(ps.dom() =~= ps0.dom());
    assert(kernel.spaces() =~= kernel0.spaces());
    lemma_memory_kept(kernel, kernel0);
    lemma_schedule_kept(kernel, kernel0);
    assert(processes_wf(ps, kernel.pid_allocator@, kernel.phys_offset)) by {
        assert forall|q: usize, i: int|
            #[trigger] ps.dom().contains(q) && 0 <= i < ps[q].inner.children@.len() implies ps.dom().contains(
        #[trigger] ps[q].inner.children@[i]) by {
            assert(ps0.dom().contains(ps0[q].inner.children@[i]));
        }
    }
    assert(threads_wf(ps, ts, kernel.kstack_allocator@, kernel.orphans@)) by {
        assert forall|u: usize| #[trigger] ts.dom().contains(u) implies {
            let task = ts[u];
            &&& task.kstack.id == u
            &&& task.last_cpu < NCPU
            &&& ps.dom().contains(task.process)
            &&& task.inner.res matches Some(res) ==> {
                let inner = ps[task.process].inner;
                &&& res.process == task.process
                &&& res.wf()
                &&& inner.task_res_allocator@.live(res.tid)
                &&& res.tid < inner.tasks@.len()
                &&& inner.tasks@[res.tid as int] == Some(u)
            }
        } by {
            assert(kernel0.tasks@.dom().contains(u));
        }
        assert forall|q: usize, i: int|
            #[trigger] ps.dom().contains(q) && 0 <= i < ps[q].inner.tasks@.len() && (
            #[trigger] ps[q].inner.tasks@[i]) is Some implies {
            let u = ps[q].inner.tasks@[i]->Some_0;
            &&& ts.dom().contains(u)
            &&& ts[u].process == q
        } by {
            assert(ps0.dom().contains(q));
            assert(ps0[q].inner.tasks@[i] is Some);
        }
        assert forall|q: usize, i: int, j: int|
            #[trigger] ps.dom().contains(q) && 0 <= i < ps[q].inner.tasks@.len() && 0 <= j
                < ps[q].inner.tasks@.len() && (#[trigger] ps[q].inner.tasks@[i]) is Some
                && ps[q].inner.tasks@[i] == (#[trigger] ps[q].inner.tasks@[j]) implies i == j by {
            assert(ps0.dom().contains(q));
            assert(ps0[q].inner.tasks@[i] == ps0[q].inner.tasks@[j]);
        }
    }
    assert(names_wf(kernel));
}

proof fn lemma_cut_step<M: PhysMemory>(
    k3: &Kernel<M>,
    k2: &Kernel<M>,
    k1: &Kernel<M>,
    kernel0: &Kernel<M>,
    pid: usize,
    n: int,
)
    requires
        kernel0.refs_wf(),
        kernel0.processes@.dom().contains(pid),
        0 <= n < kernel0.processes@[pid].inner.tasks@.len(),
        process_cut(k1, kernel0, pid, n + 1),
        ({
            let p0 = kernel0.processes@[pid];
            let p1 = k1.processes@[pid];
            let p2 = k2.processes@[pid];
            &&& k2.processes@ == k1.processes@.insert(pid, p2)
            &&& p2.inner.tasks@ == p1.inner.tasks@.take(n)
            &&& p2 == (ProcessControlBlock {
                inner: ProcessControlBlockInner { tasks: p2.inner.tasks, ..p1.inner },
                ..p1
            })
            &&& *k2 == (Kernel { processes: k2.processes, ..*k1 })
            &&& match p0.inner.tasks@[n] {
                Some(t) => if thread_held(kernel0, pid, t) {
                    *k3 == *k2
                } else {
                    thread_dropped(k3, k2, t)
                },
                None => *k3 == *k2,
            }
        }),
    ensures
        process_cut(k3, kernel0, pid, n),
{
    reveal(references_wf);
    let inner0 = kernel0.processes@[pid].inner;
    let list = inner0.tasks@;
    let tail = list.skip(n);
    let less = list.skip(n + 1);
    assert(tail =~= seq![list[n]] + less);
    assert(k3.processes@ =~= kernel0.processes@.insert(pid, k3.processes@[pid]));
    assert(list.take(n + 1).take(n) =~= list.take(n));
    assert forall|t: usize| #[trigger] tail.contains(Some(t)) <==> less.contains(Some(t))
        || list[n] == Some(t) by {
        if tail.contains(Some(t)) {
            let i = choose|i: int| 0 <= i < tail.len() && tail[i] == Some(t);
            if i > 0 {
                assert(less[i - 1] == Some(t));
            }
        }
        if less.contains(Some(t)) {
            let i = choose|i: int| 0 <= i < less.len() && less[i] == Some(t);
            assert(tail[i + 1] == Some(t));
        }
        assert(tail[0] == list[n]);
    }
    assert forall|t: usize| #[trigger]
        k3.tasks@.dom().contains(t) <==> kernel0.tasks@.dom().contains(t) && !thread_cut(
            kernel0,
            pid,
            n,
            t,
        ) by {
        assert(k1.tasks@.dom().contains(t) <==> kernel0.tasks@.dom().contains(t) && !thread_cut(
            kernel0,
            pid,
            n + 1,
            t,
        ));
        assert(tail.contains(Some(t)) <==> less.contains(Some(t)) || list[n] == Some(t));
    }
    assert forall|t: usize| #[trigger] k3.tasks@.dom().contains(t) implies k3.tasks@[t]
        == kernel0.tasks@[t] by {
        assert(k1.tasks@.dom().contains(t));
    }
    if list[n] is Some && !thread_held(kernel0, pid, list[n]->Some_0) {
        lemma_threads_gone_more(k3, k2, kernel0, threads_cut(kernel0, pid, n + 1), list[n]->Some_0);
    }
}

/// Drop all threads of process `pid`, which have exited, but the main thread: it
/// is still on its kernel stack.
fn cut_threads<M: PhysMemory>(kernel: &mut Kernel<M>, pid: usize)
    requires
        old(kernel).wf(),
        old(kernel).processes@.dom().contains(pid),
        old(kernel).processes@[pid].inner.tasks@.len() >= 1,
        forall|t: usize| #[trigger]
            old(kernel).tasks@.dom().contains(t) && old(kernel).tasks@[t].process == pid ==> old(
                kernel,
            ).tasks@[t].inner.res is None,
        listed_wait_nowhere(
            old(kernel),
            old(kernel).processes@[pid].inner.tasks@,
            old(kernel).processes@[pid].inner.tasks@.len() as int,
        ),
    ensures
        final(kernel).wf(),
        process_cut(final(kernel), old(kernel), pid, 1),
{
    let ghost k0 = *kernel;
    let ghost inner0 = k0.processes@[pid].inner;
    let ghost list = inner0.tasks@;
    let mut n: usize = kernel.processes.get(&pid).unwrap().inner.thread_count();
    proof {
        assert(list.take(n as int) =~= list);
        assert(list.skip(n as int) =~= Seq::empty());
        assert(kernel.processes@ =~= k0.processes@.insert(pid, k0.processes@[pid]));
        lemma_no_threads_gone(&k0);
    }
    while n > 1
        invariant
            1 <= n <= list.len(),
            inner0 == k0.processes@[pid].inner,
            list == inner0.tasks@,
            k0.wf(),
            k0.processes@.dom().contains(pid),
            forall|t: usize| #[trigger]
                k0.tasks@.dom().contains(t) && k0.tasks@[t].process == pid
                    ==> k0.tasks@[t].inner.res is None,
            listed_wait_nowhere(&k0, list, list.len() as int),
            kernel.wf(),
            process_cut(kernel, &k0, pid, n as int),
        decreases n,
    {
        let ghost k1 = *kernel;
        let entry: Option<usize> = kernel.processes.get(&pid).unwrap().inner.tasks[n - 1];
        let running: bool = match entry {
            Some(t) => runs_on_core(kernel, t),
            None => false,
        };
        let mut process = kernel.processes.remove(&pid).unwrap();
        process.inner.tasks.pop();
        let held: bool = match entry {
            Some(t) => running || process.inner.is_waiting(t),
            None => false,
        };
        let ghost p2 = process;
        kernel.processes.insert(pid, process);
        n = n - 1;
        let ghost k2 = *kernel;
        proof {
            reveal(references_wf);
            assert(kernel.processes@ =~= k1.processes@.insert(pid, p2));
            assert(p2.inner.tasks@ =~= k1.processes@[pid].inner.tasks@.take(n as int));
            assert(entry == list[n as int]);
            if entry is Some {
                let t = entry->Some_0;
                assert(k1.processes@[pid].inner.tasks@[n as int] == entry);
                assert(k1.tasks@.dom().contains(t));
                assert(k1.tasks@[t].process == pid);
                assert(k0.tasks@.dom().contains(t));
            }
            lemma_unlisted(kernel, &k1, pid);
            assert(forall|t: usize| p2.inner.waits(t) == inner0.waits(t)) by {
                assert forall|t: usize| #[trigger] p2.inner.waits(t) == inner0.waits(t) by {
                    lemma_waits_same(p2.inner, inner0, t);
                }
            }
        }
        if let Some(t) = entry {
            if !held {
                proof {
                    assert forall|i: int|
                        0 <= i < kernel.processes@[pid].inner.tasks@.len() implies #[trigger] kernel.processes@[pid].inner.tasks@[i]
                        != Some(t) by {
                        let listed = k1.processes@[pid].inner.tasks@;
                        assert(listed[i] == kernel.processes@[pid].inner.tasks@[i]);
                        assert(listed[n as int] == Some(t));
                        assert(listed[n as int] is Some);
                    }
                    assert(waits_nowhere(&k0, list[n as int]->Some_0));
                    assert(waits_nowhere(kernel, t));
                }
                drop_thread(kernel, t);
            }
        }
        proof {
            lemma_cut_step(kernel, &k2, &k1, &k0, pid, n as int);
        }
    }
}

proof fn lemma_waits_same(a: ProcessControlBlockInner, b: ProcessControlBlockInner, t: usize)
    requires
        a.mutex_list == b.mutex_list,
        a.semaphore_list == b.semaphore_list,
        a.condvar_list == b.condvar_list,
    ensures
        a.waits(t) == b.waits(t),
{
    assert forall|i: int| #[trigger] a.mutex_waits(i, t) == b.mutex_waits(i, t) by {}
    assert forall|i: int| #[trigger] a.semaphore_waits(i, t) == b.semaphore_waits(i, t) by {}
    assert forall|i: int| #[trigger] a.condvar_waits(i, t) == b.condvar_waits(i, t) by {}
    if a.waits(t) {
        if exists|i: int| 0 <= i < a.mutex_list@.len() && a.mutex_waits(i, t) {
            let i = choose|i: int| 0 <= i < a.mutex_list@.len() && a.mutex_waits(i, t);
            assert(b.mutex_waits(i, t));
        } else if exists|i: int| 0 <= i < a.semaphore_list@.len() && a.semaphore_waits(i, t) {
            let i = choose|i: int| 0 <= i < a.semaphore_list@.len() && a.semaphore_waits(i, t);
            assert(b.semaphore_waits(i, t));
        } else {
            let i = choose|i: int| 0 <= i < a.condvar_list@.len() && a.condvar_waits(i, t);
            assert(b.condvar_waits(i, t));
        }
    }
    if b.waits(t) {
        if exists|i: int| 0 <= i < b.mutex_list@.len() && b.mutex_waits(i, t) {
            let i = choose|i: int| 0 <= i < b.mutex_list@.len() && b.mutex_waits(i, t);
            assert(a.mutex_waits(i, t));
        } else if exists|i: int| 0 <= i < b.semaphore_list@.len() && b.semaphore_waits(i, t) {
            let i = choose|i: int| 0 <= i < b.semaphore_list@.len() && b.semaphore_waits(i, t);
            assert(a.semaphore_waits(i, t));
        } else {
            let i = choose|i: int| 0 <= i < b.condvar_list@.len() && b.condvar_waits(i, t);
            assert(a.condvar_waits(i, t));
        }
    }
}

/// What is left to do once a thread has exited.
#[derive(Copy, Clone, Debug, PartialEq, Eq, Structural)]
pub enum ExitOutcome {
    /// switch to the idle loop of the processor
    Switch,
    /// the first process has ended: shut the machine down
    Shutdown { failure: bool },
}

/// `kernel` came from `kernel0` by ending the thread that runs on processor
/// `cpu`: it no longer runs, its exit code is recorded, and what it had in its
/// process is given back.
pub open spec fn thread_ended<M: PhysMemory>(
    kernel: &Kernel<M>,
    kernel0: &Kernel<M>,
    cpu: int,
    exit_code: i32,
) -> bool {
    let t = kernel0.processors@[cpu].current->Some_0;
    exists|k1: Kernel<M>| #[trigger]
        thread_stopped(&k1, kernel0, cpu, exit_code) && retired(kernel, &k1, t)
}

/// `kernel` came from `kernel0` by taking the thread that runs on processor `cpu`
/// from it and recording its exit code.
pub open spec fn thread_stopped<M: PhysMemory>(
    kernel: &Kernel<M>,
    kernel0: &Kernel<M>,
    cpu: int,
    exit_code: i32,
) -> bool {
    let t = kernel0.processors@[cpu].current->Some_0;
    let task0 = kernel0.tasks@[t];
    &&& kernel.processors@ == kernel0.processors@.update(
        cpu,
        (Processor { current: None, ..kernel0.processors@[cpu] }),
    )
    &&& kernel.tasks@ == kernel0.tasks@.insert(
        t,
        (TaskControlBlock {
            inner: TaskControlBlockInner { exit_code: Some(exit_code), ..task0.inner },
            ..task0
        }),
    )
    &&& *kernel == (Kernel {
        processors: kernel.processors,
        tasks: kernel.tasks,
        ..*kernel0
    })
}

/// `kernel` came from `kernel0` by making process `pid` a zombie: it can no
/// longer be found by its pid, and processor `cpu` holds it back until the main
/// thread has left its kernel stack.
pub open spec fn zombie_made<M: PhysMemory>(
    kernel: &Kernel<M>,
    kernel0: &Kernel<M>,
    pid: usize,
    cpu: int,
    exit_code: i32,
) -> bool {
    let p0 = kernel0.processes@[pid];
    &&& kernel.processes@ == kernel0.processes@.insert(
        pid,
        (ProcessControlBlock {
            inner: ProcessControlBlockInner { is_zombie: true, exit_code, ..p0.inner },
            ..p0
        }),
    )
    &&& kernel.pid2process@ == kernel0.pid2process@.remove(pid)
    &&& kernel.processors@ == kernel0.processors@.update(
        cpu,
        (Processor { exiting_process: Some(pid), ..kernel0.processors@[cpu] }),
    )
    &&& *kernel == (Kernel {
        processes: kernel.processes,
        pid2process: kernel.pid2process,
        processors: kernel.processors,
        ..*kernel0
    })
}

/// `kernel` came from `kernel0` by ending process `pid`: the first process adopts
/// its children, its threads are taken out of all queues and give back what they
/// have in the process, its memory is given back and its files are closed, all
/// threads but the main thread are dropped, unless they still run on a processor, and it
/// becomes a zombie.
pub open spec fn process_ended<M: PhysMemory>(
    kernel: &Kernel<M>,
    kernel0: &Kernel<M>,
    pid: usize,
    cpu: int,
    exit_code: i32,
) -> bool {
    let inner0 = kernel0.processes@[pid].inner;
    exists|k1: Kernel<M>, k2: Kernel<M>, k3: Kernel<M>, k4: Kernel<M>|
        #![trigger adopted(&k1, kernel0, IDLE_PID, inner0.children@),
            threads_retired(&k2, &k1, pid, inner0.tasks@.len() as int),
            process_emptied(&k3, &k2, pid), process_cut(&k4, &k3, pid, 1)]
        {
            &&& adopted(&k1, kernel0, IDLE_PID, inner0.children@)
            &&& threads_retired(&k2, &k1, pid, inner0.tasks@.len() as int)
            &&& listed_wait_nowhere(&k2, inner0.tasks@, inner0.tasks@.len() as int)
            &&& process_emptied(&k3, &k2, pid)
            &&& process_cut(&k4, &k3, pid, 1)
            &&& zombie_made(kernel, &k4, pid, cpu, exit_code)
        }
}

/// Whether the thread that runs on processor `cpu` can exit: it has not exited yet, and
/// if its process ends with it, the first process is there to adopt the children.
pub open spec fn can_exit<M: PhysMemory>(kernel: &Kernel<M>, cpu: int) -> bool {
    kernel.processors@[cpu].current matches Some(t) && kernel.tasks@[t].inner.res matches Some(res)
        && (res.tid == 0 && kernel.tasks@[t].process != IDLE_PID ==> kernel.initproc is Some)
}

proof fn lemma_zombie_made<M: PhysMemory>(
    kernel: &Kernel<M>,
    kernel0: &Kernel<M>,
    pid: usize,
    cpu: int,
    exit_code: i32,
)
    requires
        kernel0.wf(),
        kernel0.processes@.dom().contains(pid),
        kernel0.initproc != Some(pid),
        kernel0.processes@[pid].inner.children@.len() == 0,
        forall|t: usize| #[trigger]
            kernel0.tasks@.dom().contains(t) && kernel0.tasks@[t].process == pid
                ==> kernel0.tasks@[t].inner.res is None,
        0 <= cpu < NCPU,
        kernel0.processors@[cpu].current is None,
        zombie_made(kernel, kernel0, pid, cpu, exit_code),
    ensures
        kernel.wf(),
{
    reveal(references_wf);
    let ps = kernel.processes@;
    let ps0 = kernel0.processes@;
    assert(ps.dom() =~= ps0.dom());
    assert(kernel.spaces() =~= kernel0.spaces());
    lemma_memory_kept(kernel, kernel0);
    assert(processes_wf(ps, kernel.pid_allocator@, kernel.phys_offset)) by {
        assert forall|q: usize, i: int|
            #[trigger] ps.dom().contains(q) && 0 <= i < ps[q].inner.children@.len() implies ps.dom().contains(
        #[trigger] ps[q].inner.children@[i]) by {
            assert(ps0.dom().contains(ps0[q].inner.children@[i]));
        }
    }
    assert(threads_wf(ps, kernel.tasks@, kernel.kstack_allocator@, kernel.orphans@)) by {
        assert forall|q: usize, i: int|
            #[trigger] ps.dom().contains(q) && 0 <= i < ps[q].inner.tasks@.len() && (
            #[trigger] ps[q].inner.tasks@[i]) is Some implies {
            let u = ps[q].inner.tasks@[i]->Some_0;
            &&& kernel.tasks@.dom().contains(u)
            &&& kernel.tasks@[u].process == q
        } by {
            assert(ps0.dom().contains(q));
            assert(ps0[q].inner.tasks@[i] is Some);
        }
        assert forall|q: usize, i: int, j: int|
            #[trigger] ps.dom().contains(q) && 0 <= i < ps[q].inner.tasks@.len() && 0 <= j
                < ps[q].inner.tasks@.len() && (#[trigger] ps[q].inner.tasks@[i]) is Some
                && ps[q].inner.tasks@[i] == (#[trigger] ps[q].inner.tasks@[j]) implies i == j by {
            assert(ps0.dom().contains(q));
            assert(ps0[q].inner.tasks@[i] == ps0[q].inner.tasks@[j]);
        }
    }
    assert(schedule_wf(kernel)) by {
        assert forall|c: int| 0 <= c < NCPU implies #[trigger] processor_wf(kernel, c) by {
            assert(processor_wf(kernel0, c));
            if c != cpu {
                lemma_processor_kept(kernel, kernel0, c);
            } else {
                let queue = kernel0.processors@[c].pending_requeue@;
                assert forall|i: int| 0 <= i < queue.len() implies parked(
                    kernel,
                    c,
                    #[trigger] queue[i],
                ) by {
                    assert(parked(kernel0, c, queue[i]));
                }
            }
        }
    }
    assert(names_wf(kernel)) by {
        assert forall|q: usize| #[trigger]
            ps.dom().contains(q) && !kernel.pid2process@.dom().contains(q) implies ps[q].inner.children@.len()
            == 0 by {
            assert(ps0.dom().contains(q));
        }
        assert forall|u: usize| #[trigger]
            kernel.tasks@.dom().contains(u) && !kernel.pid2process@.dom().contains(
                kernel.tasks@[u].process,
            ) implies kernel.tasks@[u].inner.res is None by {
            assert(kernel0.tasks@.dom().contains(u));
        }
    }
}

proof fn lemma_stopped<M: PhysMemory>(
    kernel: &Kernel<M>,
    kernel0: &Kernel<M>,
    cpu: int,
    exit_code: i32,
)
    requires
        kernel0.wf(),
        0 <= cpu < NCPU,
        kernel0.processors@[cpu].current is Some,
        thread_stopped(kernel, kernel0, cpu, exit_code),
    ensures
        kernel.wf(),
{
    let t = kernel0.processors@[cpu].current->Some_0;
    assert(processor_wf(kernel0, cpu) && schedule_wf(kernel0)) by {
        reveal(references_wf);
    }
    lemma_current_taken(kernel, kernel0, cpu, t);
    lemma_only_processors(kernel, kernel0, t);
    lemma_rescheduled(kernel, kernel0, t);
}

/// End the thread that runs on processor `cpu`. Returns its number in its
/// process and the process.
fn end_thread<M: PhysMemory>(kernel: &mut Kernel<M>, cpu: usize, exit_code: i32) -> (r: (
    usize,
    usize,
))
    requires
        old(kernel).wf(),
        cpu < NCPU,
        old(kernel).processors@[cpu as int].current matches Some(t) && old(
            kernel,
        ).tasks@[t].inner.res is Some,
    ensures
        final(kernel).wf(),
        ({
            let t = old(kernel).processors@[cpu as int].current->Some_0;
            &&& r.0 == old(kernel).tasks@[t].inner.res->Some_0.tid
            &&& r.1 == old(kernel).tasks@[t].process
            &&& thread_ended(final(kernel), old(kernel), cpu as int, exit_code)
        }),
{
    let ghost k0 = *kernel;
    proof {
        reveal(references_wf);
        assert(processor_wf(&k0, cpu as int));
    }
    let t: usize = take_current_task(kernel, cpu).unwrap();
    let mut task = kernel.tasks.remove(&t).unwrap();
    let pid: usize = task.process;
    let tid: usize = task.inner.res.unwrap().tid;
    task.inner.exit_code = Some(exit_code);
    kernel.tasks.insert(t, task);
    let ghost k1 = *kernel;
    proof {
        assert(kernel.tasks@ =~= k0.tasks@.insert(t, task));
        assert(thread_stopped(&k1, &k0, cpu as int, exit_code));
        lemma_stopped(&k1, &k0, cpu as int, exit_code);
    }
    retire(kernel, t);
    (tid, pid)
}

/// Make process `pid`, all of whose threads have exited, a zombie.
fn make_zombie<M: PhysMemory>(kernel: &mut Kernel<M>, pid: usize, cpu: usize, exit_code: i32)
    requires
        old(kernel).wf(),
        old(kernel).processes@.dom().contains(pid),
        old(kernel).pid2process@.dom().contains(pid),
        old(kernel).initproc != Some(pid),
        old(kernel).processes@[pid].inner.children@.len() == 0,
        forall|t: usize| #[trigger]
            old(kernel).tasks@.dom().contains(t) && old(kernel).tasks@[t].process == pid ==> old(
                kernel,
            ).tasks@[t].inner.res is None,
        cpu < NCPU,
        old(kernel).processors@[cpu as int].current is None,
    ensures
        final(kernel).wf(),
        zombie_made(final(kernel), old(kernel), pid, cpu as int, exit_code),
{
    let ghost k0 = *kernel;
    proof {
        reveal(references_wf);
    }
    remove_from_pid2process(kernel, pid);
    let mut process = kernel.processes.remove(&pid).unwrap();
    process.inner.is_zombie = true;
    process.inner.exit_code = exit_code;
    let ghost p1 = process;
    kernel.processes.insert(pid, process);
    kernel.processors[cpu].exiting_process = Some(pid);
    proof {
        assert(kernel.processes@ =~= k0.processes@.insert(pid, p1));
        lemma_zombie_made(kernel, &k0, pid, cpu as int, exit_code);
    }
}

/// End process `pid`, whose main thread has exited on processor `cpu`.
fn end_process<M: PhysMemory>(kernel: &mut Kernel<M>, pid: usize, cpu: usize, exit_code: i32)
    requires
        old(kernel).wf(),
        old(kernel).processes@.dom().contains(pid),
        old(kernel).pid2process@.dom().contains(pid),
        pid != IDLE_PID,
        old(kernel).initproc is Some,
        cpu < NCPU,
        old(kernel).processors@[cpu as int].current is None,
        old(kernel).processes@[pid].inner.tasks@.len() >= 1,
    ensures
        final(kernel).wf(),
        process_ended(final(kernel), old(kernel), pid, cpu as int, exit_code),
{
    let ghost k0 = *kernel;
    let init: usize = kernel.initproc.unwrap();
    proof {
        reveal(references_wf);
        assert(init == IDLE_PID);
    }
    adopt_children(kernel, pid, init);
    let ghost k1 = *kernel;
    assert(adopted_process(
        k1.processes@[pid],
        k0.processes@[pid],
        pid,
        init,
        k0.processes@[pid].inner.children@,
    ));
    retire_threads(kernel, pid);
    let ghost k2 = *kernel;
    empty_process(kernel, pid);
    let ghost k3 = *kernel;
    proof {
        let all = k1.processes@[pid].inner.tasks@;
        assert forall|i: int| 0 <= i < all.len() && (#[trigger] all[i]) is Some implies waits_nowhere(
            &k3,
            all[i]->Some_0,
        ) by {
            assert(waits_nowhere(&k2, all[i]->Some_0));
        }
        assert forall|t: usize| #[trigger]
            k3.tasks@.dom().contains(t) && k3.tasks@[t].process == pid implies k3.tasks@[t].inner.res is None by {
            assert(k1.tasks@.dom().contains(t));
            let list = k1.processes@[pid].inner.tasks@;
            assert(list.take(list.len() as int) =~= list);
            if k1.tasks@[t].inner.res is Some {
                let tid = k1.tasks@[t].inner.res->Some_0.tid;
                assert(list[tid as int] == Some(t));
                assert(list.contains(Some(t)));
            }
        }
    }
    cut_threads(kernel, pid);
    let ghost k4 = *kernel;
    proof {
        assert forall|t: usize| #[trigger]
            k4.tasks@.dom().contains(t) && k4.tasks@[t].process == pid implies k4.tasks@[t].inner.res is None by {
            assert(k3.tasks@.dom().contains(t));
        }
        assert(k2.processors@[cpu as int].current is None);
    }
    make_zombie(kernel, pid, cpu, exit_code);
}

/// `kernel` came from `kernel0` by ending the main thread of a process, which runs
/// on processor `cpu`; but for the first process, the process ends with it.
pub open spec fn main_exited<M: PhysMemory>(
    kernel: &Kernel<M>,
    kernel0: &Kernel<M>,
    cpu: int,
    exit_code: i32,
) -> bool {
    let pid = kernel0.tasks@[kernel0.processors@[cpu].current->Some_0].process;
    if pid != IDLE_PID {
        exists|k1: Kernel<M>| #[trigger]
            thread_ended(&k1, kernel0, cpu, exit_code) && process_ended(
                kernel,
                &k1,
                pid,
                cpu,
                exit_code,
            )
    } else {
        thread_ended(kernel, kernel0, cpu, exit_code)
    }
}

/// `kernel` came from `kernel0` by ending the thread that runs on processor
/// `cpu`; if it is the main thread of its process, the process ends with it. With the
/// first process the machine is to be shut down.
pub open spec fn exited<M: PhysMemory>(
    kernel: &Kernel<M>,
    kernel0: &Kernel<M>,
    cpu: int,
    exit_code: i32,
    outcome: ExitOutcome,
) -> bool {
    let t = kernel0.processors@[cpu].current->Some_0;
    let pid = kernel0.tasks@[t].process;
    let main = kernel0.tasks@[t].inner.res->Some_0.tid == 0;
    &&& outcome == (if main && pid == IDLE_PID {
        ExitOutcome::Shutdown { failure: exit_code != 0 }
    } else {
        ExitOutcome::Switch
    })
    &&& if main {
        main_exited(kernel, kernel0, cpu, exit_code)
    } else {
        thread_ended(kernel, kernel0, cpu, exit_code)
    }
}

/// Whether the thread that runs on processor `cpu` can exit.
pub fn exit_possible<M: PhysMemory>(kernel: &Kernel<M>, cpu: usize) -> (r: bool)
    requires
        kernel.wf(),
        cpu < NCPU,
    ensures
        r == can_exit(kernel, cpu as int),
{
    proof {
        reveal(references_wf);
        assert(processor_wf(kernel, cpu as int));
    }
    match current_task(kernel, cpu) {
        Some(t) => {
            let task = kernel.tasks.get(&t).unwrap();
            match task.inner.res {
                Some(res) => res.tid != 0 || task.process == IDLE_PID || kernel.initproc.is_some(),
                None => false,
            }
        },
        None => false,
    }
}

/// End the thread that runs on processor `cpu`. If it is the main thread, its
/// process ends with it.
pub fn exit_current_and_run_next<M: PhysMemory>(
    kernel: &mut Kernel<M>,
    cpu: usize,
    exit_code: i32,
) -> (r: ExitOutcome)
    requires
        old(kernel).wf(),
        cpu < NCPU,
        can_exit(old(kernel), cpu as int),
    ensures
        final(kernel).wf(),
        exited(final(kernel), old(kernel), cpu as int, exit_code, r),
{
    let ghost k0 = *kernel;
    proof {
        reveal(references_wf);
        assert(processor_wf(&k0, cpu as int));
    }
    let t: usize = current_task(kernel, cpu).unwrap();
    let main: bool = kernel.tasks.get(&t).unwrap().inner.res.unwrap().tid == 0;
    let (_, pid) = end_thread(kernel, cpu, exit_code);
    if main {
        if pid == IDLE_PID {
            assert(main_exited(kernel, &k0, cpu as int, exit_code));
            return ExitOutcome::Shutdown { failure: exit_code != 0 };
        }
        let ghost k1 = *kernel;
        proof {
            assert(k0.tasks@.dom().contains(t));
            assert(k1.tasks@.dom().contains(t));
            assert(k1.tasks@[t].process == pid);
            assert(k0.processes@.dom().contains(pid));
        }
        end_process(kernel, pid, cpu, exit_code);
        assert(thread_ended(&k1, &k0, cpu as int, exit_code));
        assert(main_exited(kernel, &k0, cpu as int, exit_code));
    }
    ExitOutcome::Switch
}

/// A process that has ended is a zombie with its exit code: it has no children,
/// no files, no memory, and one thread at most. It cannot be found by its pid,
/// and every frame that its memory lay in can be handed out again.
pub proof fn ended_process_is_a_zombie<M: PhysMemory>(
    kernel: &Kernel<M>,
    kernel0: &Kernel<M>,
    pid: usize,
    cpu: int,
    exit_code: i32,
)
    requires
        process_ended(kernel, kernel0, pid, cpu, exit_code),
        kernel0.processes@.dom().contains(pid),
        pid != IDLE_PID,
    ensures
        ({
            let inner = kernel.processes@[pid].inner;
            let inner0 = kernel0.processes@[pid].inner;
            &&& inner.is_zombie
            &&& inner.exit_code == exit_code
            &&& inner.children@.len() == 0
            &&& inner.fd_table@.len() == 0
            &&& inner.memory_set.areas().len() == 0
            &&& inner.tasks@ == inner0.tasks@.take(1)
            &&& !kernel.pid2process@.dom().contains(pid)
            &&& forall|f: u64| #[trigger]
                areas_data(inner0.memory_set.areas()).contains(f) ==> kernel.pool.free().contains(f)
        }),
{
    let inner0 = kernel0.processes@[pid].inner;
    let (k1, k2, k3, k4) = choose|
        k1: Kernel<M>,
        k2: Kernel<M>,
        k3: Kernel<M>,
        k4: Kernel<M>,
    |
        #![trigger adopted(&k1, kernel0, IDLE_PID, inner0.children@),
            threads_retired(&k2, &k1, pid, inner0.tasks@.len() as int),
            process_emptied(&k3, &k2, pid), process_cut(&k4, &k3, pid, 1)]
        {
            &&& adopted(&k1, kernel0, IDLE_PID, inner0.children@)
            &&& threads_retired(&k2, &k1, pid, inner0.tasks@.len() as int)
            &&& listed_wait_nowhere(&k2, inner0.tasks@, inner0.tasks@.len() as int)
            &&& process_emptied(&k3, &k2, pid)
            &&& process_cut(&k4, &k3, pid, 1)
            &&& zombie_made(kernel, &k4, pid, cpu, exit_code)
        };
    assert(adopted_process(
        k1.processes@[pid],
        kernel0.processes@[pid],
        pid,
        IDLE_PID,
        inner0.children@,
    ));
    let ms0 = inner0.memory_set;
    let ms3 = k3.processes@[pid].inner.memory_set;
    lemma_given_back_trans(
        &ms3,
        &k3.pool,
        &k2.processes@[pid].inner.memory_set,
        &k2.pool,
        &ms0,
        &kernel0.pool,
    );
    assert(areas_data(ms3.areas()) =~= Set::empty());
    assert forall|f: u64| #[trigger] areas_data(ms0.areas()).contains(f) implies kernel.pool.free().contains(
        f,
    ) by {
        assert(kernel0.pool.free().union(areas_data(ms0.areas())).contains(f));
        assert(k3.pool.free().union(areas_data(ms3.areas())).contains(f));
    }
}

/// None of the threads of a process that has ended waits to run or to be woken by a
/// timer.
pub proof fn ended_threads_wait_nowhere<M: PhysMemory>(
    kernel: &Kernel<M>,
    kernel0: &Kernel<M>,
    pid: usize,
    cpu: int,
    exit_code: i32,
)
    requires
        process_ended(kernel, kernel0, pid, cpu, exit_code),
        kernel0.processors@.len() == NCPU,
        0 <= cpu < NCPU,
    ensures
        listed_wait_nowhere(
            kernel,
            kernel0.processes@[pid].inner.tasks@,
            kernel0.processes@[pid].inner.tasks@.len() as int,
        ),
{
    let inner0 = kernel0.processes@[pid].inner;
    let (k1, k2, k3, k4) = choose|
        k1: Kernel<M>,
        k2: Kernel<M>,
        k3: Kernel<M>,
        k4: Kernel<M>,
    |
        #![trigger adopted(&k1, kernel0, IDLE_PID, inner0.children@),
            threads_retired(&k2, &k1, pid, inner0.tasks@.len() as int),
            process_emptied(&k3, &k2, pid), process_cut(&k4, &k3, pid, 1)]
        {
            &&& adopted(&k1, kernel0, IDLE_PID, inner0.children@)
            &&& threads_retired(&k2, &k1, pid, inner0.tasks@.len() as int)
            &&& listed_wait_nowhere(&k2, inner0.tasks@, inner0.tasks@.len() as int)
            &&& process_emptied(&k3, &k2, pid)
            &&& process_cut(&k4, &k3, pid, 1)
            &&& zombie_made(kernel, &k4, pid, cpu, exit_code)
        };
    let list = inner0.tasks@;
    assert forall|i: int| 0 <= i < list.len() && (#[trigger] list[i]) is Some implies waits_nowhere(
        kernel,
        list[i]->Some_0,
    ) by {
        assert(waits_nowhere(&k2, list[i]->Some_0));
        assert(waits_nowhere(&k4, list[i]->Some_0));
        assert forall|c: int| 0 <= c < NCPU implies !(
        #[trigger] kernel.processors@[c]).pending_requeue@.contains(list[i]->Some_0) by {
            assert(k4.processors@[c].pending_requeue@ == kernel.processors@[c].pending_requeue@);
        }
    }
}

/// The children of a process that has ended are children of the first process.
pub proof fn orphans_are_adopted<M: PhysMemory>(
    kernel: &Kernel<M>,
    kernel0: &Kernel<M>,
    pid: usize,
    cpu: int,
    exit_code: i32,
    child: usize,
)
    requires
        process_ended(kernel, kernel0, pid, cpu, exit_code),
        kernel0.wf(),
        kernel0.processes@.dom().contains(pid),
        kernel0.processes@.dom().contains(IDLE_PID),
        pid != IDLE_PID,
        kernel0.processes@[pid].inner.children@.contains(child),
    ensures
        kernel.processes@.dom().contains(child),
        kernel.processes@[child].inner.parent == Some(IDLE_PID),
        kernel.processes@[IDLE_PID].inner.children@.contains(child),
{
    let inner0 = kernel0.processes@[pid].inner;
    let (k1, k2, k3, k4) = choose|
        k1: Kernel<M>,
        k2: Kernel<M>,
        k3: Kernel<M>,
        k4: Kernel<M>,
    |
        #![trigger adopted(&k1, kernel0, IDLE_PID, inner0.children@),
            threads_retired(&k2, &k1, pid, inner0.tasks@.len() as int),
            process_emptied(&k3, &k2, pid), process_cut(&k4, &k3, pid, 1)]
        {
            &&& adopted(&k1, kernel0, IDLE_PID, inner0.children@)
            &&& threads_retired(&k2, &k1, pid, inner0.tasks@.len() as int)
            &&& listed_wait_nowhere(&k2, inner0.tasks@, inner0.tasks@.len() as int)
            &&& process_emptied(&k3, &k2, pid)
            &&& process_cut(&k4, &k3, pid, 1)
            &&& zombie_made(kernel, &k4, pid, cpu, exit_code)
        };
    let i = choose|i: int| 0 <= i < inner0.children@.len() && inner0.children@[i] == child;
    assert(kernel0.processes@.dom().contains(child)) by {
        reveal(references_wf);
        assert(kernel0.processes@.dom().contains(kernel0.processes@[pid].inner.children@[i]));
    }
    assert(adopted_process(
        k1.processes@[child],
        kernel0.processes@[child],
        child,
        IDLE_PID,
        inner0.children@,
    ));
    let init0 = kernel0.processes@[IDLE_PID].inner.children@;
    let init1 = k1.processes@[IDLE_PID].inner.children@;
    assert(adopted_process(
        k1.processes@[IDLE_PID],
        kernel0.processes@[IDLE_PID],
        IDLE_PID,
        IDLE_PID,
        inner0.children@,
    ));
    assert(init1[init0.len() + i] == child);
}

} // verus!
