//! Scheduling.
//!
//! Every core has an idle loop that picks a ready thread and switches to it; the
//! thread switches back when it gives up the core. The ready queue is shared by
//! all cores. Every switch to a thread makes the address space of its process
//! active and its kernel stack the one that traps use.
use vstd::prelude::*;
use super::id::KernelStack;
use super::kernel::{
    lemma_memory_kept, lemma_processor_kept, lemma_refs_kept, lemma_schedule_kept, memory_wf,
    parked, processor_wf, references_wf, known, schedule_wf, Kernel,
};
use super::manager::{queue_contains, retain_others, without_all, without_first};
use super::processor::Processor;
use super::task::{TaskControlBlock, TaskControlBlockInner, TaskStatus};
use crate::config::NCPU;
use crate::mm::page_table::lemma_root_is_table;
use crate::mm::phys::PhysMemory;
use crate::timer::{
    expired_tasks, expired_tasks_have_events, pending_events, pending_events_are_later,
};
use crate::trap::context::TrapContext;

verus! {

/// The thread that runs on processor `cpu`.
pub fn current_task<M: PhysMemory>(kernel: &Kernel<M>, cpu: usize) -> (r: Option<usize>)
    requires
        cpu < kernel.processors@.len(),
    ensures
        r == kernel.processors@[cpu as int].current,
{
    kernel.processors[cpu].current()
}

/// Take the thread that runs on processor `cpu`.
pub fn take_current_task<M: PhysMemory>(kernel: &mut Kernel<M>, cpu: usize) -> (r: Option<usize>)
    requires
        cpu < old(kernel).processors@.len(),
    ensures
        r == old(kernel).processors@[cpu as int].current,
        final(kernel).processors@ == old(kernel).processors@.update(
            cpu as int,
            (Processor { current: None, ..old(kernel).processors@[cpu as int] }),
        ),
        *final(kernel) == (Kernel { processors: final(kernel).processors, ..*old(kernel) }),
{
    kernel.processors[cpu].take_current()
}

/// A thread with another scheduling state.
pub open spec fn with_status(task: TaskControlBlock, status: TaskStatus) -> TaskControlBlock {
    TaskControlBlock {
        inner: TaskControlBlockInner { task_status: status, ..task.inner },
        ..task
    }
}

/// Put a thread that waits for processor `cpu` to save its context at the end of
/// the queue there. Only the idle loop of that processor takes it out, once the
/// context is saved.
pub fn park_pending<M: PhysMemory>(kernel: &mut Kernel<M>, cpu: usize, task: usize)
    requires
        cpu < old(kernel).processors@.len(),
    ensures
        ({
            let p0 = old(kernel).processors@[cpu as int];
            let p1 = final(kernel).processors@[cpu as int];
            &&& final(kernel).processors@ == old(kernel).processors@.update(cpu as int, p1)
            &&& p1.pending_requeue@ == p0.pending_requeue@.push(task)
            &&& p1 == (Processor { pending_requeue: p1.pending_requeue, ..p0 })
        }),
        *final(kernel) == (Kernel { processors: final(kernel).processors, ..*old(kernel) }),
{
    kernel.processors[cpu].pending_requeue.push_back(task);
}

/// The queue `queue` of a processor after thread `t` became ready: a thread that waits
/// there or in the ready queue already is not put in once more.
pub open spec fn queue_with(ready: Seq<usize>, queue: Seq<usize>, t: usize) -> Seq<usize> {
    if ready.contains(t) || queue.contains(t) {
        queue
    } else {
        queue.push(t)
    }
}

/// Let thread `t`, which became ready, wait on processor `cpu`, unless it waits to run
/// already: no two processors may resume it.
fn park_once<M: PhysMemory>(kernel: &mut Kernel<M>, cpu: usize, t: usize)
    requires
        cpu < old(kernel).processors@.len(),
    ensures
        ({
            let p0 = old(kernel).processors@[cpu as int];
            let p1 = final(kernel).processors@[cpu as int];
            &&& final(kernel).processors@ == old(kernel).processors@.update(cpu as int, p1)
            &&& p1.pending_requeue@ == queue_with(
                old(kernel).task_manager@,
                p0.pending_requeue@,
                t,
            )
            &&& p1 == (Processor { pending_requeue: p1.pending_requeue, ..p0 })
        }),
        *final(kernel) == (Kernel { processors: final(kernel).processors, ..*old(kernel) }),
{
    if kernel.task_manager.holds(t) || queue_contains(&kernel.processors[cpu].pending_requeue, t) {
        assert(kernel.processors@ =~= kernel.processors@.update(
            cpu as int,
            kernel.processors@[cpu as int],
        ));
    } else {
        park_pending(kernel, cpu, t);
    }
}

/// The processors without thread `task` in their queues.
pub open spec fn nowhere_pending(
    processors: Seq<Processor>,
    processors0: Seq<Processor>,
    task: usize,
    n: int,
) -> bool {
    &&& processors.len() == processors0.len()
    &&& forall|c: int|
        0 <= c < processors.len() ==> {
            let p0 = processors0[c];
            let p1 = #[trigger] processors[c];
            &&& p1.pending_requeue@ == if c < n {
                without_all(p0.pending_requeue@, p0.pending_requeue@.len() as int, task)
            } else {
                p0.pending_requeue@
            }
            &&& p1 == (Processor { pending_requeue: p1.pending_requeue, ..p0 })
        }
}

/// Take a thread out of the queues of all processors.
pub fn remove_from_all_pending<M: PhysMemory>(kernel: &mut Kernel<M>, task: usize)
    ensures
        nowhere_pending(
            final(kernel).processors@,
            old(kernel).processors@,
            task,
            final(kernel).processors@.len() as int,
        ),
        *final(kernel) == (Kernel { processors: final(kernel).processors, ..*old(kernel) }),
{
    let mut cpu: usize = 0;
    while cpu < kernel.processors.len()
        invariant
            cpu <= kernel.processors@.len(),
            nowhere_pending(kernel.processors@, old(kernel).processors@, task, cpu as int),
            *kernel == (Kernel { processors: kernel.processors, ..*old(kernel) }),
        decreases kernel.processors@.len() - cpu,
    {
        let queue = retain_others(&kernel.processors[cpu].pending_requeue, task);
        kernel.processors[cpu].pending_requeue = queue;
        cpu = cpu + 1;
    }
}

/// Let the scheduler know a thread that is ready to run.
pub fn add_task<M: PhysMemory>(kernel: &mut Kernel<M>, task: usize)
    ensures
        final(kernel).task_manager@ == old(kernel).task_manager@.push(task),
        *final(kernel) == (Kernel { task_manager: final(kernel).task_manager, ..*old(kernel) }),
{
    kernel.task_manager.add(task);
}

/// Take a thread out of the ready queue.
pub fn remove_task<M: PhysMemory>(kernel: &mut Kernel<M>, task: usize)
    ensures
        final(kernel).task_manager@ == without_first(old(kernel).task_manager@, task),
        *final(kernel) == (Kernel { task_manager: final(kernel).task_manager, ..*old(kernel) }),
{
    kernel.task_manager.remove(task);
}

/// Take the first ready thread.
pub fn fetch_task<M: PhysMemory>(kernel: &mut Kernel<M>) -> (r: Option<usize>)
    ensures
        match r {
            Some(task) => old(kernel).task_manager@.len() > 0 && task
                == old(kernel).task_manager@[0] && final(kernel).task_manager@
                == old(kernel).task_manager@.drop_first(),
            None => old(kernel).task_manager@.len() == 0 && final(kernel).task_manager@
                == old(kernel).task_manager@,
        },
        *final(kernel) == (Kernel { task_manager: final(kernel).task_manager, ..*old(kernel) }),
{
    kernel.task_manager.fetch()
}

/// Find a process by its pid.
pub fn pid2process<M: PhysMemory>(kernel: &Kernel<M>, pid: usize) -> (r: Option<usize>)
    ensures
        r == (if kernel.pid2process@.dom().contains(pid) {
            Some(kernel.pid2process@[pid])
        } else {
            None
        }),
{
    match kernel.pid2process.get(&pid) {
        Some(process) => Some(*process),
        None => None,
    }
}

/// Let a process be found by its pid.
pub fn insert_into_pid2process<M: PhysMemory>(
    kernel: &mut Kernel<M>,
    pid: usize,
    process: usize,
)
    ensures
        final(kernel).pid2process@ == old(kernel).pid2process@.insert(pid, process),
        *final(kernel) == (Kernel { pid2process: final(kernel).pid2process, ..*old(kernel) }),
{
    kernel.pid2process.insert(pid, process);
}

/// Let a process no longer be found by its pid.
pub fn remove_from_pid2process<M: PhysMemory>(kernel: &mut Kernel<M>, pid: usize)
    requires
        old(kernel).pid2process@.dom().contains(pid),
    ensures
        final(kernel).pid2process@ == old(kernel).pid2process@.remove(pid),
        *final(kernel) == (Kernel { pid2process: final(kernel).pid2process, ..*old(kernel) }),
{
    kernel.pid2process.remove(&pid);
}

/// Set the scheduling state of a thread.
fn set_status<M: PhysMemory>(kernel: &mut Kernel<M>, t: usize, status: TaskStatus)
    requires
        old(kernel).tasks@.dom().contains(t),
    ensures
        final(kernel).tasks@ == old(kernel).tasks@.insert(
            t,
            with_status(old(kernel).tasks@[t], status),
        ),
        *final(kernel) == (Kernel { tasks: final(kernel).tasks, ..*old(kernel) }),
{
    let ghost k0 = *kernel;
    let mut task = kernel.tasks.remove(&t).unwrap();
    task.inner.task_status = status;
    kernel.tasks.insert(t, task);
    assert(kernel.tasks@ =~= k0.tasks@.insert(t, with_status(k0.tasks@[t], status)));
}

/// The scheduler stays sound if the threads stay where they are and the
/// processors and queues do.
pub proof fn lemma_rescheduled<M: PhysMemory>(kernel: &Kernel<M>, kernel0: &Kernel<M>, t: usize)
    requires
        kernel0.wf(),
        kernel0.tasks@.dom().contains(t),
        kernel.tasks@ == kernel0.tasks@.insert(t, kernel.tasks@[t]),
        kernel.tasks@[t].last_cpu < NCPU,
        kernel.tasks@[t].process == kernel0.tasks@[t].process,
        kernel.tasks@[t].kstack == kernel0.tasks@[t].kstack,
        kernel.tasks@[t].inner.res == kernel0.tasks@[t].inner.res,
        *kernel == (Kernel {
            tasks: kernel.tasks,
            task_manager: kernel.task_manager,
            processors: kernel.processors,
            timers: kernel.timers,
            ..*kernel0
        }),
        schedule_wf(kernel),
    ensures
        kernel.wf(),
{
    assert(kernel.tasks@.dom() =~= kernel0.tasks@.dom());
    lemma_memory_kept(kernel, kernel0);
    reveal(references_wf);
    lemma_refs_kept(kernel, kernel0);
}

/// Wake up a blocked thread: it becomes ready, and waits in the queue of the
/// processor that it ran on last until its context is saved there. A thread that
/// waits to run already goes on waiting where it is.
pub fn wakeup_task<M: PhysMemory>(kernel: &mut Kernel<M>, t: usize)
    requires
        old(kernel).wf(),
        known(old(kernel).tasks@, t),
    ensures
        final(kernel).wf(),
        woken(final(kernel), old(kernel), t),
{
    let ghost k0 = *kernel;
    proof {
        reveal(references_wf);
    }
    set_status(kernel, t, TaskStatus::Ready);
    let owner: usize = kernel.tasks.get(&t).unwrap().last_cpu;
    park_once(kernel, owner, t);
    proof {
        assert forall|c: int| 0 <= c < NCPU implies #[trigger] processor_wf(kernel, c) by {
            assert(processor_wf(&k0, c));
            if c != owner {
                lemma_processor_kept(kernel, &k0, c);
            } else {
                let queue0 = k0.processors@[c].pending_requeue@;
                let queue = kernel.processors@[c].pending_requeue@;
                assert forall|i: int| 0 <= i < queue.len() implies parked(
                    kernel,
                    c,
                    #[trigger] queue[i],
                ) by {
                    if i < queue0.len() {
                        assert(parked(&k0, c, queue0[i]));
                    }
                }
                if k0.processors@[c].current is Some {
                    assert(parked(&k0, c, k0.processors@[c].current->Some_0));
                }
            }
        }
        lemma_only_processors(kernel, &k0, t);
        lemma_rescheduled(kernel, &k0, t);
    }
}

/// The ready queue and the timers stay sound if they are not touched.
pub proof fn lemma_only_processors<M: PhysMemory>(kernel: &Kernel<M>, kernel0: &Kernel<M>, t: usize)
    requires
        schedule_wf(kernel0),
        kernel.tasks@ == kernel0.tasks@.insert(t, kernel.tasks@[t]),
        kernel0.tasks@.dom().contains(t),
        kernel.tasks@[t].inner.res == kernel0.tasks@[t].inner.res,
        kernel.task_manager@ == kernel0.task_manager@,
        kernel.timers == kernel0.timers,
        kernel.processors@.len() == NCPU,
        forall|c: int| 0 <= c < NCPU ==> #[trigger] processor_wf(kernel, c),
    ensures
        schedule_wf(kernel),
{
    assert forall|i: int| 0 <= i < kernel.task_manager@.len() implies known(
        kernel.tasks@,
        #[trigger] kernel.task_manager@[i],
    ) by {
        assert(known(kernel0.tasks@, kernel0.task_manager@[i]));
    }
    assert forall|i: int| 0 <= i < kernel.timers.events().len() implies known(
        kernel.tasks@,
        (#[trigger] kernel.timers.events()[i]).task,
    ) by {
        assert(known(kernel0.tasks@, kernel0.timers.events()[i].task));
    }
}

/// `kernel` came from `kernel0` by waking thread `t`.
pub open spec fn woken<M: PhysMemory>(kernel: &Kernel<M>, kernel0: &Kernel<M>, t: usize) -> bool {
    let c = kernel0.tasks@[t].last_cpu as int;
    let p0 = kernel0.processors@[c];
    let p1 = kernel.processors@[c];
    &&& kernel.tasks@ == kernel0.tasks@.insert(
        t,
        with_status(kernel0.tasks@[t], TaskStatus::Ready),
    )
    &&& kernel.processors@ == kernel0.processors@.update(c, p1)
    &&& p1.pending_requeue@ == queue_with(kernel0.task_manager@, p0.pending_requeue@, t)
    &&& p1 == (Processor { pending_requeue: p1.pending_requeue, ..p0 })
    &&& *kernel == (Kernel { tasks: kernel.tasks, processors: kernel.processors, ..*kernel0 })
}

/// `kernel` came from `kernel0` by suspending thread `t`, which ran on processor
/// `cpu`.
pub open spec fn suspended<M: PhysMemory>(
    kernel: &Kernel<M>,
    kernel0: &Kernel<M>,
    cpu: usize,
    t: usize,
) -> bool {
    let p0 = kernel0.processors@[cpu as int];
    let p1 = kernel.processors@[cpu as int];
    &&& kernel.tasks@ == kernel0.tasks@.insert(
        t,
        with_status(kernel0.tasks@[t], TaskStatus::Ready),
    )
    &&& kernel.processors@ == kernel0.processors@.update(cpu as int, p1)
    &&& p1.pending_requeue@ == queue_with(kernel0.task_manager@, p0.pending_requeue@, t)
    &&& p1 == (Processor { current: None, pending_requeue: p1.pending_requeue, ..p0 })
    &&& *kernel == (Kernel { tasks: kernel.tasks, processors: kernel.processors, ..*kernel0 })
}

/// Let the thread that runs on processor `cpu` give up the processor: it becomes
/// ready, and waits there until its context is saved, once even if it was woken up
/// while it ran. Returns the thread, whose context is the one to save before
/// switching to the idle loop.
pub fn suspend_current_and_run_next<M: PhysMemory>(kernel: &mut Kernel<M>, cpu: usize) -> (r: usize)
    requires
        old(kernel).wf(),
        cpu < NCPU,
        old(kernel).processors@[cpu as int].current is Some,
    ensures
        final(kernel).wf(),
        old(kernel).processors@[cpu as int].current == Some(r),
        suspended(final(kernel), old(kernel), cpu, r),
{
    let ghost k0 = *kernel;
    proof {
        reveal(references_wf);
        assert(processor_wf(&k0, cpu as int));
    }
    let t: usize = take_current_task(kernel, cpu).unwrap();
    set_status(kernel, t, TaskStatus::Ready);
    park_once(kernel, cpu, t);
    proof {
        assert(kernel.processors@ =~= k0.processors@.update(
            cpu as int,
            kernel.processors@[cpu as int],
        ));
        assert forall|c: int| 0 <= c < NCPU implies #[trigger] processor_wf(kernel, c) by {
            assert(processor_wf(&k0, c));
            if c != cpu {
                lemma_processor_kept(kernel, &k0, c);
            } else {
                let queue0 = k0.processors@[c].pending_requeue@;
                let queue = kernel.processors@[c].pending_requeue@;
                assert forall|i: int| 0 <= i < queue.len() implies parked(
                    kernel,
                    c,
                    #[trigger] queue[i],
                ) by {
                    if i < queue0.len() {
                        assert(parked(&k0, c, queue0[i]));
                    }
                }
            }
        }
        lemma_only_processors(kernel, &k0, t);
        lemma_rescheduled(kernel, &k0, t);
    }
    t
}

/// `kernel` came from `kernel0` by blocking thread `t`, which ran on processor `cpu`.
pub open spec fn blocked<M: PhysMemory>(
    kernel: &Kernel<M>,
    kernel0: &Kernel<M>,
    cpu: usize,
    t: usize,
) -> bool {
    &&& kernel.tasks@ == kernel0.tasks@.insert(
        t,
        with_status(kernel0.tasks@[t], TaskStatus::Blocked),
    )
    &&& kernel.processors@ == kernel0.processors@.update(
        cpu as int,
        (Processor { current: None, ..kernel0.processors@[cpu as int] }),
    )
    &&& *kernel == (Kernel { tasks: kernel.tasks, processors: kernel.processors, ..*kernel0 })
}

/// Let the thread that runs on processor `cpu` wait until it is woken up. Returns
/// the thread, whose context is the one to save before switching to the idle
/// loop.
pub fn block_current_and_run_next<M: PhysMemory>(kernel: &mut Kernel<M>, cpu: usize) -> (r: usize)
    requires
        old(kernel).wf(),
        cpu < NCPU,
        old(kernel).processors@[cpu as int].current is Some,
    ensures
        final(kernel).wf(),
        old(kernel).processors@[cpu as int].current == Some(r),
        blocked(final(kernel), old(kernel), cpu, r),
{
    let ghost k0 = *kernel;
    proof {
        reveal(references_wf);
        assert(processor_wf(&k0, cpu as int));
    }
    let t: usize = take_current_task(kernel, cpu).unwrap();
    set_status(kernel, t, TaskStatus::Blocked);
    proof {
        lemma_current_taken(kernel, &k0, cpu as int, t);
        lemma_only_processors(kernel, &k0, t);
        lemma_rescheduled(kernel, &k0, t);
    }
    t
}

/// The processors stay sound when one of them stops running a thread that goes
/// on to exist.
pub proof fn lemma_current_taken<M: PhysMemory>(
    kernel: &Kernel<M>,
    kernel0: &Kernel<M>,
    cpu: int,
    t: usize,
)
    requires
        schedule_wf(kernel0),
        0 <= cpu < NCPU,
        kernel0.tasks@.dom().contains(t),
        kernel.tasks@ == kernel0.tasks@.insert(t, kernel.tasks@[t]),
        kernel.tasks@[t].inner.res == kernel0.tasks@[t].inner.res,
        kernel.tasks@[t].last_cpu == kernel0.tasks@[t].last_cpu,
        kernel.task_manager@ == kernel0.task_manager@,
        kernel.processes@ == kernel0.processes@,
        kernel.processors@ == kernel0.processors@.update(
            cpu,
            (Processor { current: None, ..kernel0.processors@[cpu] }),
        ),
    ensures
        forall|c: int| 0 <= c < NCPU ==> #[trigger] processor_wf(kernel, c),
{
    assert forall|c: int| 0 <= c < NCPU implies #[trigger] processor_wf(kernel, c) by {
        assert(processor_wf(kernel0, c));
        if c != cpu {
            lemma_processor_kept(kernel, kernel0, c);
        } else {
            let queue = kernel0.processors@[c].pending_requeue@;
            assert forall|i: int| 0 <= i < queue.len() implies parked(
                kernel,
                c,
                #[trigger] queue[i],
            ) by {
                assert(parked(kernel0, c, queue[i]));
            }
        }
    }
}

/// The process of the thread that runs on processor `cpu`.
pub fn current_process<M: PhysMemory>(kernel: &Kernel<M>, cpu: usize) -> (r: usize)
    requires
        kernel.wf(),
        cpu < NCPU,
        kernel.processors@[cpu as int].current is Some,
    ensures
        r == kernel.tasks@[kernel.processors@[cpu as int].current->Some_0].process,
        kernel.processes@.dom().contains(r),
{
    proof {
        reveal(references_wf);
        assert(processor_wf(kernel, cpu as int));
    }
    let t: usize = current_task(kernel, cpu).unwrap();
    kernel.tasks.get(&t).unwrap().process
}

/// The token of the address space of process `pid`.
pub open spec fn user_token<M: PhysMemory>(kernel: &Kernel<M>, pid: usize) -> int {
    kernel.processes@[pid].inner.memory_set.root() * 0x1000
}

impl TaskControlBlock {
    /// The token of the address space of the thread's process.
    pub fn get_user_token<M: PhysMemory>(&self, kernel: &Kernel<M>) -> (r: u64)
        requires
            kernel.wf(),
            kernel.processes@.dom().contains(self.process),
        ensures
            r == user_token(kernel, self.process),
    {
        let pid: usize = self.process;
        proof {
            reveal(memory_wf);
            assert(kernel.spaces().dom().contains(pid));
            lemma_root_is_table(&kernel.processes@[pid].inner.memory_set.table(), &kernel.pool);
            kernel.pool.mem.frames_wf();
        }
        kernel.processes.get(&pid).unwrap().inner.get_user_token()
    }
}

/// The token of the address space of the thread that runs on processor `cpu`.
pub fn current_user_token<M: PhysMemory>(kernel: &Kernel<M>, cpu: usize) -> (r: u64)
    requires
        kernel.wf(),
        cpu < NCPU,
        kernel.processors@[cpu as int].current is Some,
    ensures
        r == user_token(
            kernel,
            kernel.tasks@[kernel.processors@[cpu as int].current->Some_0].process,
        ),
{
    proof {
        reveal(references_wf);
        assert(processor_wf(kernel, cpu as int));
    }
    let t: usize = current_task(kernel, cpu).unwrap();
    kernel.tasks.get(&t).unwrap().get_user_token(kernel)
}

/// The trap context of the thread that runs on processor `cpu`.
pub fn current_trap_cx<M: PhysMemory>(kernel: &Kernel<M>, cpu: usize) -> (r: TrapContext)
    requires
        kernel.wf(),
        cpu < NCPU,
        kernel.processors@[cpu as int].current is Some,
    ensures
        r == kernel.tasks@[kernel.processors@[cpu as int].current->Some_0].inner.trap_cx,
{
    proof {
        reveal(references_wf);
        assert(processor_wf(kernel, cpu as int));
    }
    let t: usize = current_task(kernel, cpu).unwrap();
    kernel.tasks.get(&t).unwrap().inner.get_trap_cx()
}

/// Put the threads that wait on processor `cpu` into the ready queue. Their
/// contexts are saved, since the processor is back in its idle loop.
fn drain_pending<M: PhysMemory>(kernel: &mut Kernel<M>, cpu: usize)
    requires
        old(kernel).wf(),
        cpu < NCPU,
        old(kernel).processors@[cpu as int].current is None,
    ensures
        final(kernel).wf(),
        drained(final(kernel), old(kernel), cpu as int),
{
    let ghost k0 = *kernel;
    let ghost all = k0.processors@[cpu as int].pending_requeue@;
    proof {
        reveal(references_wf);
    }
    let mut next: Option<usize> = kernel.processors[cpu].pending_requeue.pop_front();
    let ghost mut n: int = 0;
    proof {
        assert(k0.task_manager@ + all.take(0) =~= k0.task_manager@);
        if next is Some {
            assert(kernel.processors@[cpu as int].pending_requeue@ =~= all.skip(1));
        } else {
            assert(kernel.processors@[cpu as int].pending_requeue@ =~= all.skip(0));
        }
        assert(kernel.processors@ =~= k0.processors@.update(
            cpu as int,
            kernel.processors@[cpu as int],
        ));
    }
    while next.is_some()
        invariant
            cpu < NCPU,
            k0.processors@.len() == NCPU,
            all == k0.processors@[cpu as int].pending_requeue@,
            0 <= n <= all.len(),
            next matches Some(t) ==> n < all.len() && t == all[n]
                && kernel.processors@[cpu as int].pending_requeue@ == all.skip(n + 1),
            next is None ==> n == all.len() && kernel.processors@[cpu as int].pending_requeue@.len()
                == 0,
            kernel.task_manager@ == k0.task_manager@ + all.take(n),
            kernel.processors@ == k0.processors@.update(
                cpu as int,
                kernel.processors@[cpu as int],
            ),
            kernel.processors@[cpu as int] == (Processor {
                pending_requeue: kernel.processors@[cpu as int].pending_requeue,
                ..k0.processors@[cpu as int]
            }),
            *kernel == (Kernel {
                task_manager: kernel.task_manager,
                processors: kernel.processors,
                ..k0
            }),
        decreases all.len() - n,
    {
        let t: usize = next.unwrap();
        add_task(kernel, t);
        proof {
            assert(kernel.task_manager@ =~= k0.task_manager@ + all.take(n + 1));
            n = n + 1;
        }
        next = kernel.processors[cpu].pending_requeue.pop_front();
        proof {
            if next is Some {
                assert(kernel.processors@[cpu as int].pending_requeue@ =~= all.skip(n + 1));
            }
            assert(kernel.processors@ =~= k0.processors@.update(
                cpu as int,
                kernel.processors@[cpu as int],
            ));
        }
    }
    proof {
        assert(all.take(all.len() as int) =~= all);
        assert(kernel.processors@[cpu as int].pending_requeue@ =~= Seq::empty());
        lemma_drained(kernel, &k0, cpu as int);
    }
}

/// `kernel` came from `kernel0` by putting the threads that waited on processor
/// `cpu` into the ready queue.
pub open spec fn drained<M: PhysMemory>(
    kernel: &Kernel<M>,
    kernel0: &Kernel<M>,
    cpu: int,
) -> bool {
    let p0 = kernel0.processors@[cpu];
    let p1 = kernel.processors@[cpu];
    &&& kernel.task_manager@ == kernel0.task_manager@ + p0.pending_requeue@
    &&& kernel.processors@ == kernel0.processors@.update(cpu, p1)
    &&& p1.pending_requeue@ == Seq::<usize>::empty()
    &&& p1 == (Processor { pending_requeue: p1.pending_requeue, ..p0 })
    &&& *kernel == (Kernel {
        task_manager: kernel.task_manager,
        processors: kernel.processors,
        ..*kernel0
    })
}

proof fn lemma_drained<M: PhysMemory>(kernel: &Kernel<M>, kernel0: &Kernel<M>, cpu: int)
    requires
        kernel0.wf(),
        0 <= cpu < NCPU,
        kernel0.processors@[cpu].current is None,
        drained(kernel, kernel0, cpu),
    ensures
        kernel.wf(),
{
    reveal(references_wf);
    let ready0 = kernel0.task_manager@;
    let ready = kernel.task_manager@;
    let moved = kernel0.processors@[cpu].pending_requeue@;
    assert(processor_wf(kernel0, cpu));
    assert forall|i: int, j: int| 0 <= i < ready.len() && 0 <= j < ready.len() && i != j implies ready[i]
        != ready[j] by {
        if i < ready0.len() && j >= ready0.len() {
            assert(parked(kernel0, cpu, moved[j - ready0.len()]));
            assert(ready0.contains(ready0[i]));
        }
        if j < ready0.len() && i >= ready0.len() {
            assert(parked(kernel0, cpu, moved[i - ready0.len()]));
            assert(ready0.contains(ready0[j]));
        }
    }
    assert forall|i: int| 0 <= i < ready.len() implies known(
        kernel.tasks@,
        #[trigger] ready[i],
    ) by {
        if i < ready0.len() {
            assert(known(kernel0.tasks@, ready0[i]));
        } else {
            assert(parked(kernel0, cpu, moved[i - ready0.len()]));
        }
    }
    assert forall|c: int| 0 <= c < NCPU implies #[trigger] processor_wf(kernel, c) by {
        assert(processor_wf(kernel0, c));
        if c != cpu {
            assert forall|t: usize| #[trigger] parked(kernel0, c, t) implies parked(
                kernel,
                c,
                t,
            ) by {
                if ready.contains(t) {
                    let i = choose|i: int| 0 <= i < ready.len() && ready[i] == t;
                    if i < ready0.len() {
                        assert(ready0.contains(t));
                    } else {
                        assert(parked(kernel0, cpu, moved[i - ready0.len()]));
                    }
                }
            }
            lemma_processor_kept(kernel, kernel0, c);
        }
    }
    lemma_memory_kept(kernel, kernel0);
    lemma_refs_kept(kernel, kernel0);
}

/// What a processor has to do to run a thread: load `token` into CR3, let traps
/// use the kernel stack with top `stack_top`, and switch to the context of
/// `task`.
#[derive(Copy, Clone, Debug, PartialEq, Eq, Structural)]
pub struct Dispatch {
    pub task: usize,
    pub token: u64,
    pub stack_top: u64,
}

/// `kernel` came from `kernel0` by letting processor `cpu` run the first ready
/// thread.
pub open spec fn dispatched<M: PhysMemory>(
    kernel: &Kernel<M>,
    kernel0: &Kernel<M>,
    cpu: int,
) -> bool {
    let t = kernel0.task_manager@[0];
    &&& kernel.task_manager@ == kernel0.task_manager@.drop_first()
    &&& kernel.tasks@ == kernel0.tasks@.insert(
        t,
        (TaskControlBlock {
            last_cpu: cpu as usize,
            ..with_status(kernel0.tasks@[t], TaskStatus::Running)
        }),
    )
    &&& kernel.processors@ == kernel0.processors@.update(
        cpu,
        (Processor { current: Some(t), ..kernel0.processors@[cpu] }),
    )
    &&& *kernel == (Kernel {
        task_manager: kernel.task_manager,
        tasks: kernel.tasks,
        processors: kernel.processors,
        ..*kernel0
    })
}

proof fn lemma_dispatched<M: PhysMemory>(kernel: &Kernel<M>, kernel0: &Kernel<M>, cpu: int)
    requires
        kernel0.wf(),
        0 <= cpu < NCPU,
        kernel0.processors@[cpu].current is None,
        kernel0.processors@[cpu].exiting_process is None,
        kernel0.task_manager@.len() > 0,
        dispatched(kernel, kernel0, cpu),
    ensures
        kernel.wf(),
{
    reveal(references_wf);
    let ready0 = kernel0.task_manager@;
    let ready = kernel.task_manager@;
    let t = ready0[0];
    assert(known(kernel0.tasks@, ready0[0]));
    assert(ready0.contains(ready0[0]));
    assert forall|i: int| 0 <= i < ready.len() implies known(
        kernel.tasks@,
        #[trigger] ready[i],
    ) by {
        assert(ready[i] == ready0[i + 1]);
        assert(known(kernel0.tasks@, ready0[i + 1]));
    }
    assert forall|u: usize| #[trigger] ready.contains(u) implies ready0.contains(u) && u != t by {
        let i = choose|i: int| 0 <= i < ready.len() && ready[i] == u;
        assert(ready0[i + 1] == u);
    }
    assert forall|c: int| 0 <= c < NCPU implies #[trigger] processor_wf(kernel, c) by {
        assert(processor_wf(kernel0, c));
        assert forall|u: usize| #[trigger] parked(kernel0, c, u) implies parked(kernel, c, u) by {
            assert(u != t);
        }
        if c != cpu {
            lemma_processor_kept(kernel, kernel0, c);
        } else {
            let queue = kernel0.processors@[c].pending_requeue@;
            assert forall|i: int| 0 <= i < queue.len() implies parked(
                kernel,
                c,
                #[trigger] queue[i],
            ) by {
                assert(parked(kernel0, c, queue[i]));
            }
        }
    }
    assert forall|i: int| 0 <= i < kernel.timers.events().len() implies known(
        kernel.tasks@,
        (#[trigger] kernel.timers.events()[i]).task,
    ) by {
        assert(known(kernel0.tasks@, kernel0.timers.events()[i].task));
    }
    lemma_rescheduled(kernel, kernel0, t);
}

/// `kernel` came from `kernel0` by picking a thread for processor `cpu`, if one is ready.
pub open spec fn picked<M: PhysMemory>(
    kernel: &Kernel<M>,
    kernel0: &Kernel<M>,
    cpu: usize,
    r: Option<Dispatch>,
) -> bool {
    let p0 = kernel0.processors@[cpu as int];
    let ready = kernel0.task_manager@ + p0.pending_requeue@;
    if ready.len() == 0 {
        &&& r is None
        &&& drained(kernel, kernel0, cpu as int)
    } else {
        &&& r == Some(
            Dispatch {
                task: ready[0],
                token: user_token(kernel0, kernel0.tasks@[ready[0]].process) as u64,
                stack_top: super::id::kstack_top(ready[0]) as u64,
            },
        )
        &&& round_done(kernel, kernel0, cpu as int)
    }
}

/// One round of the idle loop of processor `cpu`, once the kernel's address space
/// is active: threads that waited for their context to be saved become ready,
/// and the first ready thread is to run. If there is none, the processor has to
/// halt until an interrupt comes.
pub fn run_tasks<M: PhysMemory>(kernel: &mut Kernel<M>, cpu: usize) -> (r: Option<Dispatch>)
    requires
        old(kernel).wf(),
        cpu < NCPU,
        old(kernel).processors@[cpu as int].current is None,
        old(kernel).processors@[cpu as int].exiting_process is None,
    ensures
        final(kernel).wf(),
        picked(final(kernel), old(kernel), cpu, r),
{
    let ghost k0 = *kernel;
    drain_pending(kernel, cpu);
    let ghost k1 = *kernel;
    match fetch_task(kernel) {
        Some(t) => {
            proof {
                reveal(references_wf);
                assert(known(k1.tasks@, k1.task_manager@[0]));
            }
            let mut task = kernel.tasks.remove(&t).unwrap();
            task.inner.task_status = TaskStatus::Running;
            task.last_cpu = cpu;
            let kstack: KernelStack = task.kstack;
            kernel.tasks.insert(t, task);
            kernel.processors[cpu].current = Some(t);
            proof {
                assert(kernel.tasks@ =~= k1.tasks@.insert(t, task));
                assert(dispatched(kernel, &k1, cpu as int));
                lemma_dispatched(kernel, &k1, cpu as int);
                assert(kernel.processors@ =~= k0.processors@.update(
                    cpu as int,
                    kernel.processors@[cpu as int],
                ));
                assert(kernel.tasks@[t].process == k0.tasks@[t].process);
                assert(kernel.processes@.dom().contains(kernel.tasks@[t].process));
            }
            let token: u64 = task.get_user_token(kernel);
            proof {
                assert(kernel.kstack_allocator@.live(t));
                reveal(memory_wf);
            }
            Some(Dispatch { task: t, token, stack_top: kstack.get_top() })
        },
        None => {
            proof {
                lemma_memory_kept(kernel, &k1);
                lemma_schedule_kept(kernel, &k1);
                lemma_refs_unchanged(kernel, &k1);
            }
            None
        },
    }
}

/// Processes and threads that are not touched stay sound.
proof fn lemma_refs_unchanged<M: PhysMemory>(kernel: &Kernel<M>, kernel0: &Kernel<M>)
    requires
        kernel0.wf(),
        schedule_wf(kernel),
        *kernel == (Kernel {
            task_manager: kernel.task_manager,
            processors: kernel.processors,
            timers: kernel.timers,
            ..*kernel0
        }),
    ensures
        kernel.refs_wf(),
{
    reveal(references_wf);
    lemma_refs_kept(kernel, kernel0);
}

/// `kernel` came from `kernel0` by a round of the idle loop of processor `cpu` in
/// which it found a thread to run.
pub open spec fn round_done<M: PhysMemory>(
    kernel: &Kernel<M>,
    kernel0: &Kernel<M>,
    cpu: int,
) -> bool {
    let p0 = kernel0.processors@[cpu];
    let p1 = kernel.processors@[cpu];
    let ready = kernel0.task_manager@ + p0.pending_requeue@;
    &&& kernel.task_manager@ == ready.drop_first()
    &&& kernel.tasks@ == kernel0.tasks@.insert(
        ready[0],
        (TaskControlBlock {
            last_cpu: cpu as usize,
            ..with_status(kernel0.tasks@[ready[0]], TaskStatus::Running)
        }),
    )
    &&& kernel.processors@ == kernel0.processors@.update(cpu, p1)
    &&& p1.pending_requeue@ == Seq::<usize>::empty()
    &&& p1 == (Processor {
        current: Some(ready[0]),
        pending_requeue: p1.pending_requeue,
        ..p0
    })
    &&& *kernel == (Kernel {
        task_manager: kernel.task_manager,
        tasks: kernel.tasks,
        processors: kernel.processors,
        ..*kernel0
    })
}

/// The queue of processor `c` after the first `n` threads of `list` were woken
/// up.
pub open spec fn queue_with_woken(
    ready: Seq<usize>,
    queue: Seq<usize>,
    tasks: Map<usize, TaskControlBlock>,
    list: Seq<usize>,
    n: int,
    c: int,
) -> Seq<usize>
    decreases n,
{
    if n <= 0 {
        queue
    } else {
        let before = queue_with_woken(ready, queue, tasks, list, n - 1, c);
        if tasks[list[n - 1]].last_cpu == c {
            queue_with(ready, before, list[n - 1])
        } else {
            before
        }
    }
}

/// The threads after the first `n` threads of `list` were woken up.
pub open spec fn tasks_with_woken(
    tasks: Map<usize, TaskControlBlock>,
    list: Seq<usize>,
    n: int,
) -> Map<usize, TaskControlBlock>
    decreases n,
{
    if n <= 0 {
        tasks
    } else {
        let before = tasks_with_woken(tasks, list, n - 1);
        before.insert(list[n - 1], with_status(before[list[n - 1]], TaskStatus::Ready))
    }
}

/// `kernel` came from `kernel0` by waking the first `n` threads of `list`.
pub open spec fn all_woken<M: PhysMemory>(
    kernel: &Kernel<M>,
    kernel0: &Kernel<M>,
    list: Seq<usize>,
    n: int,
) -> bool {
    &&& kernel.tasks@ == tasks_with_woken(kernel0.tasks@, list, n)
    &&& kernel.processors@.len() == kernel0.processors@.len()
    &&& forall|c: int|
        0 <= c < kernel.processors@.len() ==> {
            let p0 = kernel0.processors@[c];
            let p1 = #[trigger] kernel.processors@[c];
            &&& p1.pending_requeue@ == queue_with_woken(
                kernel0.task_manager@,
                p0.pending_requeue@,
                kernel0.tasks@,
                list,
                n,
                c,
            )
            &&& p1 == (Processor { pending_requeue: p1.pending_requeue, ..p0 })
        }
    &&& *kernel == (Kernel {
        tasks: kernel.tasks,
        processors: kernel.processors,
        timers: kernel.timers,
        ..*kernel0
    })
}

proof fn lemma_woken_tasks(tasks: Map<usize, TaskControlBlock>, list: Seq<usize>, n: int)
    requires
        0 <= n <= list.len(),
        forall|i: int| 0 <= i < list.len() ==> tasks.dom().contains(#[trigger] list[i]),
    ensures
        tasks_with_woken(tasks, list, n).dom() == tasks.dom(),
        forall|t: usize| #[trigger]
            tasks.dom().contains(t) ==> {
                let after = tasks_with_woken(tasks, list, n);
                &&& after[t].last_cpu == tasks[t].last_cpu
                &&& after[t].inner.res == tasks[t].inner.res
            },
    decreases n,
{
    if n > 0 {
        lemma_woken_tasks(tasks, list, n - 1);
        assert(tasks.dom().contains(list[n - 1]));
        assert(tasks_with_woken(tasks, list, n).dom() =~= tasks.dom());
    }
}

/// `kernel` came from `kernel0` by waking the threads whose timers have expired.
pub open spec fn timers_checked<M: PhysMemory>(kernel: &Kernel<M>, kernel0: &Kernel<M>) -> bool {
    let events = kernel0.timers.events();
    let now = kernel0.timers.ticks();
    let list = expired_tasks(events, now);
    &&& all_woken(kernel, kernel0, list, list.len() as int)
    &&& kernel.timers.events() == pending_events(events, now)
    &&& kernel.timers.ticks() == now
}

/// Wake the threads whose timers have expired.
pub fn check_timer<M: PhysMemory>(kernel: &mut Kernel<M>)
    requires
        old(kernel).wf(),
    ensures
        final(kernel).wf(),
        timers_checked(final(kernel), old(kernel)),
{
    let ghost k0 = *kernel;
    let ghost events = kernel.timers.events();
    let ghost now = kernel.timers.ticks();
    let ghost list = expired_tasks(events, now);
    let expired: Vec<usize> = kernel.timers.check_timer();
    proof {
        reveal(references_wf);
        assert forall|i: int| 0 <= i < list.len() implies known(
            k0.tasks@,
            #[trigger] list[i],
        ) by {
            assert(list.contains(list[i]));
            expired_tasks_have_events(events, now, list[i]);
            let k = choose|k: int|
                0 <= k < events.len() && (#[trigger] events[k]).task == list[i]
                    && events[k].expire_ms <= now;
            assert(known(k0.tasks@, events[k].task));
        }
        assert forall|i: int| 0 <= i < kernel.timers.events().len() implies known(
            k0.tasks@,
            (#[trigger] kernel.timers.events()[i]).task,
        ) by {
            let e = kernel.timers.events()[i];
            assert(kernel.timers.events().contains(e));
            pending_events_are_later(events, now, e);
            let k = choose|k: int| 0 <= k < events.len() && events[k] == e;
            assert(known(k0.tasks@, events[k].task));
        }
        assert forall|c: int| 0 <= c < NCPU implies #[trigger] processor_wf(kernel, c) by {
            assert(processor_wf(&k0, c));
            lemma_processor_kept(kernel, &k0, c);
        }
        lemma_memory_kept(kernel, &k0);
        lemma_refs_unchanged(kernel, &k0);
    }
    let ghost timers = kernel.timers;
    let mut i: usize = 0;
    while i < expired.len()
        invariant
            i <= expired@.len(),
            list == expired@,
            kernel.wf(),
            k0.wf(),
            kernel.timers == timers,
            all_woken(kernel, &k0, list, i as int),
            forall|k: int| 0 <= k < list.len() ==> known(k0.tasks@, #[trigger] list[k]),
        decreases expired@.len() - i,
    {
        let t: usize = expired[i];
        let ghost k1 = *kernel;
        proof {
            reveal(references_wf);
            assert(t == list[i as int]);
            lemma_woken_tasks(k0.tasks@, list, i as int);
            assert(kernel.tasks@.dom().contains(t));
        }
        wakeup_task(kernel, t);
        i = i + 1;
    }
}

} // verus!
