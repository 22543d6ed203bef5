//! Signals of the running process.
use vstd::prelude::*;
use super::delivery::{delivered, deliverable, kernel_handled, kernel_signal, Delivery};
use super::kernel::{
    lemma_memory_kept, lemma_refs_kept, lemma_schedule_kept, processor_wf, references_wf, Kernel,
};
use super::process::{ProcessControlBlock, ProcessControlBlockInner};
use super::schedule::{current_process, current_task, suspend_current_and_run_next, suspended};
use super::signal::{signal_bit, signal_error, SignalFlags};
use super::task::{TaskControlBlock, TaskControlBlockInner};
use crate::config::NCPU;
use crate::mm::phys::PhysMemory;
use crate::trap::context::TrapContext;

verus! {

/// The thread that runs on processor `cpu`.
pub open spec fn running<M: PhysMemory>(kernel: &Kernel<M>, cpu: usize) -> usize {
    kernel.processors@[cpu as int].current->Some_0
}

/// The process of the thread that runs on processor `cpu`.
pub open spec fn running_process<M: PhysMemory>(kernel: &Kernel<M>, cpu: usize) -> usize {
    kernel.tasks@[running(kernel, cpu)].process
}

/// Whether processor `cpu` runs a thread.
pub open spec fn runs<M: PhysMemory>(kernel: &Kernel<M>, cpu: usize) -> bool {
    cpu < NCPU && kernel.processors@[cpu as int].current is Some
}

/// The processes with another state of process `pid`.
pub open spec fn with_inner(
    processes: Map<usize, ProcessControlBlock>,
    pid: usize,
    inner: ProcessControlBlockInner,
) -> Map<usize, ProcessControlBlock> {
    processes.insert(pid, ProcessControlBlock { inner, ..processes[pid] })
}

/// The threads with another trap context of thread `t`.
pub open spec fn with_trap_cx(
    tasks: Map<usize, TaskControlBlock>,
    t: usize,
    trap_cx: TrapContext,
) -> Map<usize, TaskControlBlock> {
    tasks.insert(
        t,
        TaskControlBlock {
            inner: TaskControlBlockInner { trap_cx, ..tasks[t].inner },
            ..tasks[t]
        },
    )
}

/// What a running thread and its process are there for.
pub proof fn lemma_running<M: PhysMemory>(kernel: &Kernel<M>, cpu: usize)
    requires
        kernel.wf(),
        runs(kernel, cpu),
    ensures
        kernel.processors@.len() == NCPU,
        kernel.tasks@.dom().contains(running(kernel, cpu)),
        kernel.processes@.dom().contains(running_process(kernel, cpu)),
        kernel.processes@[running_process(kernel, cpu)].inner.signals_wf(),
        kernel.processes@[running_process(kernel, cpu)].pid.0 == running_process(kernel, cpu),
{
    reveal(references_wf);
    assert(processor_wf(kernel, cpu as int));
}

/// What leaves the memory, the threads and the children of a process alone keeps
/// the kernel sound.
pub proof fn lemma_inner_changed<M: PhysMemory>(
    kernel: &Kernel<M>,
    kernel0: &Kernel<M>,
    pid: usize,
    t: usize,
)
    requires
        kernel0.wf(),
        kernel0.processes@.dom().contains(pid),
        kernel0.tasks@.dom().contains(t),
        kernel.processes@ == with_inner(kernel0.processes@, pid, kernel.processes@[pid].inner),
        kernel.tasks@ == with_trap_cx(kernel0.tasks@, t, kernel.tasks@[t].inner.trap_cx),
        ({
            let inner = kernel.processes@[pid].inner;
            let inner0 = kernel0.processes@[pid].inner;
            &&& inner.memory_set == inner0.memory_set
            &&& inner.tasks == inner0.tasks
            &&& inner.task_res_allocator == inner0.task_res_allocator
            &&& inner.children == inner0.children
            &&& inner.signals_wf()
        }),
        *kernel == (Kernel { processes: kernel.processes, tasks: kernel.tasks, ..*kernel0 }),
    ensures
        kernel.wf(),
{
    assert(kernel.spaces() =~= kernel0.spaces());
    lemma_memory_kept(kernel, kernel0);
    assert(kernel.processes@.dom() =~= kernel0.processes@.dom());
    assert(kernel.tasks@.dom() =~= kernel0.tasks@.dom());
    lemma_schedule_kept(kernel, kernel0);
    reveal(references_wf);
    lemma_refs_kept(kernel, kernel0);
}

/// If a signal that kills a process is pending for the running process: the exit
/// code and the message.
pub fn check_signals_error_of_current<M: PhysMemory>(kernel: &Kernel<M>, cpu: usize) -> (r: Option<
    (i32, &'static str),
>)
    requires
        kernel.wf(),
        runs(kernel, cpu),
    ensures
        ({
            let bits = kernel.processes@[running_process(kernel, cpu)].inner.signals.bits;
            &&& r matches Some(e) ==> Some((e.0, e.1@)) == signal_error(bits)
            &&& r is None ==> signal_error(bits) is None
        }),
{
    let pid: usize = current_process(kernel, cpu);
    kernel.processes.get(&pid).unwrap().inner.signals.check_error()
}

/// `kernel` came from `kernel0` by letting signals be pending for the process that runs on
/// processor `cpu`.
pub open spec fn signal_added<M: PhysMemory>(
    kernel: &Kernel<M>,
    kernel0: &Kernel<M>,
    cpu: usize,
    signal: SignalFlags,
) -> bool {
    let pid = running_process(kernel0, cpu);
    let inner = kernel0.processes@[pid].inner;
    &&& kernel.processes@ == with_inner(
        kernel0.processes@,
        pid,
        ProcessControlBlockInner {
            signals: SignalFlags { bits: inner.signals.bits | signal.bits },
            ..inner
        },
    )
    &&& *kernel == (Kernel { processes: kernel.processes, ..*kernel0 })
}

/// Let a signal be pending for the running process.
pub fn current_add_signal<M: PhysMemory>(kernel: &mut Kernel<M>, cpu: usize, signal: SignalFlags)
    requires
        old(kernel).wf(),
        runs(old(kernel), cpu),
    ensures
        final(kernel).wf(),
        signal_added(final(kernel), old(kernel), cpu, signal),
{
    let ghost k0 = *kernel;
    proof {
        lemma_running(&k0, cpu);
    }
    let pid: usize = current_process(kernel, cpu);
    let mut process = kernel.processes.remove(&pid).unwrap();
    process.inner.signals.insert(signal);
    let ghost p1 = process;
    kernel.processes.insert(pid, process);
    proof {
        assert(kernel.processes@ =~= with_inner(k0.processes@, pid, p1.inner));
        assert(kernel.tasks@ =~= with_trap_cx(
            k0.tasks@,
            running(&k0, cpu),
            k0.tasks@[running(&k0, cpu)].inner.trap_cx,
        ));
        lemma_inner_changed(kernel, &k0, pid, running(&k0, cpu));
    }
}

/// `kernel` came from `kernel0` by delivering the pending signals of the running
/// process.
pub open spec fn signals_delivered<M: PhysMemory>(
    kernel: &Kernel<M>,
    kernel0: &Kernel<M>,
    cpu: usize,
) -> bool {
    let t = running(kernel0, cpu);
    let pid = running_process(kernel0, cpu);
    let after = delivered(
        Delivery {
            inner: kernel0.processes@[pid].inner,
            trap_cx: kernel0.tasks@[t].inner.trap_cx,
        },
        0,
    );
    &&& kernel.processes@ == with_inner(kernel0.processes@, pid, after.inner)
    &&& kernel.tasks@ == with_trap_cx(kernel0.tasks@, t, after.trap_cx)
    &&& *kernel == (Kernel { processes: kernel.processes, tasks: kernel.tasks, ..*kernel0 })
}

/// Delivering signals leaves the memory, the threads and the children of the
/// process alone.
proof fn lemma_delivered_keeps(d: Delivery, sig: int)
    ensures
        ({
            let after = delivered(d, sig).inner;
            &&& after.memory_set == d.inner.memory_set
            &&& after.tasks == d.inner.tasks
            &&& after.task_res_allocator == d.inner.task_res_allocator
            &&& after.children == d.inner.children
        }),
    decreases 32 - sig,
{
    if sig < 32 {
        if !deliverable(d.inner, sig) {
            lemma_delivered_keeps(d, sig + 1);
        } else if kernel_signal(signal_bit(sig)) {
            lemma_delivered_keeps(
                Delivery { inner: kernel_handled(d.inner, signal_bit(sig)), ..d },
                sig + 1,
            );
        }
    }
}

/// Deliver the pending signals of the running process.
fn check_pending_signals<M: PhysMemory>(kernel: &mut Kernel<M>, cpu: usize)
    requires
        old(kernel).wf(),
        runs(old(kernel), cpu),
    ensures
        final(kernel).wf(),
        signals_delivered(final(kernel), old(kernel), cpu),
{
    let ghost k0 = *kernel;
    proof {
        lemma_running(&k0, cpu);
    }
    let t: usize = current_task(kernel, cpu).unwrap();
    let mut task = kernel.tasks.remove(&t).unwrap();
    let pid: usize = task.process;
    let mut process = kernel.processes.remove(&pid).unwrap();
    task.inner.trap_cx = process.inner.check_pending_signals(task.inner.trap_cx);
    let ghost p1 = process;
    kernel.processes.insert(pid, process);
    kernel.tasks.insert(t, task);
    proof {
        assert(kernel.processes@ =~= with_inner(k0.processes@, pid, p1.inner));
        assert(kernel.tasks@ =~= with_trap_cx(k0.tasks@, t, task.inner.trap_cx));
        lemma_delivered_keeps(
            Delivery {
                inner: k0.processes@[pid].inner,
                trap_cx: k0.tasks@[t].inner.trap_cx,
            },
            0,
        );
        lemma_inner_changed(kernel, &k0, pid, t);
    }
}

/// `kernel` came from `kernel0` by handling the signals of the process that runs on
/// processor `cpu` at the end of a trap; `r` is its thread, if it was suspended.
pub open spec fn signals_handled<M: PhysMemory>(
    kernel: &Kernel<M>,
    kernel0: &Kernel<M>,
    cpu: usize,
    r: Option<usize>,
) -> bool {
    exists|k1: Kernel<M>| #[trigger]
        signals_delivered(&k1, kernel0, cpu) && {
            let inner = k1.processes@[running_process(kernel0, cpu)].inner;
            let t = running(kernel0, cpu);
            if inner.frozen && !inner.killed {
                &&& r == Some(t)
                &&& suspended(kernel, &k1, cpu, t)
            } else {
                &&& r is None
                &&& *kernel == k1
            }
        }
}

/// Deliver the pending signals of the running process at the end of a trap. A
/// process that is frozen, and not killed, stays suspended: its thread gives up
/// the processor and is returned, and has to come back here when it goes on.
/// Otherwise the thread returns to user mode.
pub fn handle_signals<M: PhysMemory>(kernel: &mut Kernel<M>, cpu: usize) -> (r: Option<usize>)
    requires
        old(kernel).wf(),
        runs(old(kernel), cpu),
    ensures
        final(kernel).wf(),
        signals_handled(final(kernel), old(kernel), cpu, r),
{
    check_pending_signals(kernel, cpu);
    let ghost k1 = *kernel;
    proof {
        lemma_running(&k1, cpu);
        assert(signals_delivered(&k1, old(kernel), cpu));
    }
    let pid: usize = current_process(kernel, cpu);
    let process = kernel.processes.get(&pid).unwrap();
    let frozen: bool = process.inner.frozen;
    let killed: bool = process.inner.killed;
    if !frozen || killed {
        return None;
    }
    let t: usize = suspend_current_and_run_next(kernel, cpu);
    Some(t)
}

} // verus!
