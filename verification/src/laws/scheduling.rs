//! Which threads run, and when.
use vstd::prelude::*;
use crate::mm::phys::PhysMemory;
use crate::task::kernel::{references_wf, Kernel};
use crate::task::schedule::{
    blocked, picked, queue_with_woken, suspended, tasks_with_woken,
    timers_checked, woken, Dispatch,
};
use crate::task::task::{TaskControlBlock, TaskStatus};
use crate::timer::{expired_tasks, expired_tasks_have_events};

verus! {

/// The threads that can run on processor `cpu`, those that have waited longest first: the
/// ones that are ready, and then the ones that the processor holds back.
pub open spec fn candidates<M: PhysMemory>(kernel: &Kernel<M>, cpu: usize) -> Seq<usize> {
    kernel.task_manager@ + kernel.processors@[cpu as int].pending_requeue@
}

/// Whether thread `t` waits for a processor.
pub open spec fn waits_to_run<M: PhysMemory>(kernel: &Kernel<M>, t: usize) -> bool {
    ||| kernel.task_manager@.contains(t)
    ||| exists|c: int|
        0 <= c < kernel.processors@.len() && (
        #[trigger] kernel.processors@[c]).pending_requeue@.contains(t)
}

/// A processor runs the thread that has waited longest: with the page table of its
/// process and with its own kernel stack. All other threads move up by one place. If none
/// waits, the processor runs none.
pub proof fn longest_waiting_thread_runs<M: PhysMemory>(
    kernel: &Kernel<M>,
    kernel0: &Kernel<M>,
    cpu: usize,
    r: Option<Dispatch>,
)
    requires
        cpu < kernel0.processors@.len(),
        kernel0.processors@[cpu as int].current is None,
        picked(kernel, kernel0, cpu, r),
    ensures
        ({
            let queue = candidates(kernel0, cpu);
            if queue.len() == 0 {
                &&& r is None
                &&& kernel.processors@[cpu as int].current is None
                &&& kernel.tasks@ == kernel0.tasks@
                &&& candidates(kernel, cpu).len() == 0
            } else {
                let t = queue[0];
                let root = kernel0.processes@[kernel0.tasks@[t].process].inner.memory_set.root();
                &&& r matches Some(d) && d.task == t && d.token == (root * 0x1000) as u64
                    && d.stack_top == (0xffff_ffff_c000_0000 + t * 0x3000 + 0x2000) as u64
                &&& kernel.processors@[cpu as int].current == Some(t)
                &&& kernel.tasks@[t].inner.task_status == TaskStatus::Running
                &&& kernel.tasks@[t].last_cpu == cpu
                &&& kernel.tasks@[t].inner.trap_cx == kernel0.tasks@[t].inner.trap_cx
                &&& kernel.tasks@[t].inner.res == kernel0.tasks@[t].inner.res
                &&& forall|u: usize| u != t ==> #[trigger] kernel.tasks@[u] == kernel0.tasks@[u]
                &&& candidates(kernel, cpu).len() == queue.len() - 1
                &&& forall|i: int|
                    0 <= i < queue.len() - 1 ==> #[trigger] candidates(kernel, cpu)[i] == queue[i
                        + 1]
                &&& kernel.task_manager@.len() == queue.len() - 1
            }
        }),
        forall|c: int|
            0 <= c < kernel0.processors@.len() && c != cpu ==> #[trigger] kernel.processors@[c]
                == kernel0.processors@[c],
        kernel.processes == kernel0.processes,
        kernel.timers == kernel0.timers,
{
    let queue = candidates(kernel0, cpu);
    if queue.len() > 0 {
        assert(candidates(kernel, cpu) =~= queue.drop_first());
    }
}

/// A thread that gives way leaves its processor and waits to run, behind all threads that
/// its processor held back before. Nobody overtakes another.
pub proof fn thread_that_gives_way_waits<M: PhysMemory>(
    kernel: &Kernel<M>,
    kernel0: &Kernel<M>,
    cpu: usize,
    t: usize,
)
    requires
        cpu < kernel0.processors@.len(),
        suspended(kernel, kernel0, cpu, t),
    ensures
        kernel.processors@[cpu as int].current is None,
        kernel.tasks@[t].inner.task_status == TaskStatus::Ready,
        kernel.tasks@[t].inner.trap_cx == kernel0.tasks@[t].inner.trap_cx,
        waits_to_run(kernel, t),
        forall|u: usize| u != t ==> #[trigger] kernel.tasks@[u] == kernel0.tasks@[u],
        kernel.task_manager == kernel0.task_manager,
        !candidates(kernel0, cpu).contains(t) ==> candidates(kernel, cpu) == candidates(
            kernel0,
            cpu,
        ).push(t),
        candidates(kernel0, cpu).contains(t) ==> candidates(kernel, cpu) == candidates(
            kernel0,
            cpu,
        ),
        forall|c: int|
            0 <= c < kernel0.processors@.len() && c != cpu ==> #[trigger] kernel.processors@[c]
                == kernel0.processors@[c],
{
    let ready = kernel0.task_manager@;
    let held0 = kernel0.processors@[cpu as int].pending_requeue@;
    let held = kernel.processors@[cpu as int].pending_requeue@;
    lemma_concat(ready, held0, t);
    if !ready.contains(t) && !held0.contains(t) {
        assert(held.last() == t);
        assert(candidates(kernel, cpu) =~= candidates(kernel0, cpu).push(t));
    }
    assert(ready.contains(t) || held.contains(t));
    assert(kernel.processors@[cpu as int].pending_requeue@ == held);
}

proof fn lemma_concat(a: Seq<usize>, b: Seq<usize>, t: usize)
    ensures
        (a + b).contains(t) <==> a.contains(t) || b.contains(t),
{
    if a.contains(t) {
        let i = choose|i: int| 0 <= i < a.len() && a[i] == t;
        assert((a + b)[i] == t);
    }
    if b.contains(t) {
        let i = choose|i: int| 0 <= i < b.len() && b[i] == t;
        assert((a + b)[a.len() + i] == t);
    }
}

/// A thread that blocks leaves its processor and does not wait to run, unless it has been
/// woken already.
pub proof fn blocked_thread_does_not_run<M: PhysMemory>(
    kernel: &Kernel<M>,
    kernel0: &Kernel<M>,
    cpu: usize,
    t: usize,
)
    requires
        cpu < kernel0.processors@.len(),
        blocked(kernel, kernel0, cpu, t),
    ensures
        kernel.processors@[cpu as int].current is None,
        kernel.tasks@[t].inner.task_status == TaskStatus::Blocked,
        kernel.tasks@[t].inner.trap_cx == kernel0.tasks@[t].inner.trap_cx,
        waits_to_run(kernel, t) ==> waits_to_run(kernel0, t),
        forall|u: usize| u != t ==> #[trigger] kernel.tasks@[u] == kernel0.tasks@[u],
        forall|u: usize| #[trigger] waits_to_run(kernel0, u) ==> waits_to_run(kernel, u),
{
    assert forall|u: usize| waits_to_run(kernel, u) == #[trigger] waits_to_run(kernel0, u) by {
        lemma_waits_kept(kernel, kernel0, u);
        lemma_waits_kept(kernel0, kernel, u);
    }
    assert(waits_to_run(kernel, t) == waits_to_run(kernel0, t));
}

proof fn lemma_waits_kept<M: PhysMemory>(kernel: &Kernel<M>, kernel0: &Kernel<M>, t: usize)
    requires
        kernel.task_manager@ == kernel0.task_manager@,
        kernel.processors@.len() == kernel0.processors@.len(),
        forall|c: int|
            0 <= c < kernel0.processors@.len() ==> (#[trigger] kernel0.processors@[c]).pending_requeue@
                == kernel.processors@[c].pending_requeue@,
    ensures
        waits_to_run(kernel0, t) ==> waits_to_run(kernel, t),
{
    if waits_to_run(kernel0, t) && !kernel0.task_manager@.contains(t) {
        let c = choose|c: int|
            0 <= c < kernel0.processors@.len() && (
            #[trigger] kernel0.processors@[c]).pending_requeue@.contains(t);
        assert(kernel.processors@[c].pending_requeue@.contains(t));
    }
}

/// A thread that is woken waits to run where it ran last, behind all that wait there, and
/// only once. No thread is taken from its processor.
pub proof fn woken_thread_waits_to_run<M: PhysMemory>(
    kernel: &Kernel<M>,
    kernel0: &Kernel<M>,
    t: usize,
)
    requires
        kernel0.tasks@[t].last_cpu < kernel0.processors@.len(),
        woken(kernel, kernel0, t),
    ensures
        ({
            let c = kernel0.tasks@[t].last_cpu;
            &&& kernel.tasks@[t].inner.task_status == TaskStatus::Ready
            &&& kernel.tasks@[t].last_cpu == c
            &&& kernel.tasks@[t].inner.trap_cx == kernel0.tasks@[t].inner.trap_cx
            &&& candidates(kernel, c).contains(t)
            &&& candidates(kernel0, c).contains(t) ==> candidates(kernel, c) == candidates(
                kernel0,
                c,
            )
            &&& !candidates(kernel0, c).contains(t) ==> candidates(kernel, c) == candidates(
                kernel0,
                c,
            ).push(t)
        }),
        kernel.task_manager == kernel0.task_manager,
        kernel.processors@.len() == kernel0.processors@.len(),
        forall|d: int|
            0 <= d < kernel0.processors@.len() ==> (#[trigger] kernel.processors@[d]).current
                == kernel0.processors@[d].current,
        forall|u: usize| u != t ==> #[trigger] kernel.tasks@[u] == kernel0.tasks@[u],
{
    let c = kernel0.tasks@[t].last_cpu;
    let ready = kernel0.task_manager@;
    let held0 = kernel0.processors@[c as int].pending_requeue@;
    let held = kernel.processors@[c as int].pending_requeue@;
    lemma_concat(ready, held0, t);
    lemma_concat(ready, held, t);
    if !ready.contains(t) && !held0.contains(t) {
        assert(held.last() == t);
        assert(candidates(kernel, c) =~= candidates(kernel0, c).push(t));
    }
}

/// A thread that was blocked and then woken runs again on its processor, once those before
/// it have run: if none waits, it is the next one.
pub proof fn woken_thread_runs_next<M: PhysMemory>(
    kernel0: &Kernel<M>,
    kernel1: &Kernel<M>,
    kernel2: &Kernel<M>,
    t: usize,
    r: Option<Dispatch>,
)
    requires
        kernel0.tasks@[t].last_cpu < kernel0.processors@.len(),
        candidates(kernel0, kernel0.tasks@[t].last_cpu).len() == 0,
        kernel0.processors@[kernel0.tasks@[t].last_cpu as int].current is None,
        woken(kernel1, kernel0, t),
        picked(kernel2, kernel1, kernel0.tasks@[t].last_cpu, r),
    ensures
        r matches Some(d) && d.task == t,
        kernel2.processors@[kernel0.tasks@[t].last_cpu as int].current == Some(t),
{
    woken_thread_waits_to_run(kernel1, kernel0, t);
    longest_waiting_thread_runs(kernel2, kernel1, kernel0.tasks@[t].last_cpu, r);
}

/// The threads of `list`, one after the other, in the queue of processor `c`.
proof fn lemma_queue_with_woken(
    ready: Seq<usize>,
    queue: Seq<usize>,
    tasks: Map<usize, TaskControlBlock>,
    list: Seq<usize>,
    n: int,
    c: int,
    t: usize,
)
    requires
        0 <= n <= list.len(),
    ensures
        ({
            let after = queue_with_woken(ready, queue, tasks, list, n, c);
            &&& queue.is_prefix_of(after)
            &&& after.contains(t) ==> queue.contains(t) || (list.take(n).contains(t)
                && tasks[t].last_cpu == c)
            &&& queue.contains(t) ==> after.contains(t)
            &&& list.take(n).contains(t) && tasks[t].last_cpu == c ==> ready.contains(t)
                || after.contains(t)
        }),
    decreases n,
{
    if n > 0 {
        lemma_queue_with_woken(ready, queue, tasks, list, n - 1, c, t);
        let before = queue_with_woken(ready, queue, tasks, list, n - 1, c);
        let after = queue_with_woken(ready, queue, tasks, list, n, c);
        let u = list[n - 1];
        assert(list.take(n)[n - 1] == u);
        assert(list.take(n).take(n - 1) =~= list.take(n - 1));
        lemma_take_contains(list, n, t);
        if tasks[u].last_cpu == c && !(ready.contains(u) || before.contains(u)) {
            assert(after == before.push(u));
            assert(after[before.len() as int] == u);
            if after.contains(t) {
                let i = choose|i: int| 0 <= i < after.len() && after[i] == t;
                if i < before.len() {
                    assert(before[i] == t);
                }
            }
            if before.contains(t) {
                let i = choose|i: int| 0 <= i < before.len() && before[i] == t;
                assert(after[i] == t);
            }
        }
    } else {
        assert(list.take(0) =~= Seq::empty());
    }
}

proof fn lemma_take_contains(list: Seq<usize>, n: int, t: usize)
    requires
        0 < n <= list.len(),
    ensures
        list.take(n).contains(t) <==> list.take(n - 1).contains(t) || list[n - 1] == t,
{
    let a = list.take(n);
    let b = list.take(n - 1);
    if a.contains(t) {
        let i = choose|i: int| 0 <= i < a.len() && a[i] == t;
        if i < n - 1 {
            assert(b[i] == t);
        }
    }
    if b.contains(t) {
        let i = choose|i: int| 0 <= i < b.len() && b[i] == t;
        assert(a[i] == t);
    }
    assert(list.take(n)[n - 1] == list[n - 1]);
}

proof fn lemma_tasks_with_woken(
    tasks: Map<usize, TaskControlBlock>,
    list: Seq<usize>,
    n: int,
    t: usize,
)
    requires
        0 <= n <= list.len(),
    ensures
        ({
            let after = tasks_with_woken(tasks, list, n);
            &&& !list.take(n).contains(t) ==> after[t] == tasks[t]
            &&& list.take(n).contains(t) ==> after[t].inner.task_status == TaskStatus::Ready
            &&& after[t].last_cpu == tasks[t].last_cpu
            &&& after[t].process == tasks[t].process
            &&& after[t].inner.trap_cx == tasks[t].inner.trap_cx
            &&& after[t].inner.res == tasks[t].inner.res
        }),
    decreases n,
{
    if n > 0 {
        lemma_tasks_with_woken(tasks, list, n - 1, t);
        lemma_take_contains(list, n, t);
    } else {
        assert(list.take(0) =~= Seq::empty());
    }
}

/// A thread that sleeps until a time is woken when the time has come, and not before: it
/// is ready and waits to run where it ran last. Threads whose time has not come are left
/// alone, and their timers go on. Nobody who waits is overtaken.
pub proof fn sleepers_are_woken_in_time<M: PhysMemory>(
    kernel: &Kernel<M>,
    kernel0: &Kernel<M>,
    t: usize,
)
    requires
        kernel0.wf(),
        kernel0.tasks@.dom().contains(t),
        timers_checked(kernel, kernel0),
    ensures
        ({
            let due = exists|k: int|
                0 <= k < kernel0.timers.events().len() && (
                #[trigger] kernel0.timers.events()[k]).task == t
                    && kernel0.timers.events()[k].expire_ms <= kernel0.timers.ticks();
            let c = kernel0.tasks@[t].last_cpu;
            &&& due ==> kernel.tasks@[t].inner.task_status == TaskStatus::Ready && candidates(
                kernel,
                c,
            ).contains(t)
            &&& !due ==> kernel.tasks@[t] == kernel0.tasks@[t] && (candidates(kernel, c).contains(t)
                ==> candidates(kernel0, c).contains(t))
            &&& kernel.tasks@[t].inner.trap_cx == kernel0.tasks@[t].inner.trap_cx
            &&& kernel.tasks@[t].last_cpu == c
        }),
        forall|c: int|
            0 <= c < kernel0.processors@.len() ==> kernel0.processors@[c].pending_requeue@.is_prefix_of(
                (#[trigger] kernel.processors@[c]).pending_requeue@,
            ) && kernel.processors@[c].current == kernel0.processors@[c].current,
        kernel.task_manager == kernel0.task_manager,
        kernel.timers.ticks() == kernel0.timers.ticks(),
{
    let events = kernel0.timers.events();
    let now = kernel0.timers.ticks();
    let list = expired_tasks(events, now);
    let n = list.len() as int;
    let c = kernel0.tasks@[t].last_cpu;
    assert(c < kernel0.processors@.len()) by {
        reveal(references_wf);
    }
    expired_tasks_have_events(events, now, t);
    assert(list.take(n) =~= list);
    lemma_tasks_with_woken(kernel0.tasks@, list, n, t);
    lemma_queue_with_woken(
        kernel0.task_manager@,
        kernel0.processors@[c as int].pending_requeue@,
        kernel0.tasks@,
        list,
        n,
        c as int,
        t,
    );
    lemma_concat(kernel0.task_manager@, kernel0.processors@[c as int].pending_requeue@, t);
    lemma_concat(kernel.task_manager@, kernel.processors@[c as int].pending_requeue@, t);
    assert forall|d: int| 0 <= d < kernel0.processors@.len() implies kernel0.processors@[d].pending_requeue@.is_prefix_of(
    (#[trigger] kernel.processors@[d]).pending_requeue@) && kernel.processors@[d].current
        == kernel0.processors@[d].current by {
        lemma_queue_with_woken(
            kernel0.task_manager@,
            kernel0.processors@[d].pending_requeue@,
            kernel0.tasks@,
            list,
            n,
            d,
            t,
        );
    }
}

} // verus!
