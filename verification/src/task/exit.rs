//! The end of threads and processes.
use vstd::prelude::*;
use super::id::{dealloc_frees_id, IdView, TaskUserRes};
use super::kernel::{
    known, lemma_memory_kept, lemma_processor_kept, lemma_refs_kept, lemma_schedule_kept, memory_wf,
    names_wf, parked, processes_wf, processor_wf, references_wf, schedule_wf, stack_area,
    stack_page, threads_wf, user_space, Kernel,
};
use super::manager::{
    queue_contains, without_all, without_all_leaves_others, without_first,
    without_first_leaves_others,
};
use super::res::res_released;
use super::schedule::{nowhere_pending, remove_from_all_pending, remove_task};
use super::task::{TaskControlBlock, TaskControlBlockInner};
use crate::config::NCPU;
use crate::mm::phys::PhysMemory;
use crate::mm::map_area::{page_addresses, AreaView};
use crate::mm::memory_set::area_index;
use crate::mm::spaces::{confined, lemma_confined_trans};
use crate::timer::{events_without, TimerCondVar};

verus! {

/// Whether thread `t` waits neither to run nor to be woken by a timer.
pub open spec fn waits_nowhere<M: PhysMemory>(kernel: &Kernel<M>, t: usize) -> bool {
    &&& !kernel.task_manager@.contains(t)
    &&& forall|c: int|
        0 <= c < NCPU ==> !(#[trigger] kernel.processors@[c]).pending_requeue@.contains(t)
    &&& forall|i: int|
        0 <= i < kernel.timers.events().len() ==> (#[trigger] kernel.timers.events()[i]).task != t
}

/// Whether thread `t` runs on a processor.
pub open spec fn on_core<M: PhysMemory>(kernel: &Kernel<M>, t: usize) -> bool {
    exists|c: int| 0 <= c < NCPU && (#[trigger] kernel.processors@[c]).current == Some(t)
}

/// Whether thread `t` neither runs nor waits to run or to be woken by a timer.
pub open spec fn inactive<M: PhysMemory>(kernel: &Kernel<M>, t: usize) -> bool {
    waits_nowhere(kernel, t) && !on_core(kernel, t)
}

/// Whether thread `t` runs on a processor.
pub fn runs_on_core<M: PhysMemory>(kernel: &Kernel<M>, t: usize) -> (r: bool)
    requires
        kernel.wf(),
    ensures
        r == on_core(kernel, t),
{
    proof {
        reveal(references_wf);
    }
    let mut c: usize = 0;
    while c < NCPU
        invariant
            c <= NCPU,
            kernel.processors@.len() == NCPU,
            forall|d: int| 0 <= d < c ==> (#[trigger] kernel.processors@[d]).current != Some(t),
        decreases NCPU - c,
    {
        if let Some(u) = kernel.processors[c].current {
            if u == t {
                assert(kernel.processors@[c as int].current == Some(t));
                return true;
            }
        }
        c = c + 1;
    }
    false
}

/// Whether thread `t` neither runs nor waits to run or to be woken by a timer.
pub fn is_inactive<M: PhysMemory>(kernel: &Kernel<M>, t: usize) -> (r: bool)
    requires
        kernel.wf(),
    ensures
        r == inactive(kernel, t),
{
    if kernel.task_manager.holds(t) || kernel.timers.has_event(t) || runs_on_core(kernel, t) {
        return false;
    }
    proof {
        reveal(references_wf);
    }
    let mut c: usize = 0;
    while c < NCPU
        invariant
            c <= NCPU,
            kernel.processors@.len() == NCPU,
            forall|d: int|
                0 <= d < c ==> !(#[trigger] kernel.processors@[d]).pending_requeue@.contains(t),
        decreases NCPU - c,
    {
        if queue_contains(&kernel.processors[c].pending_requeue, t) {
            assert(kernel.processors@[c as int].pending_requeue@.contains(t));
            return false;
        }
        c = c + 1;
    }
    true
}

/// A thread is as active as it was if the scheduler was not touched.
pub proof fn lemma_inactive_same<M: PhysMemory>(kernel: &Kernel<M>, kernel0: &Kernel<M>, t: usize)
    requires
        kernel.task_manager@ == kernel0.task_manager@,
        kernel.processors@ == kernel0.processors@,
        kernel.timers.events() == kernel0.timers.events(),
    ensures
        inactive(kernel, t) == inactive(kernel0, t),
{
    if on_core(kernel, t) {
        let c = choose|c: int|
            0 <= c < NCPU && (#[trigger] kernel.processors@[c]).current == Some(t);
        assert(kernel0.processors@[c].current == Some(t));
    }
    if on_core(kernel0, t) {
        let c = choose|c: int|
            0 <= c < NCPU && (#[trigger] kernel0.processors@[c]).current == Some(t);
        assert(kernel.processors@[c].current == Some(t));
    }
    assert(waits_nowhere(kernel0, t) ==> waits_nowhere(kernel, t));
    assert(waits_nowhere(kernel, t) ==> waits_nowhere(kernel0, t));
}

/// Taking a thread out of all queues puts no other one in.
pub proof fn lemma_still_waits_nowhere<M: PhysMemory>(
    kernel: &Kernel<M>,
    kernel0: &Kernel<M>,
    t: usize,
    u: usize,
)
    requires
        schedule_wf(kernel0),
        deactivated(kernel, kernel0, t),
        waits_nowhere(kernel0, u),
    ensures
        waits_nowhere(kernel, u),
{
    without_first_leaves_others(kernel0.task_manager@, t, u);
    assert forall|c: int| 0 <= c < NCPU implies !(
    #[trigger] kernel.processors@[c]).pending_requeue@.contains(u) by {
        let queue0 = kernel0.processors@[c].pending_requeue@;
        without_all_leaves_others(queue0, queue0.len() as int, t, u);
    }
    let events0 = kernel0.timers.events();
    assert forall|i: int| 0 <= i < kernel.timers.events().len() implies (
    #[trigger] kernel.timers.events()[i]).task != u by {
        lemma_events_without(events0, events0.len() as int, t, i);
        let k = choose|k: int| 0 <= k < events0.len() && events0[k] == kernel.timers.events()[i];
        assert(events0[k].task != u);
    }
}

/// A thread without what it had in its process.
pub open spec fn stripped(task: TaskControlBlock) -> TaskControlBlock {
    TaskControlBlock { inner: TaskControlBlockInner { res: None, ..task.inner }, ..task }
}

/// `kernel` came from `kernel0` by taking from thread `t` what it had in its
/// process.
pub open spec fn retired<M: PhysMemory>(
    kernel: &Kernel<M>,
    kernel0: &Kernel<M>,
    t: usize,
) -> bool {
    &&& kernel.tasks@ == kernel0.tasks@.insert(t, stripped(kernel0.tasks@[t]))
    &&& match kernel0.tasks@[t].inner.res {
        Some(res) => res_released(kernel, kernel0, res),
        None => kernel.pool == kernel0.pool && kernel.processes@ == kernel0.processes@,
    }
    &&& *kernel == (Kernel {
        pool: kernel.pool,
        processes: kernel.processes,
        tasks: kernel.tasks,
        ..*kernel0
    })
}

/// Taking from a thread what it had in its process keeps the names sound.
proof fn lemma_retired_refs<M: PhysMemory>(kernel: &Kernel<M>, kernel0: &Kernel<M>, t: usize)
    requires
        kernel0.wf(),
        kernel0.tasks@.dom().contains(t),
        retired(kernel, kernel0, t),
    ensures
        kernel.refs_wf(),
{
    reveal(references_wf);
    let ps = kernel.processes@;
    let ps0 = kernel0.processes@;
    let ts = kernel.tasks@;
    let ts0 = kernel0.tasks@;
    let p = ts0[t].process;
    assert(ps0.dom().contains(p));
    assert(ts.dom() =~= ts0.dom());
    assert(ps.dom() =~= ps0.dom());
    assert forall|q: usize| #[trigger] ps0.dom().contains(q) implies {
        &&& ps[q].pid == ps0[q].pid
        &&& ps[q].inner.tasks@ == ps0[q].inner.tasks@
        &&& ps[q].inner.children@ == ps0[q].inner.children@
        &&& ps[q].inner.task_res_allocator@.wf()
        &&& user_space(&ps[q].inner.memory_set, kernel.phys_offset)
        &&& forall|tid: usize| #[trigger]
            ps[q].inner.task_res_allocator@.live(tid)
                <==> ps0[q].inner.task_res_allocator@.live(tid) && !(q == p
                && ts0[t].inner.res is Some && tid == ts0[t].inner.res->Some_0.tid)
    } by {
        if q == p && ts0[t].inner.res is Some {
            dealloc_frees_id(
                ps0[q].inner.task_res_allocator@,
                ts0[t].inner.res->Some_0.tid,
            );
        }
    }
    assert(processes_wf(ps, kernel.pid_allocator@, kernel.phys_offset)) by {
        assert forall|q: usize, i: int|
            #[trigger] ps.dom().contains(q) && 0 <= i < ps[q].inner.children@.len() implies ps.dom().contains(
        #[trigger] ps[q].inner.children@[i]) by {
            assert(ps0.dom().contains(ps0[q].inner.children@[i]));
        }
    }
    assert(threads_wf(ps, ts, kernel.kstack_allocator@, kernel.orphans@)) by {
        assert forall|u: usize| #[trigger] ts.dom().contains(u) implies {
            let task = ts[u];
            &&& task.kstack.id == u
            &&& task.last_cpu < NCPU
            &&& ps.dom().contains(task.process)
            &&& task.inner.res matches Some(res) ==> {
                let inner = ps[task.process].inner;
                &&& res.process == task.process
                &&& res.wf()
                &&& inner.task_res_allocator@.live(res.tid)
                &&& res.tid < inner.tasks@.len()
                &&& inner.tasks@[res.tid as int] == Some(u)
            }
        } by {
            assert(ts0.dom().contains(u));
            assert(ps0.dom().contains(ts0[u].process));
        }
        assert forall|q: usize, i: int|
            #[trigger] ps.dom().contains(q) && 0 <= i < ps[q].inner.tasks@.len() && (
            #[trigger] ps[q].inner.tasks@[i]) is Some implies {
            let u = ps[q].inner.tasks@[i]->Some_0;
            &&& ts.dom().contains(u)
            &&& ts[u].process == q
        } by {
            assert(ps0.dom().contains(q));
            assert(ps0[q].inner.tasks@[i] is Some);
        }
        assert forall|q: usize, i: int, j: int|
            #[trigger] ps.dom().contains(q) && 0 <= i < ps[q].inner.tasks@.len() && 0 <= j
                < ps[q].inner.tasks@.len() && (#[trigger] ps[q].inner.tasks@[i]) is Some
                && ps[q].inner.tasks@[i] == (#[trigger] ps[q].inner.tasks@[j]) implies i == j by {
            assert(ps0.dom().contains(q));
        }
    }
    lemma_schedule_kept(kernel, kernel0);
    assert(names_wf(kernel)) by {
        assert forall|u: usize| #[trigger]
            ts.dom().contains(u) && !kernel.pid2process@.dom().contains(
                ts[u].process,
            ) implies ts[u].inner.res is None by {
            assert(ts0.dom().contains(u));
        }
    }
}

/// Take from thread `t` what it has in its process: its number and its user stack.
pub fn retire<M: PhysMemory>(kernel: &mut Kernel<M>, t: usize)
    requires
        old(kernel).wf(),
        old(kernel).tasks@.dom().contains(t),
    ensures
        final(kernel).wf(),
        retired(final(kernel), old(kernel), t),
{
    let ghost k0 = *kernel;
    let mut task = kernel.tasks.remove(&t).unwrap();
    let res: Option<TaskUserRes> = task.inner.res;
    task.inner.res = None;
    kernel.tasks.insert(t, task);
    proof {
        reveal(references_wf);
        assert(kernel.tasks@ =~= k0.tasks@.insert(t, stripped(k0.tasks@[t])));
        lemma_memory_kept(kernel, &k0);
    }
    if let Some(res) = res {
        res.release(kernel);
    }
    proof {
        lemma_retired_refs(kernel, &k0, t);
    }
}

/// `kernel` came from `kernel0` by taking thread `t` out of the ready queue, the
/// timers and the queues of all processors.
pub open spec fn deactivated<M: PhysMemory>(
    kernel: &Kernel<M>,
    kernel0: &Kernel<M>,
    t: usize,
) -> bool {
    &&& kernel.task_manager@ == without_first(kernel0.task_manager@, t)
    &&& kernel.timers.events() == events_without(
        kernel0.timers.events(),
        kernel0.timers.events().len() as int,
        t,
    )
    &&& kernel.timers.ticks() == kernel0.timers.ticks()
    &&& nowhere_pending(kernel.processors@, kernel0.processors@, t, NCPU as int)
    &&& *kernel == (Kernel {
        task_manager: kernel.task_manager,
        timers: kernel.timers,
        processors: kernel.processors,
        ..*kernel0
    })
}

proof fn lemma_events_without(events: Seq<TimerCondVar>, n: int, t: usize, i: int)
    requires
        0 <= n <= events.len(),
        0 <= i < events_without(events, n, t).len(),
    ensures
        events_without(events, n, t)[i].task != t,
        exists|k: int| 0 <= k < n && events[k] == events_without(events, n, t)[i],
    decreases n,
{
    if n > 0 {
        let before = events_without(events, n - 1, t);
        if i < before.len() {
            lemma_events_without(events, n - 1, t, i);
            let k = choose|k: int| 0 <= k < n - 1 && events[k] == before[i];
            assert(0 <= k < n && events[k] == events_without(events, n, t)[i]);
        } else {
            assert(events[n - 1] == events_without(events, n, t)[i]);
        }
    }
}

proof fn lemma_without_all_distinct(queue: Seq<usize>, n: int, t: usize)
    requires
        0 <= n <= queue.len(),
        queue.no_duplicates(),
    ensures
        without_all(queue, n, t).no_duplicates(),
    decreases n,
{
    if n > 0 {
        lemma_without_all_distinct(queue, n - 1, t);
        if queue[n - 1] != t {
            without_all_leaves_others(queue, n - 1, t, queue[n - 1]);
            let before = without_all(queue, n - 1, t);
            let last = queue[n - 1];
            if before.contains(last) {
                let k = choose|k: int| 0 <= k < n - 1 && queue[k] == last;
                assert(queue[k] != queue[n - 1]);
            }
        }
    }
}

proof fn lemma_deactivated<M: PhysMemory>(kernel: &Kernel<M>, kernel0: &Kernel<M>, t: usize)
    requires
        kernel0.wf(),
        deactivated(kernel, kernel0, t),
    ensures
        kernel.wf(),
        waits_nowhere(kernel, t),
{
    reveal(references_wf);
    let ready0 = kernel0.task_manager@;
    let ready = kernel.task_manager@;
    without_first_leaves_others(ready0, t, t);
    assert forall|u: usize| #[trigger] ready.contains(u) <==> ready0.contains(u) && u != t by {
        without_first_leaves_others(ready0, t, u);
    }
    assert forall|i: int| 0 <= i < ready.len() implies known(
        kernel.tasks@,
        #[trigger] ready[i],
    ) by {
        assert(ready.contains(ready[i]));
        let k = choose|k: int| 0 <= k < ready0.len() && ready0[k] == ready[i];
        assert(known(kernel0.tasks@, ready0[k]));
    }
    assert forall|c: int| 0 <= c < NCPU implies #[trigger] processor_wf(kernel, c)
        && !kernel.processors@[c].pending_requeue@.contains(t) by {
        assert(processor_wf(kernel0, c));
        let queue0 = kernel0.processors@[c].pending_requeue@;
        let queue = kernel.processors@[c].pending_requeue@;
        lemma_without_all_distinct(queue0, queue0.len() as int, t);
        without_all_leaves_others(queue0, queue0.len() as int, t, t);
        assert forall|i: int| 0 <= i < queue.len() implies parked(
            kernel,
            c,
            #[trigger] queue[i],
        ) by {
            assert(queue.contains(queue[i]));
            without_all_leaves_others(queue0, queue0.len() as int, t, queue[i]);
            let k = choose|k: int| 0 <= k < queue0.len() && queue0[k] == queue[i];
            assert(parked(kernel0, c, queue0[k]));
        }
        if kernel0.processors@[c].current is Some {
            assert(parked(kernel0, c, kernel0.processors@[c].current->Some_0));
        }
    }
    let events0 = kernel0.timers.events();
    let events = kernel.timers.events();
    assert forall|i: int| 0 <= i < events.len() implies known(
        kernel.tasks@,
        (#[trigger] events[i]).task,
    ) && events[i].task != t by {
        lemma_events_without(events0, events0.len() as int, t, i);
        let k = choose|k: int| 0 <= k < events0.len() && events0[k] == events[i];
        assert(known(kernel0.tasks@, events0[k].task));
    }
    lemma_memory_kept(kernel, kernel0);
    lemma_refs_kept(kernel, kernel0);
    assert forall|c: int| 0 <= c < NCPU implies !(
    #[trigger] kernel.processors@[c]).pending_requeue@.contains(t) by {
        assert(processor_wf(kernel, c));
    }
}

/// Take a thread that waits to run, or to be woken by a timer, out of all queues:
/// its process ends.
pub fn remove_inactive_task<M: PhysMemory>(kernel: &mut Kernel<M>, t: usize)
    requires
        old(kernel).wf(),
    ensures
        final(kernel).wf(),
        deactivated(final(kernel), old(kernel), t),
        waits_nowhere(final(kernel), t),
{
    let ghost k0 = *kernel;
    proof {
        reveal(references_wf);
    }
    remove_task(kernel, t);
    kernel.timers.remove_timer(t);
    remove_from_all_pending(kernel, t);
    proof {
        lemma_deactivated(kernel, &k0, t);
    }
}

/// Whether the console names thread `t`, which waits for a byte.
pub open spec fn at_console<M: PhysMemory>(kernel: &Kernel<M>, t: usize) -> bool {
    kernel.console.condvar.inner.wait_queue@.contains(t)
}

/// The threads of `list` that the console names, if `named`, or else the others.
pub open spec fn by_console<M: PhysMemory>(
    kernel: &Kernel<M>,
    list: Seq<usize>,
    named: bool,
) -> Seq<usize> {
    list.filter(|t: usize| at_console(kernel, t) == named)
}

/// `kernel` came from `kernel0` by letting go of the threads of `list`, in this order:
/// those that the console names become orphans, the kernel stacks of the others are
/// given back.
pub open spec fn threads_gone<M: PhysMemory>(
    kernel: &Kernel<M>,
    kernel0: &Kernel<M>,
    list: Seq<usize>,
) -> bool {
    let given_back = by_console(kernel0, list, false);
    &&& kernel.orphans@ == kernel0.orphans@ + by_console(kernel0, list, true)
    &&& kernel.kstack_allocator@ == (IdView {
        recycled: kernel0.kstack_allocator@.recycled + given_back,
        ..kernel0.kstack_allocator@
    })
    &&& stacks_freed(kernel, kernel0, given_back)
}

/// `kernel` came from `kernel0` by dropping thread `t`.
pub open spec fn thread_dropped<M: PhysMemory>(
    kernel: &Kernel<M>,
    kernel0: &Kernel<M>,
    t: usize,
) -> bool {
    &&& kernel.tasks@ == kernel0.tasks@.remove(t)
    &&& threads_gone(kernel, kernel0, seq![t])
    &&& *kernel == (Kernel {
        pool: kernel.pool,
        kernel_space: kernel.kernel_space,
        kstack_allocator: kernel.kstack_allocator,
        orphans: kernel.orphans,
        tasks: kernel.tasks,
        ..*kernel0
    })
}

/// The areas without those of the kernel stacks `ids`.
pub open spec fn areas_less_stacks(areas: Seq<AreaView>, ids: Seq<usize>) -> Seq<AreaView>
    decreases ids.len(),
{
    if ids.len() == 0 {
        areas
    } else {
        let before = areas_less_stacks(areas, ids.drop_last());
        before.remove(area_index(before, stack_page(ids.last()), 0))
    }
}

/// The addresses of the pages of the kernel stacks `ids`.
pub open spec fn stack_addresses(ids: Seq<usize>) -> Seq<u64>
    decreases ids.len(),
{
    if ids.len() == 0 {
        Seq::empty()
    } else {
        stack_addresses(ids.drop_last()) + page_addresses(
            stack_page(ids.last()),
            stack_area(ids.last()).end,
        )
    }
}

/// The kernel stacks `ids` are unmapped, in this order, their pages are noted as
/// stale, and their frames can be handed out again. The other areas of the kernel
/// stay, and nothing but the kernel's tables was touched.
pub open spec fn stacks_freed<M: PhysMemory>(
    kernel: &Kernel<M>,
    kernel0: &Kernel<M>,
    ids: Seq<usize>,
) -> bool {
    &&& kernel.kernel_space.areas() == areas_less_stacks(kernel0.kernel_space.areas(), ids)
    &&& kernel.kernel_space.table().stale() == kernel0.kernel_space.table().stale()
        + stack_addresses(ids)
    &&& kernel.kernel_space.root() == kernel0.kernel_space.root()
    &&& kernel.kernel_space.table().slots() == kernel0.kernel_space.table().slots()
    &&& confined(&kernel.pool, &kernel0.pool, kernel0.kernel_space.owned())
    &&& forall|f: u64| #[trigger]
        kernel.kernel_space.owned().contains(f) ==> kernel0.kernel_space.owned().contains(f)
    &&& kernel0.pool.free().subset_of(kernel.pool.free())
    &&& kernel.pool.free_count() == kernel0.pool.free_count() + 2 * ids.len()
}

/// Giving back one more stack.
proof fn lemma_stacks_freed_more<M: PhysMemory>(
    k2: &Kernel<M>,
    k1: &Kernel<M>,
    kernel0: &Kernel<M>,
    ids: Seq<usize>,
    t: usize,
)
    requires
        stacks_freed(k1, kernel0, ids),
        stacks_freed(k2, k1, seq![t]),
    ensures
        stacks_freed(k2, kernel0, ids.push(t)),
{
    let one = seq![t];
    assert(one.drop_last() =~= Seq::empty());
    assert(ids.push(t).drop_last() =~= ids);
    reveal_with_fuel(areas_less_stacks, 2);
    reveal_with_fuel(stack_addresses, 2);
    assert(k2.kernel_space.table().stale() =~= kernel0.kernel_space.table().stale()
        + stack_addresses(ids.push(t)));
    lemma_confined_trans(
        &k2.pool,
        &k1.pool,
        &kernel0.pool,
        k1.kernel_space.owned(),
        kernel0.kernel_space.owned(),
    );
}

/// Letting go of no thread.
pub proof fn lemma_no_threads_gone<M: PhysMemory>(kernel: &Kernel<M>)
    ensures
        threads_gone(kernel, kernel, Seq::empty()),
{
    reveal(Seq::filter);
    assert(kernel.kernel_space.table().stale() =~= kernel.kernel_space.table().stale()
        + stack_addresses(Seq::empty()));
    assert(kernel.orphans@ =~= kernel.orphans@ + Seq::<usize>::empty());
    assert(kernel.kstack_allocator@.recycled =~= kernel.kstack_allocator@.recycled + Seq::<
        usize,
    >::empty());
}

/// What the console names of one thread.
proof fn lemma_one_by_console<M: PhysMemory>(kernel: &Kernel<M>, t: usize, named: bool)
    ensures
        by_console(kernel, seq![t], named) == if at_console(kernel, t) == named {
            seq![t]
        } else {
            Seq::empty()
        },
{
    reveal(Seq::filter);
    reveal_with_fuel(Seq::filter, 2);
    let one = seq![t];
    assert(one.drop_last() =~= Seq::empty());
    assert(by_console(kernel, one, named) =~= if at_console(kernel, t) == named {
        seq![t]
    } else {
        Seq::empty()
    });
}

/// Letting go of threads leaves the kernel stack of every thread that the console names
/// in use: its number is not handed out again.
pub proof fn console_keeps_stacks<M: PhysMemory>(
    kernel: &Kernel<M>,
    kernel0: &Kernel<M>,
    list: Seq<usize>,
    t: usize,
)
    requires
        threads_gone(kernel, kernel0, list),
        kernel0.kstack_allocator@.live(t),
        at_console(kernel0, t),
    ensures
        kernel.kstack_allocator@.live(t),
{
    let before = kernel0.kstack_allocator@.recycled;
    let given_back = by_console(kernel0, list, false);
    if (before + given_back).contains(t) {
        let i = choose|i: int|
            0 <= i < (before + given_back).len() && (before + given_back)[i] == t;
        if i < before.len() {
            assert(before[i] == t);
        } else {
            list.lemma_filter_pred(|u: usize| at_console(kernel0, u) == false, i - before.len());
        }
    }
}

/// Letting go of one more thread.
pub proof fn lemma_threads_gone_more<M: PhysMemory>(
    k2: &Kernel<M>,
    k1: &Kernel<M>,
    kernel0: &Kernel<M>,
    list: Seq<usize>,
    t: usize,
)
    requires
        threads_gone(k1, kernel0, list),
        threads_gone(k2, k1, seq![t]),
        k1.console == kernel0.console,
    ensures
        threads_gone(k2, kernel0, list.push(t)),
{
    reveal(Seq::filter);
    let more = list.push(t);
    assert(more.drop_last() =~= list);
    lemma_one_by_console(k1, t, false);
    lemma_one_by_console(k1, t, true);
    let before = by_console(kernel0, list, false);
    assert(by_console(kernel0, more, false) =~= if at_console(kernel0, t) {
        before
    } else {
        before.push(t)
    });
    assert(by_console(kernel0, more, true) =~= if at_console(kernel0, t) {
        by_console(kernel0, list, true).push(t)
    } else {
        by_console(kernel0, list, true)
    });
    assert(k2.orphans@ =~= kernel0.orphans@ + by_console(kernel0, more, true));
    assert(k2.kstack_allocator@.recycled =~= kernel0.kstack_allocator@.recycled + by_console(
        kernel0,
        more,
        false,
    ));
    if at_console(kernel0, t) {
        lemma_stacks_same(k2, k1, kernel0, before);
    } else {
        lemma_stacks_freed_more(k2, k1, kernel0, before, t);
    }
}

/// Giving back no stack more.
proof fn lemma_stacks_same<M: PhysMemory>(
    k2: &Kernel<M>,
    k1: &Kernel<M>,
    kernel0: &Kernel<M>,
    ids: Seq<usize>,
)
    requires
        stacks_freed(k1, kernel0, ids),
        stacks_freed(k2, k1, Seq::empty()),
    ensures
        stacks_freed(k2, kernel0, ids),
{
    assert(k2.kernel_space.table().stale() =~= kernel0.kernel_space.table().stale()
        + stack_addresses(ids));
    lemma_confined_trans(
        &k2.pool,
        &k1.pool,
        &kernel0.pool,
        k1.kernel_space.owned(),
        kernel0.kernel_space.owned(),
    );
}

/// Dropping a thread that is not active keeps the scheduler sound.
proof fn lemma_dropped_schedule<M: PhysMemory>(kernel: &Kernel<M>, kernel0: &Kernel<M>, t: usize)
    requires
        schedule_wf(kernel0),
        inactive(kernel0, t),
        kernel.tasks@ == kernel0.tasks@.remove(t),
        kernel.processes@ == kernel0.processes@,
        kernel.task_manager@ == kernel0.task_manager@,
        kernel.processors@ == kernel0.processors@,
        kernel.timers.events() == kernel0.timers.events(),
    ensures
        schedule_wf(kernel),
{
    assert forall|c: int| 0 <= c < NCPU implies #[trigger] processor_wf(kernel, c) by {
        assert(processor_wf(kernel0, c));
        assert(kernel0.processors@[c].current != Some(t));
        assert forall|u: usize| #[trigger]
            parked(kernel0, c, u) && (kernel0.processors@[c].pending_requeue@.contains(u)
                || kernel0.processors@[c].current == Some(u)) implies parked(kernel, c, u) by {
            assert(u != t);
        }
        lemma_processor_kept(kernel, kernel0, c);
    }
    assert forall|i: int| 0 <= i < kernel.task_manager@.len() implies known(
        kernel.tasks@,
        #[trigger] kernel.task_manager@[i],
    ) by {
        assert(kernel0.task_manager@.contains(kernel0.task_manager@[i]));
        assert(known(kernel0.tasks@, kernel0.task_manager@[i]));
    }
    assert forall|i: int| 0 <= i < kernel.timers.events().len() implies known(
        kernel.tasks@,
        (#[trigger] kernel.timers.events()[i]).task,
    ) by {
        assert(known(kernel0.tasks@, kernel0.timers.events()[i].task));
    }
}

proof fn lemma_dropped_refs<M: PhysMemory>(kernel: &Kernel<M>, kernel0: &Kernel<M>, t: usize)
    requires
        kernel0.wf(),
        kernel0.tasks@.dom().contains(t),
        kernel0.tasks@[t].inner.res is None,
        inactive(kernel0, t),
        forall|i: int|
            0 <= i < kernel0.processes@[kernel0.tasks@[t].process].inner.tasks@.len()
                ==> #[trigger] kernel0.processes@[kernel0.tasks@[t].process].inner.tasks@[i] != Some(
                t,
            ),
        thread_dropped(kernel, kernel0, t),
    ensures
        kernel.refs_wf(),
{
    reveal(references_wf);
    let ps = kernel0.processes@;
    let ts = kernel.tasks@;
    let ts0 = kernel0.tasks@;
    assert(kernel0.kstack_allocator@.wf()) by {
        reveal(memory_wf);
    }
    lemma_one_by_console(kernel0, t, true);
    lemma_one_by_console(kernel0, t, false);
    if at_console(kernel0, t) {
        assert(kernel.kstack_allocator@.recycled =~= kernel0.kstack_allocator@.recycled);
    } else {
        dealloc_frees_id(kernel0.kstack_allocator@, t);
        assert(kernel.kstack_allocator@ =~= kernel0.kstack_allocator@.after_dealloc(t));
        assert(kernel.orphans@ =~= kernel0.orphans@);
    }
    assert(threads_wf(ps, ts, kernel.kstack_allocator@, kernel.orphans@)) by {
        assert forall|q: usize, i: int|
            #[trigger] ps.dom().contains(q) && 0 <= i < ps[q].inner.tasks@.len() && (
            #[trigger] ps[q].inner.tasks@[i]) is Some implies {
            let u = ps[q].inner.tasks@[i]->Some_0;
            &&& ts.dom().contains(u)
            &&& ts[u].process == q
        } by {
            let u = ps[q].inner.tasks@[i]->Some_0;
            assert(ts0.dom().contains(u) && ts0[u].process == q);
            assert(u != t);
        }
        assert forall|u: usize| #[trigger] ts.dom().contains(u) implies {
            let task = ts[u];
            &&& task.kstack.id == u
            &&& task.last_cpu < NCPU
            &&& ps.dom().contains(task.process)
            &&& task.inner.res matches Some(res) ==> {
                let inner = ps[task.process].inner;
                &&& res.process == task.process
                &&& res.wf()
                &&& inner.task_res_allocator@.live(res.tid)
                &&& res.tid < inner.tasks@.len()
                &&& inner.tasks@[res.tid as int] == Some(u)
            }
        } by {
            assert(ts0.dom().contains(u));
        }
        assert forall|u: usize| #[trigger]
            kernel.orphans@.contains(u) <==> kernel0.orphans@.contains(u) || u == t && at_console(
                kernel0,
                t,
            ) by {
            if at_console(kernel0, t) {
                assert(kernel.orphans@ =~= kernel0.orphans@.push(t));
                if kernel0.orphans@.contains(u) {
                    let i = choose|i: int| 0 <= i < kernel0.orphans@.len() && kernel0.orphans@[i] == u;
                    assert(kernel.orphans@[i] == u);
                }
                assert(kernel.orphans@[kernel0.orphans@.len() as int] == t);
                if kernel.orphans@.contains(u) {
                    let i = choose|i: int| 0 <= i < kernel.orphans@.len() && kernel.orphans@[i] == u;
                    if i < kernel0.orphans@.len() {
                        assert(kernel0.orphans@[i] == u);
                    }
                }
            }
        }
        assert forall|u: usize| #[trigger]
            ts.dom().contains(u) <==> kernel.kstack_allocator@.live(u)
                && !kernel.orphans@.contains(u) by {
            assert(ts0.dom().contains(u) <==> kernel0.kstack_allocator@.live(u)
                && !kernel0.orphans@.contains(u));
            assert(kernel.orphans@.contains(u) <==> kernel0.orphans@.contains(u) || u == t
                && at_console(kernel0, t));
        }
    }
    assert(schedule_wf(kernel)) by {
        lemma_dropped_schedule(kernel, kernel0, t);
    }
    assert(names_wf(kernel)) by {
        assert forall|u: usize| #[trigger]
            ts.dom().contains(u) && !kernel.pid2process@.dom().contains(
                ts[u].process,
            ) implies ts[u].inner.res is None by {
            assert(ts0.dom().contains(u));
        }
    }
}

/// Drop a thread that has exited, is not active and is no longer listed in its process.
/// Its kernel stack is given back, unless the console names the thread.
pub fn drop_thread<M: PhysMemory>(kernel: &mut Kernel<M>, t: usize)
    requires
        old(kernel).wf(),
        old(kernel).tasks@.dom().contains(t),
        old(kernel).tasks@[t].inner.res is None,
        inactive(old(kernel), t),
        forall|i: int|
            0 <= i < old(kernel).processes@[old(kernel).tasks@[t].process].inner.tasks@.len()
                ==> #[trigger] old(kernel).processes@[old(
                kernel,
            ).tasks@[t].process].inner.tasks@[i] != Some(t),
    ensures
        final(kernel).wf(),
        thread_dropped(final(kernel), old(kernel), t),
{
    let ghost k0 = *kernel;
    let task = kernel.tasks.remove(&t).unwrap();
    proof {
        reveal(references_wf);
        lemma_memory_kept(kernel, &k0);
        assert(k0.kstack_allocator@.live(t));
    }
    if queue_contains(&kernel.console.condvar.inner.wait_queue, t) {
        kernel.orphans.push(t);
        proof {
            lemma_memory_kept(kernel, &k0);
            lemma_no_threads_gone(&k0);
            assert(kernel.kernel_space.table().stale() =~= k0.kernel_space.table().stale()
                + stack_addresses(Seq::empty()));
        }
    } else {
        task.kstack.release(kernel);
        proof {
            let one = seq![t];
            assert(one.drop_last() =~= Seq::empty());
            reveal_with_fuel(areas_less_stacks, 2);
            reveal_with_fuel(stack_addresses, 2);
            assert(kernel.kernel_space.table().stale() =~= k0.kernel_space.table().stale()
                + stack_addresses(one));
        }
    }
    proof {
        lemma_one_by_console(&k0, t, true);
        lemma_one_by_console(&k0, t, false);
        assert(kernel.orphans@ =~= k0.orphans@ + by_console(&k0, seq![t], true));
        assert(kernel.kstack_allocator@.recycled =~= k0.kstack_allocator@.recycled + by_console(
            &k0,
            seq![t],
            false,
        ));
        lemma_dropped_refs(kernel, &k0, t);
    }
}

} // verus!
