//! Leaving queues, and the order of timers.
use vstd::prelude::*;
use crate::task::manager::{first_position, without_all, without_first};
use crate::timer::{events_without, expired_tasks, first_event, pending_events, TimerCondVar};

verus! {

/// A thread that is taken out of a queue leaves the first place where it is listed; the
/// threads behind it move up by one place, and the others stay. A thread that is not
/// listed cannot be taken out.
pub proof fn leaving_a_queue_keeps_its_order(queue: Seq<usize>, task: usize, i: int)
    requires
        0 <= i <= queue.len(),
        i < queue.len() ==> queue[i] == task,
        forall|j: int| 0 <= j < i ==> #[trigger] queue[j] != task,
    ensures
        i < queue.len() ==> without_first(queue, task).len() == queue.len() - 1,
        i < queue.len() ==> forall|j: int|
            0 <= j < queue.len() - 1 ==> #[trigger] without_first(queue, task)[j] == queue[if j < i {
                j
            } else {
                j + 1
            }],
        i == queue.len() ==> without_first(queue, task) == queue,
{
    lemma_first_position(queue, task, 0, i);
}

proof fn lemma_first_position(queue: Seq<usize>, task: usize, from: int, i: int)
    requires
        0 <= from <= i <= queue.len(),
        i < queue.len() ==> queue[i] == task,
        forall|j: int| from <= j < i ==> #[trigger] queue[j] != task,
    ensures
        first_position(queue, task, from) == i,
    decreases i - from,
{
    if from < i {
        assert(queue[from] != task);
        lemma_first_position(queue, task, from + 1, i);
    }
}

/// A thread that is taken out of a queue everywhere leaves the other threads in their
/// order.
pub proof fn leaving_everywhere_keeps_the_others(queue: Seq<usize>, task: usize)
    ensures
        without_all(queue, queue.len() as int, task) == queue.filter(|u: usize| u != task),
{
    lemma_without_all(queue, queue.len() as int, task);
    assert(queue.take(queue.len() as int) =~= queue);
}

proof fn lemma_without_all(queue: Seq<usize>, n: int, task: usize)
    requires
        0 <= n <= queue.len(),
    ensures
        without_all(queue, n, task) == queue.take(n).filter(|u: usize| u != task),
    decreases n,
{
    reveal(Seq::filter);
    if n > 0 {
        lemma_without_all(queue, n - 1, task);
        assert(queue.take(n).drop_last() =~= queue.take(n - 1));
        assert(queue.take(n).last() == queue[n - 1]);
    }
}

/// A thread whose timers are cancelled has none; the timers of the others stay.
pub proof fn cancelled_timers_are_gone(events: Seq<TimerCondVar>, task: usize)
    ensures
        events_without(events, events.len() as int, task) == events.filter(
            |e: TimerCondVar| e.task != task,
        ),
{
    lemma_events_without(events, events.len() as int, task);
    assert(events.take(events.len() as int) =~= events);
}

proof fn lemma_events_without(events: Seq<TimerCondVar>, n: int, task: usize)
    requires
        0 <= n <= events.len(),
    ensures
        events_without(events, n, task) == events.take(n).filter(
            |e: TimerCondVar| e.task != task,
        ),
    decreases n,
{
    reveal(Seq::filter);
    if n > 0 {
        lemma_events_without(events, n - 1, task);
        assert(events.take(n).drop_last() =~= events.take(n - 1));
        assert(events.take(n).last() == events[n - 1]);
    }
}

/// The event that `first_event` finds is the earliest.
proof fn lemma_earliest(events: Seq<TimerCondVar>, n: int)
    requires
        0 < n <= events.len(),
    ensures
        0 <= first_event(events, n) < n,
        forall|k: int|
            0 <= k < n ==> events[first_event(events, n)].expire_ms <= (
            #[trigger] events[k]).expire_ms,
    decreases n,
{
    if n > 1 {
        lemma_earliest(events, n - 1);
    }
}

/// Threads are woken in the order in which their times come: the first one that is woken
/// has the earliest time of all, and the others are woken as if it had not been there. If
/// no time has come, none is woken and no timer is lost.
pub proof fn timers_expire_in_order(events: Seq<TimerCondVar>, now: int) -> (i: int)
    ensures
        (exists|k: int| 0 <= k < events.len() && (#[trigger] events[k]).expire_ms <= now) ==> {
            &&& 0 <= i < events.len()
            &&& forall|k: int|
                0 <= k < events.len() ==> events[i].expire_ms <= (#[trigger] events[k]).expire_ms
            &&& expired_tasks(events, now).len() > 0
            &&& expired_tasks(events, now)[0] == events[i].task
            &&& expired_tasks(events, now).drop_first() == expired_tasks(events.remove(i), now)
            &&& pending_events(events, now) == pending_events(events.remove(i), now)
        },
        (forall|k: int| 0 <= k < events.len() ==> (#[trigger] events[k]).expire_ms > now) ==> {
            &&& expired_tasks(events, now).len() == 0
            &&& pending_events(events, now) == events
        },
{
    if events.len() > 0 {
        lemma_earliest(events, events.len() as int);
    }
    let i = first_event(events, events.len() as int);
    if exists|k: int| 0 <= k < events.len() && (#[trigger] events[k]).expire_ms <= now {
        let k = choose|k: int| 0 <= k < events.len() && (#[trigger] events[k]).expire_ms <= now;
        assert(events[i].expire_ms <= events[k].expire_ms);
        assert(expired_tasks(events, now).drop_first() =~= expired_tasks(events.remove(i), now));
    }
    i
}

/// Every timer either wakes its thread or goes on.
pub proof fn no_timer_is_lost(events: Seq<TimerCondVar>, now: int)
    ensures
        expired_tasks(events, now).len() + pending_events(events, now).len() == events.len(),
    decreases events.len(),
{
    if events.len() > 0 {
        lemma_earliest(events, events.len() as int);
        let i = first_event(events, events.len() as int);
        if events[i].expire_ms <= now {
            no_timer_is_lost(events.remove(i), now);
        }
    }
}

} // verus!
