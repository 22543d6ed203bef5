//! Condition variables.
use std::collections::VecDeque;
use vstd::prelude::*;
use super::mutex::{lock_released, Mutex};

verus! {

/// The state of a condition variable.
#[derive(Debug)]
pub struct CondvarInner {
    /// the threads that wait, in the order in which they came
    pub wait_queue: VecDeque<usize>,
}

/// A condition variable.
#[derive(Debug)]
pub struct Condvar {
    pub inner: CondvarInner,
}

/// The threads that wait for a condition, after it was signaled and woke thread `r`.
pub open spec fn signaled(before: Seq<usize>, after: Seq<usize>, r: Option<usize>) -> bool {
    match r {
        Some(task) => before.len() > 0 && task == before[0] && after == before.drop_first(),
        None => before.len() == 0 && after == before,
    }
}

/// The threads that wait for a condition, after one more has begun to wait.
pub open spec fn queued(before: Seq<usize>, after: Seq<usize>, current: usize) -> bool {
    after == before.push(current)
}

impl Condvar {
    /// A condition variable on which no thread waits.
    pub fn new() -> (r: Self)
        ensures
            r.inner.wait_queue@ == Seq::<usize>::empty(),
    {
        let r = Self { inner: CondvarInner { wait_queue: VecDeque::new() } };
        assert(r.inner.wait_queue@ =~= Seq::empty());
        r
    }

    /// Signal the condition. Returns the thread to be woken up, if one waits.
    pub fn signal(&mut self) -> (r: Option<usize>)
        ensures
            signaled(old(self).inner.wait_queue@, final(self).inner.wait_queue@, r),
    {
        let r = self.inner.wait_queue.pop_front();
        proof {
            if r is Some {
                assert(self.inner.wait_queue@ =~= old(self).inner.wait_queue@.drop_first());
            }
        }
        r
    }

    /// Release `mutex` and let thread `current` wait. Returns the thread that
    /// gets the mutex and is to be woken up, if one slept for it. Thread
    /// `current` sleeps until it is signaled and then asks for the mutex again.
    pub fn wait<L: Mutex>(&mut self, mutex: &mut L, current: usize) -> (r: Option<usize>)
        requires
            old(mutex).releasable(),
        ensures
            queued(old(self).inner.wait_queue@, final(self).inner.wait_queue@, current),
            lock_released(old(mutex).waiting(), final(mutex).held(), final(mutex).waiting(), r),
    {
        let woken = mutex.unlock();
        self.inner.wait_queue.push_back(current);
        woken
    }

    /// Let thread `current` wait. The caller puts it to sleep once it has
    /// dropped the lock it holds, so that a signal from an interrupt cannot
    /// miss it.
    pub fn wait_no_sched(&mut self, current: usize)
        ensures
            queued(old(self).inner.wait_queue@, final(self).inner.wait_queue@, current),
    {
        self.inner.wait_queue.push_back(current);
    }
}

} // verus!
