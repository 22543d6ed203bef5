//! Mutexes.
use std::collections::VecDeque;
use vstd::prelude::*;
use crate::task::manager::queue_contains;

verus! {

/// What became of a request for a lock.
#[derive(Copy, Clone, Debug, PartialEq, Eq, Structural)]
pub enum LockOutcome {
    /// the running thread has the lock
    Acquired,
    /// the running thread is to let others run and to ask again
    Yield,
    /// the running thread sleeps until the lock is handed to it
    Blocked,
}

/// What became of a lock when thread `current` asked for it: it was held or not, and
/// threads waited, before and after.
pub open spec fn lock_tried(
    held0: bool,
    waiting0: Seq<usize>,
    current: usize,
    held: bool,
    waiting: Seq<usize>,
    r: LockOutcome,
) -> bool {
    &&& held
    &&& r is Acquired <==> !held0
    &&& waiting == (if r is Blocked {
        waiting0.push(current)
    } else {
        waiting0
    })
}

/// What became of a lock when it was released: `r` is the thread that has it then.
pub open spec fn lock_released(
    waiting0: Seq<usize>,
    held: bool,
    waiting: Seq<usize>,
    r: Option<usize>,
) -> bool {
    match r {
        Some(task) => {
            &&& waiting0.len() > 0
            &&& task == waiting0[0]
            &&& waiting == waiting0.drop_first()
            &&& held
        },
        None => {
            &&& waiting0.len() == 0
            &&& waiting == waiting0
            &&& !held
        },
    }
}

/// A lock between threads.
pub trait Mutex: Sized {
    /// Whether a thread has the lock.
    spec fn held(&self) -> bool;

    /// The threads that sleep until they get the lock, in the order in which
    /// they asked.
    spec fn waiting(&self) -> Seq<usize>;

    /// Whether the lock can be released.
    spec fn releasable(&self) -> bool;

    /// Ask for the lock for thread `current`.
    fn lock(&mut self, current: usize) -> (r: LockOutcome)
        ensures
            lock_tried(
                old(self).held(),
                old(self).waiting(),
                current,
                final(self).held(),
                final(self).waiting(),
                r,
            ),
    ;

    /// Release the lock. If threads sleep for it, the first of them gets it
    /// and is to be woken up.
    fn unlock(&mut self) -> (r: Option<usize>)
        requires
            old(self).releasable(),
        ensures
            lock_released(old(self).waiting(), final(self).held(), final(self).waiting(), r),
    ;
}

/// A mutex whose waiters yield until it is free.
#[derive(Debug)]
pub struct MutexSpin {
    locked: bool,
}

impl MutexSpin {
    /// A free mutex.
    pub fn new() -> (r: Self)
        ensures
            !r.held(),
            r.waiting() == Seq::<usize>::empty(),
    {
        Self { locked: false }
    }
}

impl Mutex for MutexSpin {
    closed spec fn held(&self) -> bool {
        self.locked
    }

    closed spec fn waiting(&self) -> Seq<usize> {
        Seq::empty()
    }

    /// It can be released at any time.
    open spec fn releasable(&self) -> bool {
        true
    }

    fn lock(&mut self, current: usize) -> (r: LockOutcome)
        ensures
            r !is Blocked,
    {
        if self.locked {
            LockOutcome::Yield
        } else {
            self.locked = true;
            LockOutcome::Acquired
        }
    }

    fn unlock(&mut self) -> (r: Option<usize>) {
        self.locked = false;
        None
    }
}

/// A mutex whose waiters sleep until it is handed to them.
#[derive(Debug)]
pub struct MutexBlocking {
    locked: bool,
    wait_queue: VecDeque<usize>,
}

impl MutexBlocking {
    /// A free mutex.
    pub fn new() -> (r: Self)
        ensures
            !r.held(),
            r.waiting() == Seq::<usize>::empty(),
    {
        let r = Self { locked: false, wait_queue: VecDeque::new() };
        assert(r.waiting() =~= Seq::empty());
        r
    }

    /// Whether a thread waits for the mutex.
    pub fn waits(&self, task: usize) -> (r: bool)
        ensures
            r == self.waiting().contains(task),
    {
        queue_contains(&self.wait_queue, task)
    }
}

impl Mutex for MutexBlocking {
    closed spec fn held(&self) -> bool {
        self.locked
    }

    closed spec fn waiting(&self) -> Seq<usize> {
        self.wait_queue@
    }

    /// It can be released only while a thread has it.
    open spec fn releasable(&self) -> bool {
        self.held()
    }

    fn lock(&mut self, current: usize) -> (r: LockOutcome)
        ensures
            r !is Yield,
    {
        if self.locked {
            self.wait_queue.push_back(current);
            LockOutcome::Blocked
        } else {
            self.locked = true;
            LockOutcome::Acquired
        }
    }

    fn unlock(&mut self) -> (r: Option<usize>) {
        if let Some(waking_task) = self.wait_queue.pop_front() {
            assert(self.wait_queue@ =~= old(self).wait_queue@.drop_first());
            Some(waking_task)
        } else {
            self.locked = false;
            None
        }
    }
}

} // verus!
