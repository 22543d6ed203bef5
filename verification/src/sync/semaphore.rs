//! Counting semaphores.
use std::collections::VecDeque;
use vstd::prelude::*;

verus! {

/// The state of a semaphore.
#[derive(Debug)]
pub struct SemaphoreInner {
    /// the number of free resources, or less 0 the number of waiters
    pub count: isize,
    /// the threads that sleep for a resource, in the order in which they asked
    pub wait_queue: VecDeque<usize>,
}

/// A counting semaphore.
#[derive(Debug)]
pub struct Semaphore {
    pub inner: SemaphoreInner,
}

/// What a semaphore holds: its count and the threads that sleep, in the order in
/// which they asked.
#[verifier::ext_equal]
pub struct SemaphoreView {
    pub count: int,
    pub waiting: Seq<usize>,
}

impl SemaphoreView {
    /// The thread that releasing a resource wakes up: the one that has slept longest.
    pub open spec fn wakes(self) -> Option<usize> {
        if self.count < 0 && self.waiting.len() > 0 {
            Some(self.waiting[0])
        } else {
            None
        }
    }

    /// What is held after a resource was released.
    pub open spec fn after_up(self) -> SemaphoreView {
        SemaphoreView {
            count: self.count + 1,
            waiting: if self.wakes() is Some {
                self.waiting.drop_first()
            } else {
                self.waiting
            },
        }
    }

    /// Whether a thread that asks for a resource has to sleep.
    pub open spec fn blocks(self) -> bool {
        self.count <= 0
    }

    /// What is held after thread `task` asked for a resource.
    pub open spec fn after_down(self, task: usize) -> SemaphoreView {
        SemaphoreView {
            count: self.count - 1,
            waiting: if self.blocks() {
                self.waiting.push(task)
            } else {
                self.waiting
            },
        }
    }
}

/// What is done to a semaphore.
pub enum SemaphoreEvent {
    Up,
    Down(usize),
}

/// A semaphore together with what was done to it.
pub struct SemaphoreRun {
    pub semaphore: SemaphoreView,
    /// how often a resource was released
    pub ups: nat,
    /// how often a resource was asked for
    pub downs: nat,
    /// the threads that were put to sleep, in order
    pub slept: Seq<usize>,
    /// the threads that were woken up, in order
    pub woken: Seq<usize>,
}

impl SemaphoreRun {
    /// What is left after `event`.
    pub open spec fn step(self, event: SemaphoreEvent) -> SemaphoreRun {
        match event {
            SemaphoreEvent::Up => SemaphoreRun {
                semaphore: self.semaphore.after_up(),
                ups: self.ups + 1,
                woken: match self.semaphore.wakes() {
                    Some(task) => self.woken.push(task),
                    None => self.woken,
                },
                ..self
            },
            SemaphoreEvent::Down(task) => SemaphoreRun {
                semaphore: self.semaphore.after_down(task),
                downs: self.downs + 1,
                slept: if self.semaphore.blocks() {
                    self.slept.push(task)
                } else {
                    self.slept
                },
                ..self
            },
        }
    }

    /// What is left of a semaphore with `n` resources after `events`.
    pub open spec fn after(n: nat, events: Seq<SemaphoreEvent>) -> SemaphoreRun
        decreases events.len(),
    {
        if events.len() == 0 {
            SemaphoreRun {
                semaphore: SemaphoreView { count: n as int, waiting: Seq::empty() },
                ups: 0,
                downs: 0,
                slept: Seq::empty(),
                woken: Seq::empty(),
            }
        } else {
            SemaphoreRun::after(n, events.drop_last()).step(events.last())
        }
    }
}

/// Whatever is done to a semaphore with `n` resources, its count is `n` and the
/// releases less the requests, as many threads sleep as the count is below 0,
/// threads are woken in the order in which they were put to sleep, and a release
/// wakes one exactly if the count was below 0.
pub proof fn semaphore_counts_and_queues(n: nat, events: Seq<SemaphoreEvent>)
    ensures
        ({
            let run = SemaphoreRun::after(n, events);
            &&& run.semaphore.count == n + run.ups - run.downs
            &&& run.semaphore.waiting.len() == if run.semaphore.count < 0 {
                -run.semaphore.count
            } else {
                0
            }
            &&& run.slept == run.woken + run.semaphore.waiting
            &&& run.semaphore.wakes() is Some <==> run.semaphore.count < 0
        }),
    decreases events.len(),
{
    let run = SemaphoreRun::after(n, events);
    if events.len() > 0 {
        semaphore_counts_and_queues(n, events.drop_last());
    }
    assert(run.slept =~= run.woken + run.semaphore.waiting);
}

impl View for Semaphore {
    type V = SemaphoreView;

    open spec fn view(&self) -> SemaphoreView {
        SemaphoreView { count: self.inner.count as int, waiting: self.inner.wait_queue@ }
    }
}

impl Semaphore {
    /// Threads sleep exactly if the count is below 0, and as many as it says.
    pub open spec fn wf(&self) -> bool {
        self.inner.wait_queue@.len() == if self.inner.count < 0 {
            -self.inner.count
        } else {
            0
        }
    }

    /// A semaphore with `res_count` resources. The count wraps around if there are
    /// more than it can hold.
    pub fn new(res_count: usize) -> (r: Self)
        ensures
            r.inner.count == res_count as isize,
            r@.waiting == Seq::<usize>::empty(),
            res_count <= isize::MAX ==> r.wf() && r@ == SemaphoreRun::after(
                res_count as nat,
                Seq::empty(),
            ).semaphore,
    {
        let r = Self {
            inner: SemaphoreInner { count: res_count as isize, wait_queue: VecDeque::new() },
        };
        assert(r.inner.wait_queue@ =~= Seq::empty());
        r
    }

    /// Release a resource. Returns the thread to be woken up, if one sleeps.
    pub fn up(&mut self) -> (r: Option<usize>)
        requires
            old(self).inner.count < isize::MAX,
        ensures
            r == old(self)@.wakes(),
            final(self)@ == old(self)@.after_up(),
            old(self).wf() ==> final(self).wf() && (r is Some <==> old(self).inner.count < 0),
    {
        self.inner.count = self.inner.count + 1;
        if self.inner.count <= 0 {
            if let Some(task) = self.inner.wait_queue.pop_front() {
                assert(self.inner.wait_queue@ =~= old(self).inner.wait_queue@.drop_first());
                return Some(task);
            }
        }
        None
    }

    /// Acquire a resource for thread `current`. Returns whether the thread has
    /// to sleep for it.
    pub fn down(&mut self, current: usize) -> (blocked: bool)
        requires
            old(self).inner.count > isize::MIN,
        ensures
            blocked == old(self)@.blocks(),
            final(self)@ == old(self)@.after_down(current),
            old(self).wf() ==> final(self).wf(),
    {
        self.inner.count = self.inner.count - 1;
        if self.inner.count < 0 {
            self.inner.wait_queue.push_back(current);
            true
        } else {
            false
        }
    }
}

} // verus!
