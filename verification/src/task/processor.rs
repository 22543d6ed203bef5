//! Processors: what each core runs, and the threads that wait for it to save
//! their context.
use std::collections::VecDeque;
use vstd::prelude::*;
use super::context::{context_at, TaskContext};

verus! {

/// The scheduler of one core.
#[derive(Debug)]
pub struct Processor {
    /// the thread that runs on the core
    pub current: Option<usize>,
    /// the context of the loop that picks the next thread
    pub idle_task_cx: TaskContext,
    /// threads that go to the ready queue once their context is saved: those
    /// that yielded on this core, and those that ran here last and were woken
    /// up. Only the idle loop of this core takes them out, so no other core
    /// resumes a thread before its context is saved.
    pub pending_requeue: VecDeque<usize>,
    /// a process whose main thread exited on this core. The exiting thread is
    /// still on its kernel stack, so the idle loop drops the process once it
    /// has switched away.
    pub exiting_process: Option<usize>,
}

impl Processor {
    /// A processor that runs nothing.
    pub fn new() -> (r: Self)
        ensures
            r.current is None,
            r.idle_task_cx == context_at(0, 0),
            r.pending_requeue@ == Seq::<usize>::empty(),
            r.exiting_process is None,
    {
        let r = Self {
            current: None,
            idle_task_cx: TaskContext::zero_init(),
            pending_requeue: VecDeque::new(),
            exiting_process: None,
        };
        assert(r.pending_requeue@ =~= Seq::empty());
        r
    }

    /// Take the running thread.
    pub fn take_current(&mut self) -> (r: Option<usize>)
        ensures
            r == old(self).current,
            *final(self) == (Processor { current: None, ..*old(self) }),
    {
        let r = self.current;
        self.current = None;
        r
    }

    /// The running thread.
    pub fn current(&self) -> (r: Option<usize>)
        ensures
            r == self.current,
    {
        self.current
    }
}

} // verus!
