//! Process ids.
use vstd::prelude::*;
use super::id::IdView;

verus! {

/// The allocator of pids, which start at 1.
#[derive(Debug)]
pub struct PidAllocator {
    current: usize,
    recycled: Vec<usize>,
}

/// A pid in use.
#[derive(Copy, Clone, Debug, PartialEq, Eq, Structural)]
pub struct PidHandle(pub usize);

impl View for PidAllocator {
    type V = IdView;

    closed spec fn view(&self) -> IdView {
        IdView { current: self.current as int, recycled: self.recycled@ }
    }
}

impl PidAllocator {
    /// An allocator that has handed out no pid.
    pub fn new() -> (r: Self)
        ensures
            r@ == (IdView { current: 1, recycled: Seq::empty() }),
            r@.wf(),
    {
        let r = PidAllocator { current: 1, recycled: Vec::new() };
        assert(r@.recycled =~= Seq::empty());
        r
    }

    /// Hand out a pid, a recycled one if there is one.
    pub fn alloc_pid(&mut self) -> (r: PidHandle)
        requires
            old(self)@.recycled.len() == 0 ==> old(self)@.current < usize::MAX,
        ensures
            r.0 == old(self)@.next_id(),
            final(self)@ == old(self)@.after_alloc(),
    {
        if let Some(pid) = self.recycled.pop() {
            PidHandle(pid)
        } else {
            self.current = self.current + 1;
            PidHandle(self.current - 1)
        }
    }

    /// The pid that is handed out next.
    pub fn upcoming(&self) -> (r: usize)
        ensures
            r == self@.next_id(),
    {
        let n: usize = self.recycled.len();
        if n > 0 {
            self.recycled[n - 1]
        } else {
            self.current
        }
    }

    /// Take back a pid that is in use.
    pub fn dealloc(&mut self, pid: usize)
        requires
            old(self)@.live(pid),
        ensures
            final(self)@ == old(self)@.after_dealloc(pid),
    {
        self.recycled.push(pid);
    }

    /// The bound below which all pids in use lie.
    pub fn bound(&self) -> (r: usize)
        ensures
            r == self@.current,
    {
        self.current
    }
}

/// Hand out a pid of `allocator`.
pub fn pid_alloc(allocator: &mut PidAllocator) -> (r: PidHandle)
    requires
        old(allocator)@.recycled.len() == 0 ==> old(allocator)@.current < usize::MAX,
    ensures
        r.0 == old(allocator)@.next_id(),
        final(allocator)@ == old(allocator)@.after_alloc(),
{
    allocator.alloc_pid()
}

} // verus!
