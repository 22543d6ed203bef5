//! Ids that are recycled, kernel stacks, and the user resources of a thread.
use vstd::prelude::*;
use crate::config::{
    kernel_stack_bottom_spec, kernel_stack_id_ok, kernel_stack_position, KERNEL_STACK_SIZE,
    USER_STACK_SIZE,
};
use crate::trap::context::TRAP_CONTEXT_SIZE;

verus! {

/// The state of an allocator of ids: those below `current` are or were in use,
/// and those in `recycled` were given back.
#[verifier::ext_equal]
pub struct IdView {
    pub current: int,
    pub recycled: Seq<usize>,
}

impl IdView {
    /// Every id that was given back was in use and is listed once.
    pub open spec fn wf(self) -> bool {
        &&& 0 <= self.current
        &&& self.recycled.no_duplicates()
        &&& forall|i: int| 0 <= i < self.recycled.len() ==> #[trigger] self.recycled[i] < self.current
    }

    /// Whether `id` is in use.
    pub open spec fn live(self, id: usize) -> bool {
        id < self.current && !self.recycled.contains(id)
    }

    /// The id that is handed out next.
    pub open spec fn next_id(self) -> int {
        if self.recycled.len() > 0 {
            self.recycled.last() as int
        } else {
            self.current
        }
    }

    /// The state after an id was handed out.
    pub open spec fn after_alloc(self) -> IdView {
        if self.recycled.len() > 0 {
            IdView { recycled: self.recycled.drop_last(), ..self }
        } else {
            IdView { current: self.current + 1, ..self }
        }
    }

    /// The state after `id` was given back.
    pub open spec fn after_dealloc(self, id: usize) -> IdView {
        IdView { recycled: self.recycled.push(id), ..self }
    }
}

/// The id that is handed out was not in use and now is; the others stay as
/// they were.
pub proof fn alloc_takes_unused_id(a: IdView)
    requires
        a.wf(),
        a.next_id() <= usize::MAX,
    ensures
        a.after_alloc().wf(),
        !a.live(a.next_id() as usize),
        forall|id: usize| #[trigger]
            a.after_alloc().live(id) <==> a.live(id) || id == a.next_id(),
{
    let b = a.after_alloc();
    let n = a.next_id();
    if a.recycled.len() > 0 {
        assert(a.recycled[a.recycled.len() - 1] == n);
        assert(a.recycled.contains(n as usize));
        assert forall|id: usize| #[trigger] b.live(id) <==> a.live(id) || id == n by {
            if a.recycled.contains(id) && id != n {
                let i = choose|i: int| 0 <= i < a.recycled.len() && a.recycled[i] == id;
                assert(b.recycled[i] == id);
            }
            if b.recycled.contains(id) {
                let i = choose|i: int| 0 <= i < b.recycled.len() && b.recycled[i] == id;
                assert(a.recycled[i] == id);
                if id == n {
                    assert(a.recycled[a.recycled.len() - 1] == id);
                }
            }
        }
    } else {
        assert forall|id: usize| #[trigger] b.live(id) <==> a.live(id) || id == n by {}
    }
}

/// An id that was in use and is given back is no longer in use; the others stay
/// as they were, and it is the one handed out next.
pub proof fn dealloc_frees_id(a: IdView, id: usize)
    requires
        a.wf(),
        a.live(id),
    ensures
        a.after_dealloc(id).wf(),
        forall|x: usize| #[trigger] a.after_dealloc(id).live(x) <==> a.live(x) && x != id,
        a.after_dealloc(id).next_id() == id,
        a.after_dealloc(id).after_alloc() == a,
{
    let b = a.after_dealloc(id);
    assert(b.recycled[b.recycled.len() - 1] == id);
    assert forall|x: usize| #[trigger] b.live(x) <==> a.live(x) && x != id by {
        if a.recycled.contains(x) {
            let i = choose|i: int| 0 <= i < a.recycled.len() && a.recycled[i] == x;
            assert(b.recycled[i] == x);
        }
        if b.recycled.contains(x) && x != id {
            let i = choose|i: int| 0 <= i < b.recycled.len() && b.recycled[i] == x;
            assert(a.recycled[i] == x);
        }
    }
    assert(a.recycled.push(id).drop_last() =~= a.recycled);
}

/// What is done to an allocator of ids.
pub enum IdEvent {
    Alloc,
    Dealloc(usize),
}

/// An allocator of ids together with what its users have.
pub struct IdRun {
    pub ids: IdView,
    /// the ids that were handed out and not given back
    pub out: Set<usize>,
    /// the most ids that were out at once
    pub most: nat,
}

impl IdRun {
    /// The allocator of the ids from `start` on, before anything was done to it.
    pub open spec fn start(start: usize) -> IdRun {
        IdRun {
            ids: IdView { current: start as int, recycled: Seq::empty() },
            out: Set::empty(),
            most: 0,
        }
    }

    /// Whether `event` can be next: only an id that is out is given back.
    pub open spec fn permits(self, event: IdEvent) -> bool {
        match event {
            IdEvent::Alloc => self.ids.next_id() < usize::MAX,
            IdEvent::Dealloc(id) => self.out.contains(id),
        }
    }

    /// What is left after `event`.
    pub open spec fn step(self, event: IdEvent) -> IdRun {
        match event {
            IdEvent::Alloc => {
                let out = self.out.insert(self.ids.next_id() as usize);
                IdRun {
                    ids: self.ids.after_alloc(),
                    out,
                    most: if out.len() > self.most {
                        out.len()
                    } else {
                        self.most
                    },
                }
            },
            IdEvent::Dealloc(id) => IdRun {
                ids: self.ids.after_dealloc(id),
                out: self.out.remove(id),
                ..self
            },
        }
    }

    /// What is left after `events`.
    pub open spec fn after(start: usize, events: Seq<IdEvent>) -> IdRun
        decreases events.len(),
    {
        if events.len() == 0 {
            IdRun::start(start)
        } else {
            IdRun::after(start, events.drop_last()).step(events.last())
        }
    }

    /// Whether `events` can happen one after the other.
    pub open spec fn possible(start: usize, events: Seq<IdEvent>) -> bool
        decreases events.len(),
    {
        events.len() == 0 || {
            &&& IdRun::possible(start, events.drop_last())
            &&& IdRun::after(start, events.drop_last()).permits(events.last())
        }
    }
}

/// Whatever ids are handed out and given back, the ids that are out are exactly
/// those in use from `start` on, the id handed out next is not one of them, and no
/// id is used before all lower ones were out at once: the next id is below `start`
/// plus the most ids that were out at once, itself counted.
pub proof fn ids_stay_distinct_and_low(start: usize, events: Seq<IdEvent>)
    requires
        IdRun::possible(start, events),
    ensures
        ({
            let run = IdRun::after(start, events);
            &&& run.ids.wf()
            &&& run.out.finite()
            &&& forall|id: usize| #[trigger]
                run.out.contains(id) <==> start <= id && run.ids.live(id)
            &&& run.ids.current == start + run.most
            &&& run.ids.recycled.len() + run.out.len() == run.most
            &&& forall|i: int|
                0 <= i < run.ids.recycled.len() ==> start <= #[trigger] run.ids.recycled[i]
            &&& run.ids.next_id() <= usize::MAX ==> {
                &&& !run.out.contains(run.ids.next_id() as usize)
                &&& start <= run.ids.next_id() < start + run.step(IdEvent::Alloc).most
            }
        }),
    decreases events.len(),
{
    let run = IdRun::after(start, events);
    if events.len() > 0 {
        ids_stay_distinct_and_low(start, events.drop_last());
        let before = IdRun::after(start, events.drop_last());
        match events.last() {
            IdEvent::Alloc => {
                alloc_takes_unused_id(before.ids);
            },
            IdEvent::Dealloc(id) => {
                dealloc_frees_id(before.ids, id);
            },
        }
    }
    if run.ids.next_id() <= usize::MAX {
        alloc_takes_unused_id(run.ids);
        if run.ids.recycled.len() > 0 {
            assert(run.ids.recycled[run.ids.recycled.len() - 1] == run.ids.next_id());
        }
    }
}

/// Right after an id was given back, it is the one handed out next, and it cannot be
/// given back once more.
pub proof fn id_given_back_comes_next(start: usize, events: Seq<IdEvent>, id: usize)
    requires
        IdRun::possible(start, events),
        IdRun::after(start, events).out.contains(id),
    ensures
        ({
            let run = IdRun::after(start, events).step(IdEvent::Dealloc(id));
            &&& run.ids.next_id() == id
            &&& !run.permits(IdEvent::Dealloc(id))
            &&& !run.ids.live(id)
        }),
{
    ids_stay_distinct_and_low(start, events);
    dealloc_frees_id(IdRun::after(start, events).ids, id);
}

/// An allocator that recycles the ids given back.
#[derive(Debug)]
pub struct RecycleAllocator {
    current: usize,
    recycled: Vec<usize>,
}

impl View for RecycleAllocator {
    type V = IdView;

    closed spec fn view(&self) -> IdView {
        IdView { current: self.current as int, recycled: self.recycled@ }
    }
}

impl RecycleAllocator {
    /// An allocator of the ids from 0 on.
    pub fn new() -> (r: Self)
        ensures
            r@ == (IdView { current: 0, recycled: Seq::empty() }),
            r@.wf(),
    {
        Self::new_start(0)
    }

    /// An allocator of the ids from `current` on.
    pub fn new_start(current: usize) -> (r: Self)
        ensures
            r@ == (IdView { current: current as int, recycled: Seq::empty() }),
            r@.wf(),
    {
        let r = RecycleAllocator { current, recycled: Vec::new() };
        assert(r@.recycled =~= Seq::empty());
        r
    }

    /// Hand out an id, a recycled one if there is one.
    pub fn alloc_id(&mut self) -> (r: usize)
        requires
            old(self)@.recycled.len() == 0 ==> old(self)@.current < usize::MAX,
        ensures
            r == old(self)@.next_id(),
            final(self)@ == old(self)@.after_alloc(),
    {
        if let Some(id) = self.recycled.pop() {
            id
        } else {
            self.current = self.current + 1;
            self.current - 1
        }
    }

    /// Take back an id that is in use.
    pub fn dealloc(&mut self, id: usize)
        requires
            old(self)@.live(id),
        ensures
            final(self)@ == old(self)@.after_dealloc(id),
    {
        self.recycled.push(id);
    }

    /// The id that is handed out next.
    pub fn upcoming(&self) -> (r: usize)
        ensures
            r == self@.next_id(),
    {
        let n: usize = self.recycled.len();
        if n > 0 {
            self.recycled[n - 1]
        } else {
            self.current
        }
    }

    /// The bound below which all ids in use lie.
    pub fn bound(&self) -> (r: usize)
        ensures
            r == self@.current,
    {
        self.current
    }
}

/// The kernel stack of a thread.
#[derive(Copy, Clone, Debug, PartialEq, Eq, Structural)]
pub struct KernelStack {
    pub id: usize,
}

/// The address just past the top of kernel stack `id`.
pub open spec fn kstack_top(id: usize) -> int {
    kernel_stack_bottom_spec(id as int) + KERNEL_STACK_SIZE
}

impl KernelStack {
    /// The address just past the top of the stack.
    pub fn get_top(&self) -> (r: u64)
        requires
            kernel_stack_id_ok(self.id as int),
        ensures
            r == kstack_top(self.id),
    {
        let (_, top) = kernel_stack_position(self.id as u64);
        top
    }

    /// The lowest address of the stack.
    pub fn get_bottom(&self) -> (r: u64)
        requires
            kernel_stack_id_ok(self.id as int),
        ensures
            r == kernel_stack_bottom_spec(self.id as int),
    {
        let (bottom, _) = kernel_stack_position(self.id as u64);
        bottom
    }

    /// The address of a trap context on top of the stack.
    pub fn push_context(&self) -> (r: u64)
        requires
            kernel_stack_id_ok(self.id as int),
        ensures
            r == kstack_top(self.id) - TRAP_CONTEXT_SIZE,
    {
        self.get_top() - TRAP_CONTEXT_SIZE
    }
}

/// The user resources of a thread: its number in its process and its user
/// stack.
#[derive(Copy, Clone, Debug, PartialEq, Eq, Structural)]
pub struct TaskUserRes {
    /// the number of the thread in its process
    pub tid: usize,
    /// the bottom of the main thread's user stack
    pub ustack_base: u64,
    /// the process of the thread
    pub process: usize,
}

/// The distance between the user stacks of two threads: a stack and a guard
/// page.
pub const USTACK_STRIDE: u64 = 0x3000;

/// The lowest address of the user stack of thread `tid`.
pub open spec fn ustack_bottom(ustack_base: u64, tid: usize) -> int {
    ustack_base + tid * USTACK_STRIDE
}

/// The lowest address of the user stack of thread `tid`.
pub fn ustack_bottom_from_tid(ustack_base: u64, tid: usize) -> (r: u64)
    requires
        ustack_bottom(ustack_base, tid) <= u64::MAX,
    ensures
        r == ustack_bottom(ustack_base, tid),
{
    ustack_base + (tid as u64) * USTACK_STRIDE
}

impl TaskUserRes {
    /// Whether the user stack lies in the address space.
    pub open spec fn wf(&self) -> bool {
        ustack_bottom(self.ustack_base, self.tid) + USER_STACK_SIZE <= u64::MAX
    }

    /// The bottom of the main thread's user stack.
    pub fn ustack_base(&self) -> (r: u64)
        ensures
            r == self.ustack_base,
    {
        self.ustack_base
    }

    /// The address just past the top of this thread's user stack.
    pub fn ustack_top(&self) -> (r: u64)
        requires
            self.wf(),
        ensures
            r == ustack_bottom(self.ustack_base, self.tid) + USER_STACK_SIZE,
    {
        ustack_bottom_from_tid(self.ustack_base, self.tid) + USER_STACK_SIZE
    }
}

/// The user stacks of two threads of a process are at least a guard page apart.
pub proof fn user_stacks_are_separate(ustack_base: u64, a: usize, b: usize)
    requires
        a < b,
    ensures
        ustack_bottom(ustack_base, a) + USER_STACK_SIZE + 0x1000 <= ustack_bottom(ustack_base, b),
{
}

} // verus!
