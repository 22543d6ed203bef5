//! The ready queue.
use std::collections::VecDeque;
use vstd::prelude::*;

verus! {

/// The position of the first `task` from `i` on, or the length of the queue if
/// there is none.
pub open spec fn first_position(queue: Seq<usize>, task: usize, i: int) -> int
    decreases queue.len() - i,
{
    if i >= queue.len() {
        queue.len() as int
    } else if queue[i] == task {
        i
    } else {
        first_position(queue, task, i + 1)
    }
}

/// The queue without the first `task` in it.
pub open spec fn without_first(queue: Seq<usize>, task: usize) -> Seq<usize> {
    let i = first_position(queue, task, 0);
    if 0 <= i < queue.len() {
        queue.remove(i)
    } else {
        queue
    }
}

/// The first `n` threads of the queue without `task`.
pub open spec fn without_all(queue: Seq<usize>, n: int, task: usize) -> Seq<usize>
    decreases n,
{
    if n <= 0 {
        Seq::empty()
    } else if queue[n - 1] == task {
        without_all(queue, n - 1, task)
    } else {
        without_all(queue, n - 1, task).push(queue[n - 1])
    }
}

proof fn lemma_first_position(queue: Seq<usize>, task: usize, i: int)
    requires
        0 <= i <= queue.len(),
        forall|j: int| 0 <= j < i ==> #[trigger] queue[j] != task,
    ensures
        first_position(queue, task, i) == first_position(queue, task, 0),
    decreases i,
{
    if i > 0 {
        assert(queue[i - 1] != task);
        lemma_first_position(queue, task, i - 1);
    }
}

proof fn lemma_first_position_bounds(queue: Seq<usize>, task: usize, i: int)
    requires
        0 <= i <= queue.len(),
    ensures
        i <= first_position(queue, task, i) <= queue.len(),
        first_position(queue, task, i) < queue.len() ==> queue[first_position(queue, task, i)]
            == task,
        first_position(queue, task, i) == queue.len() ==> forall|j: int|
            i <= j < queue.len() ==> #[trigger] queue[j] != task,
    decreases queue.len() - i,
{
    if i < queue.len() && queue[i] != task {
        lemma_first_position_bounds(queue, task, i + 1);
    }
}

/// Taking a thread out of a queue in which it is listed at most once leaves it
/// out, and leaves the others in.
pub proof fn without_first_leaves_others(queue: Seq<usize>, task: usize, other: usize)
    requires
        queue.no_duplicates(),
    ensures
        without_first(queue, task).no_duplicates(),
        without_first(queue, task).contains(other) <==> queue.contains(other) && other != task,
{
    let i = first_position(queue, task, 0);
    let rest = without_first(queue, task);
    lemma_first_position_bounds(queue, task, 0);
    if i < queue.len() {
        if rest.contains(other) {
            let k = choose|k: int| 0 <= k < rest.len() && rest[k] == other;
            if k < i {
                assert(queue[k] == other);
            } else {
                assert(queue[k + 1] == other);
            }
        }
        if queue.contains(other) && other != task {
            let k = choose|k: int| 0 <= k < queue.len() && queue[k] == other;
            if k < i {
                assert(rest[k] == other);
            } else {
                assert(rest[k - 1] == other);
            }
        }
    }
}

/// Taking a thread out everywhere leaves it out, and leaves the others in.
pub proof fn without_all_leaves_others(queue: Seq<usize>, n: int, task: usize, other: usize)
    requires
        0 <= n <= queue.len(),
    ensures
        without_all(queue, n, task).contains(other) <==> other != task && exists|k: int|
            0 <= k < n && queue[k] == other,
    decreases n,
{
    if n > 0 {
        without_all_leaves_others(queue, n - 1, task, other);
        let before = without_all(queue, n - 1, task);
        let all = without_all(queue, n, task);
        if queue[n - 1] != task {
            if before.contains(other) {
                let k = choose|k: int| 0 <= k < before.len() && before[k] == other;
                assert(all[k] == other);
            }
            if all.contains(other) {
                let k = choose|k: int| 0 <= k < all.len() && all[k] == other;
                if k < before.len() {
                    assert(before[k] == other);
                }
            }
            if queue[n - 1] == other {
                assert(all[before.len() as int] == other);
            }
        }
    }
}

/// The threads that are ready to run, in the order in which they will.
#[derive(Debug)]
pub struct TaskManager {
    ready_queue: VecDeque<usize>,
}

impl View for TaskManager {
    type V = Seq<usize>;

    closed spec fn view(&self) -> Seq<usize> {
        self.ready_queue@
    }
}

impl TaskManager {
    /// An empty queue.
    pub fn new() -> (r: Self)
        ensures
            r@ == Seq::<usize>::empty(),
    {
        let r = Self { ready_queue: VecDeque::new() };
        assert(r@ =~= Seq::empty());
        r
    }

    /// Whether a thread is in.
    pub fn holds(&self, task: usize) -> (r: bool)
        ensures
            r == self@.contains(task),
    {
        queue_contains(&self.ready_queue, task)
    }

    /// Put a thread at the end.
    pub fn add(&mut self, task: usize)
        ensures
            final(self)@ == old(self)@.push(task),
    {
        self.ready_queue.push_back(task);
    }

    /// Take a thread out, if it is in.
    pub fn remove(&mut self, task: usize)
        ensures
            final(self)@ == without_first(old(self)@, task),
    {
        let mut i: usize = 0;
        while i < self.ready_queue.len()
            invariant
                i <= self.ready_queue@.len(),
                self@ == old(self)@,
                forall|j: int| 0 <= j < i ==> #[trigger] self@[j] != task,
            decreases self.ready_queue@.len() - i,
        {
            if self.ready_queue[i] == task {
                proof {
                    lemma_first_position(self@, task, i as int);
                }
                self.ready_queue.remove(i);
                return;
            }
            i = i + 1;
        }
        proof {
            lemma_first_position(self@, task, i as int);
        }
    }

    /// Take the first thread out.
    pub fn fetch(&mut self) -> (r: Option<usize>)
        ensures
            match r {
                Some(task) => old(self)@.len() > 0 && task == old(self)@[0] && final(self)@
                    == old(self)@.drop_first(),
                None => old(self)@.len() == 0 && final(self)@ == old(self)@,
            },
    {
        let r = self.ready_queue.pop_front();
        proof {
            if r is Some {
                assert(self@ =~= old(self)@.drop_first());
            }
        }
        r
    }
}

/// Whether a thread is in a queue.
pub fn queue_contains(queue: &VecDeque<usize>, task: usize) -> (r: bool)
    ensures
        r == queue@.contains(task),
{
    let mut i: usize = 0;
    while i < queue.len()
        invariant
            i <= queue@.len(),
            forall|j: int| 0 <= j < i ==> #[trigger] queue@[j] != task,
        decreases queue@.len() - i,
    {
        if queue[i] == task {
            assert(queue@[i as int] == task);
            return true;
        }
        i = i + 1;
    }
    false
}

/// The queue without `task`.
pub fn retain_others(queue: &VecDeque<usize>, task: usize) -> (r: VecDeque<usize>)
    ensures
        r@ == without_all(queue@, queue@.len() as int, task),
{
    let mut r: VecDeque<usize> = VecDeque::new();
    let mut i: usize = 0;
    assert(r@ =~= without_all(queue@, 0, task));
    while i < queue.len()
        invariant
            i <= queue@.len(),
            r@ == without_all(queue@, i as int, task),
        decreases queue@.len() - i,
    {
        if queue[i] != task {
            r.push_back(queue[i]);
        }
        i = i + 1;
    }
    r
}

} // verus!
