//! The frame allocator, which controls all allocatable frames.
//!
//! Frames are handed out from a set of contiguous ranges and recycled on
//! deallocation. [`FramePool`] joins the allocator with the memory it manages.
use vstd::prelude::*;
use super::address::{PhysAddr, PhysPageNum, PA_LIMIT, PPN_LIMIT};
use super::phys::{clear_frame, cleared_frame, Frames, PhysMemory};
use crate::config::MEMORY_END;
use crate::limine_reqs::LimineMemmapEntry;

verus! {

/// The state of a [`FrameDequeAllocator`].
pub struct AllocatorView {
    /// where each range starts
    pub start: Seq<PhysPageNum>,
    /// the end of each range
    pub end: Seq<PhysPageNum>,
    /// the next frame to hand out from each range
    pub current: Seq<PhysPageNum>,
    /// the range frames are handed out from
    pub active: int,
    /// freed frames, the last of which is handed out first
    pub recycled: Seq<PhysPageNum>,
}

impl AllocatorView {
    /// The ranges are kept in step: those before `active` are used up, those
    /// after it are untouched, and the active one has a frame left.
    pub open spec fn wf(self) -> bool {
        &&& self.end.len() == self.start.len()
        &&& self.current.len() == self.start.len()
        &&& 0 <= self.active <= self.start.len()
        &&& forall|i: int|
            0 <= i < self.start.len() ==> {
                &&& (#[trigger] self.start[i]).0 < self.end[i].0
                &&& i < self.active ==> self.current[i] == self.end[i]
                &&& i == self.active ==> self.start[i].0 <= self.current[i].0 < self.end[i].0
                &&& i > self.active ==> self.current[i] == self.start[i]
            }
    }

    /// Whether `p` is one of the frames this allocator was made for.
    pub open spec fn managed(self, p: u64) -> bool {
        exists|i: int|
            0 <= i < self.start.len() && (#[trigger] self.start[i]).0 <= p < self.end[i].0
    }

    /// Whether `p` has never been handed out.
    pub open spec fn fresh(self, p: u64) -> bool {
        exists|i: int|
            self.active <= i < self.start.len() && (#[trigger] self.current[i]).0 <= p
                < self.end[i].0
    }

    /// Whether `p` can be handed out.
    pub open spec fn is_free(self, p: u64) -> bool {
        self.recycled.contains(PhysPageNum(p)) || self.fresh(p)
    }

    /// The frames that can be handed out.
    pub open spec fn free(self) -> Set<u64> {
        Set::new(|p: u64| self.is_free(p))
    }

    /// Number of frames left in range `i` and those after it.
    pub open spec fn fresh_from(self, i: int) -> nat
        decreases self.start.len() - i,
    {
        if i >= self.start.len() {
            0
        } else {
            ((self.end[i].0 - self.current[i].0) as nat) + self.fresh_from(i + 1)
        }
    }

    /// How many more frames will be handed out if none is freed.
    pub open spec fn free_count(self) -> nat {
        self.recycled.len() + self.fresh_from(self.active)
    }

    /// No frame can be handed out twice: the ranges do not overlap, and what
    /// was recycled is neither listed twice nor still to be handed out.
    pub open spec fn distinct(self) -> bool {
        &&& forall|i: int, j: int|
            0 <= i < j < self.start.len() ==> (#[trigger] self.end[i]).0 <= self.start[j].0 || (
            #[trigger] self.end[j]).0 <= self.start[i].0
        &&& self.recycled.no_duplicates()
        &&& forall|i: int|
            0 <= i < self.recycled.len() ==> self.managed((#[trigger] self.recycled[i]).0)
                && !self.fresh(self.recycled[i].0)
    }

    /// The frame that is handed out next.
    pub open spec fn next_frame(self) -> Option<PhysPageNum> {
        if self.recycled.len() > 0 {
            Some(self.recycled.last())
        } else if self.active < self.start.len() {
            Some(self.current[self.active])
        } else {
            None
        }
    }

    /// The state after the next frame has been handed out.
    pub open spec fn after_alloc(self) -> AllocatorView {
        if self.recycled.len() > 0 {
            AllocatorView { recycled: self.recycled.drop_last(), ..self }
        } else if self.active < self.start.len() {
            let next = PhysPageNum((self.current[self.active].0 + 1) as u64);
            AllocatorView {
                current: self.current.update(self.active, next),
                active: if next == self.end[self.active] {
                    self.active + 1
                } else {
                    self.active
                },
                ..self
            }
        } else {
            self
        }
    }

    /// The state after frame `p` has been given back.
    pub open spec fn after_dealloc(self, p: PhysPageNum) -> AllocatorView {
        AllocatorView { recycled: self.recycled.push(p), ..self }
    }
}

/// Handing out a frame: there is one exactly if the count is not zero, the
/// count drops by one, and the frame was free and no longer is.
pub proof fn alloc_takes_one_free_frame(a: AllocatorView)
    requires
        a.wf(),
    ensures
        a.after_alloc().wf(),
        a.next_frame() is Some <==> a.free_count() > 0,
        a.next_frame() is Some ==> {
            let p = a.next_frame()->Some_0.0;
            &&& a.after_alloc().free_count() == a.free_count() - 1
            &&& a.is_free(p)
            &&& a.distinct() ==> a.managed(p) && a.after_alloc().distinct()
                && a.after_alloc().free() == a.free().remove(p)
        },
{
    let b = a.after_alloc();
    if a.recycled.len() > 0 {
        let p = a.recycled.last();
        lemma_fresh_from_same(a, b, a.active);
        assert(a.recycled[a.recycled.len() - 1] == p);
        assert forall|q: u64| b.fresh(q) == a.fresh(q) by {
            if a.fresh(q) {
                let i = choose|i: int|
                    a.active <= i < a.start.len() && (#[trigger] a.current[i]).0 <= q < a.end[i].0;
                assert(b.current[i].0 <= q);
            }
            if b.fresh(q) {
                let i = choose|i: int|
                    b.active <= i < b.start.len() && (#[trigger] b.current[i]).0 <= q < b.end[i].0;
                assert(a.current[i].0 <= q);
            }
        }
        assert forall|q: u64| b.managed(q) == a.managed(q) by {
            lemma_managed_same(a, b, q);
        }
        if a.distinct() {
            assert forall|i: int| 0 <= i < b.recycled.len() implies b.managed(
                (#[trigger] b.recycled[i]).0,
            ) && !b.fresh(b.recycled[i].0) by {
                assert(b.recycled[i] == a.recycled[i]);
            }
            assert(b.distinct());
            assert forall|q: u64| b.is_free(q) == (a.is_free(q) && q != p.0) by {
                if a.recycled.contains(PhysPageNum(q)) && q != p.0 {
                    let i = choose|i: int|
                        0 <= i < a.recycled.len() && a.recycled[i] == PhysPageNum(q);
                    assert(b.recycled[i] == PhysPageNum(q));
                }
                if b.recycled.contains(PhysPageNum(q)) {
                    let i = choose|i: int|
                        0 <= i < b.recycled.len() && b.recycled[i] == PhysPageNum(q);
                    assert(a.recycled[i] == PhysPageNum(q));
                }
            }
            assert(b.free() =~= a.free().remove(p.0));
        }
    } else if a.active < a.start.len() {
        let k = a.active;
        let p = a.current[k];
        assert(a.start[k].0 <= p.0 < a.end[k].0);
        assert(a.fresh_from(k) == (a.end[k].0 - a.current[k].0) + a.fresh_from(k + 1));
        lemma_fresh_from_same(a, b, k + 1);
        assert(b.fresh_from(k) == (b.end[k].0 - b.current[k].0) + b.fresh_from(k + 1));
        assert(b.wf()) by {
            assert forall|i: int| 0 <= i < b.start.len() implies {
                &&& (#[trigger] b.start[i]).0 < b.end[i].0
                &&& i < b.active ==> b.current[i] == b.end[i]
                &&& i == b.active ==> b.start[i].0 <= b.current[i].0 < b.end[i].0
                &&& i > b.active ==> b.current[i] == b.start[i]
            } by {
                assert(a.start[i].0 < a.end[i].0);
            }
        }
        if a.distinct() {
            assert(a.managed(p.0));
            assert forall|q: u64| b.fresh(q) == (a.fresh(q) && q != p.0) by {
                if a.fresh(q) && q != p.0 {
                    let i = choose|i: int|
                        a.active <= i < a.start.len() && (#[trigger] a.current[i]).0 <= q
                            < a.end[i].0;
                    assert(b.current[i].0 <= q);
                }
                if b.fresh(q) {
                    let i = choose|i: int|
                        b.active <= i < b.start.len() && (#[trigger] b.current[i]).0 <= q
                            < b.end[i].0;
                    assert(a.current[i].0 <= q);
                    assert(a.start[i].0 < a.end[i].0);
                    if q == p.0 {
                        assert(i != k);
                        assert(a.end[k].0 <= a.start[i].0 || a.end[i].0 <= a.start[k].0);
                    }
                }
            }
            assert forall|q: u64| b.managed(q) == a.managed(q) by {
                lemma_managed_same(a, b, q);
            }
            assert(b.distinct());
            assert(b.free() =~= a.free().remove(p.0));
        }
    } else {
        assert(a.fresh_from(a.active) == 0);
    }
}

/// Giving back a frame that was handed out: the count grows by one, and the
/// frame is free again.
pub proof fn dealloc_frees_one_frame(a: AllocatorView, p: PhysPageNum)
    requires
        a.wf(),
    ensures
        a.after_dealloc(p).wf(),
        a.after_dealloc(p).free_count() == a.free_count() + 1,
        a.distinct() && a.managed(p.0) && !a.is_free(p.0) ==> a.after_dealloc(p).distinct()
            && a.after_dealloc(p).free() == a.free().insert(p.0),
{
    let b = a.after_dealloc(p);
    lemma_fresh_from_same(a, b, a.active);
    assert forall|i: int| 0 <= i < b.start.len() implies {
        &&& (#[trigger] b.start[i]).0 < b.end[i].0
        &&& i < b.active ==> b.current[i] == b.end[i]
        &&& i == b.active ==> b.start[i].0 <= b.current[i].0 < b.end[i].0
        &&& i > b.active ==> b.current[i] == b.start[i]
    } by {
        assert(a.start[i].0 < a.end[i].0);
    }
    if a.distinct() && a.managed(p.0) && !a.is_free(p.0) {
        assert forall|q: u64| b.fresh(q) == a.fresh(q) by {
            if a.fresh(q) {
                let i = choose|i: int|
                    a.active <= i < a.start.len() && (#[trigger] a.current[i]).0 <= q < a.end[i].0;
                assert(b.current[i].0 <= q);
            }
            if b.fresh(q) {
                let i = choose|i: int|
                    b.active <= i < b.start.len() && (#[trigger] b.current[i]).0 <= q < b.end[i].0;
                assert(a.current[i].0 <= q);
            }
        }
        assert forall|q: u64| b.managed(q) == a.managed(q) by {
            lemma_managed_same(a, b, q);
        }
        assert forall|i: int| 0 <= i < b.recycled.len() implies b.managed(
            (#[trigger] b.recycled[i]).0,
        ) && !b.fresh(b.recycled[i].0) by {
            if i < a.recycled.len() {
                assert(b.recycled[i] == a.recycled[i]);
            } else {
                assert(b.recycled[i] == p);
            }
        }
        assert forall|q: u64| b.is_free(q) == (a.is_free(q) || q == p.0) by {
            if a.recycled.contains(PhysPageNum(q)) {
                let i = choose|i: int| 0 <= i < a.recycled.len() && a.recycled[i] == PhysPageNum(q);
                assert(b.recycled[i] == PhysPageNum(q));
            }
            if b.recycled.contains(PhysPageNum(q)) {
                let i = choose|i: int| 0 <= i < b.recycled.len() && b.recycled[i] == PhysPageNum(q);
                if i < a.recycled.len() {
                    assert(a.recycled[i] == PhysPageNum(q));
                }
            }
            if q == p.0 {
                assert(b.recycled[b.recycled.len() - 1] == PhysPageNum(q));
            }
        }
        assert(b.free() =~= a.free().insert(p.0));
        assert(b.distinct());
    }
}

/// The frame given back last is the one handed out next.
pub proof fn freed_frame_is_handed_out_next(a: AllocatorView, p: PhysPageNum)
    ensures
        a.after_dealloc(p).next_frame() == Some(p),
        a.after_dealloc(p).after_alloc() == a,
{
    assert(a.recycled.push(p).drop_last() =~= a.recycled);
}

proof fn lemma_fresh_from_same(a: AllocatorView, b: AllocatorView, i: int)
    requires
        a.start.len() == b.start.len(),
        forall|j: int| i <= j < a.start.len() ==> a.end[j] == b.end[j] && a.current[j] == b.current[j],
    ensures
        a.fresh_from(i) == b.fresh_from(i),
    decreases a.start.len() - i,
{
    if i < a.start.len() {
        lemma_fresh_from_same(a, b, i + 1);
    }
}

proof fn lemma_managed_same(a: AllocatorView, b: AllocatorView, q: u64)
    requires
        a.start == b.start,
        a.end == b.end,
    ensures
        a.managed(q) == b.managed(q),
{
    if a.managed(q) {
        let i = choose|i: int|
            0 <= i < a.start.len() && (#[trigger] a.start[i]).0 <= q < a.end[i].0;
        assert(b.start[i].0 <= q);
    }
    if b.managed(q) {
        let i = choose|i: int|
            0 <= i < b.start.len() && (#[trigger] b.start[i]).0 <= q < b.end[i].0;
        assert(a.start[i].0 <= q);
    }
}

/// A frame allocator over an arbitrary set of contiguous ranges.
pub struct FrameDequeAllocator {
    start: Vec<PhysPageNum>,
    end: Vec<PhysPageNum>,
    current: Vec<PhysPageNum>,
    active: usize,
    recycled: Vec<PhysPageNum>,
}

impl View for FrameDequeAllocator {
    type V = AllocatorView;

    closed spec fn view(&self) -> AllocatorView {
        AllocatorView {
            start: self.start@,
            end: self.end@,
            current: self.current@,
            active: self.active as int,
            recycled: self.recycled@,
        }
    }
}

/// The first `n` of `ranges` without the empty ones.
pub open spec fn nonempty_ranges(ranges: Seq<(PhysPageNum, PhysPageNum)>, n: int) -> Seq<
    (PhysPageNum, PhysPageNum),
>
    decreases n,
{
    if n <= 0 {
        Seq::empty()
    } else {
        let before = nonempty_ranges(ranges, n - 1);
        if ranges[n - 1].0.0 < ranges[n - 1].1.0 {
            before.push(ranges[n - 1])
        } else {
            before
        }
    }
}

/// The state of an allocator from which no frame of `ranges` was taken yet.
pub open spec fn allocator_over(ranges: Seq<(PhysPageNum, PhysPageNum)>) -> AllocatorView {
    let kept = nonempty_ranges(ranges, ranges.len() as int);
    AllocatorView {
        start: Seq::new(kept.len(), |i: int| kept[i].0),
        end: Seq::new(kept.len(), |i: int| kept[i].1),
        current: Seq::new(kept.len(), |i: int| kept[i].0),
        active: 0,
        recycled: Seq::empty(),
    }
}

impl FrameDequeAllocator {
    /// An allocator without frames.
    pub fn new() -> (r: Self)
        ensures
            r@ == allocator_over(Seq::empty()),
            r@.wf(),
            r@.distinct(),
    {
        let r = Self {
            start: Vec::new(),
            end: Vec::new(),
            current: Vec::new(),
            active: 0,
            recycled: Vec::new(),
        };
        proof {
            let a = allocator_over(Seq::empty());
            assert(r@.start =~= a.start && r@.end =~= a.end && r@.current =~= a.current
                && r@.recycled =~= a.recycled);
        }
        r
    }

    /// Start over with the frames of `ranges`; an empty range is left out.
    pub fn init(&mut self, ranges: &[(PhysPageNum, PhysPageNum)])
        ensures
            final(self)@ == allocator_over(ranges@),
            final(self)@.wf(),
    {
        self.start.clear();
        self.end.clear();
        self.current.clear();
        let mut i: usize = 0;
        while i < ranges.len()
            invariant
                i <= ranges@.len(),
                self.start@.len() == nonempty_ranges(ranges@, i as int).len(),
                self.end@.len() == self.start@.len(),
                self.current@ == self.start@,
                forall|k: int|
                    0 <= k < self.start@.len() ==> {
                        &&& #[trigger] self.start@[k] == nonempty_ranges(ranges@, i as int)[k].0
                        &&& self.end@[k] == nonempty_ranges(ranges@, i as int)[k].1
                        &&& self.start@[k].0 < self.end@[k].0
                    },
            decreases ranges@.len() - i,
        {
            let l: PhysPageNum = ranges[i].0;
            let r: PhysPageNum = ranges[i].1;
            let ghost s0 = self.start@;
            let ghost e0 = self.end@;
            if l.0 < r.0 {
                self.start.push(l);
                self.end.push(r);
                self.current.push(l);
            }
            assert forall|k: int| 0 <= k < self.start@.len() implies {
                &&& #[trigger] self.start@[k] == nonempty_ranges(ranges@, i + 1)[k].0
                &&& self.end@[k] == nonempty_ranges(ranges@, i + 1)[k].1
                &&& self.start@[k].0 < self.end@[k].0
            } by {
                if k < s0.len() {
                    assert(self.start@[k] == s0[k] && self.end@[k] == e0[k]);
                }
            }
            i = i + 1;
        }
        self.active = 0;
        self.recycled.clear();
        proof {
            let a = allocator_over(ranges@);
            assert(self@.start =~= a.start);
            assert forall|k: int| 0 <= k < self@.end.len() implies self@.end[k] == a.end[k] by {
                assert(self@.start[k] == a.start[k]);
            }
            assert(self@.end =~= a.end);
            assert(self@.current =~= a.current);
            assert(self@.recycled =~= a.recycled);
        }
    }

    /// Hand out a frame: a recycled one if there is one, else the next one of
    /// the active range.
    pub fn alloc_frame(&mut self) -> (r: Option<PhysPageNum>)
        requires
            old(self)@.wf(),
        ensures
            r == old(self)@.next_frame(),
            final(self)@ == old(self)@.after_alloc(),
            final(self)@.wf(),
    {
        proof {
            alloc_takes_one_free_frame(self@);
        }
        if let Some(ppn) = self.recycled.pop() {
            Some(ppn)
        } else if self.active >= self.start.len() {
            None
        } else {
            let k: usize = self.active;
            assert(self@.start[k as int].0 < self@.end[k as int].0);
            let ppn: PhysPageNum = self.current[k];
            self.current.set(k, PhysPageNum(ppn.0 + 1));
            if self.current[k].0 == self.end[k].0 {
                self.active = self.active + 1;
            }
            Some(ppn)
        }
    }

    /// Take back a frame of one of the ranges that is not recycled already.
    pub fn dealloc(&mut self, ppn: PhysPageNum)
        requires
            old(self)@.wf(),
            old(self)@.managed(ppn.0),
            !old(self)@.recycled.contains(ppn),
        ensures
            final(self)@ == old(self)@.after_dealloc(ppn),
            final(self)@.wf(),
    {
        proof {
            dealloc_frees_one_frame(self@, ppn);
        }
        self.recycled.push(ppn);
    }

    /// An allocator in the same state.
    pub fn same_state(&self) -> (r: Self)
        ensures
            r@ == self@,
    {
        let r = Self {
            start: self.start.clone(),
            end: self.end.clone(),
            current: self.current.clone(),
            active: self.active,
            recycled: self.recycled.clone(),
        };
        assert(r@.start =~= self@.start);
        assert(r@.end =~= self@.end);
        assert(r@.current =~= self@.current);
        assert(r@.recycled =~= self@.recycled);
        r
    }

    /// Whether all frames this allocator was made for exist in `mem`.
    pub fn lies_in<M: PhysMemory>(&self, mem: &M) -> (r: bool)
        requires
            self@.wf(),
        ensures
            r == forall|p: u64| #[trigger] self@.managed(p) ==> mem.frames().dom().contains(p),
    {
        let mut i: usize = 0;
        while i < self.start.len()
            invariant
                i <= self@.start.len(),
                self@.wf(),
                forall|j: int, p: u64|
                    0 <= j < i && (#[trigger] self@.start[j]).0 <= p < self@.end[j].0
                        ==> #[trigger] mem.frames().dom().contains(p),
            decreases self@.start.len() - i,
        {
            let end: u64 = self.end[i].0;
            let mut p: u64 = self.start[i].0;
            assert(self@.start[i as int].0 < self@.end[i as int].0);
            while p < end
                invariant
                    i < self@.start.len(),
                    end == self@.end[i as int].0,
                    self@.start[i as int].0 <= p <= end,
                    forall|q: u64|
                        self@.start[i as int].0 <= q < p ==> #[trigger] mem.frames().dom().contains(q),
                decreases end - p,
            {
                if !mem.holds(p) {
                    assert(self@.start[i as int].0 <= p < self@.end[i as int].0);
                    assert(self@.managed(p));
                    return false;
                }
                p = p + 1;
            }
            i = i + 1;
        }
        assert forall|p: u64| #[trigger] self@.managed(p) implies mem.frames().dom().contains(p) by {
            let j = choose|j: int|
                0 <= j < self@.start.len() && (#[trigger] self@.start[j]).0 <= p < self@.end[j].0;
            assert(self@.start[j].0 <= p);
        }
        true
    }

    /// Whether frame `p` is handed out.
    pub fn is_allocated(&self, p: u64) -> (r: bool)
        requires
            self@.wf(),
        ensures
            r == (self@.managed(p) && !self@.is_free(p)),
    {
        let mut managed: bool = false;
        let mut i: usize = 0;
        while i < self.start.len()
            invariant
                i <= self@.start.len(),
                self@.wf(),
                managed == exists|j: int|
                    0 <= j < i && (#[trigger] self@.start[j]).0 <= p < self@.end[j].0,
                forall|j: int|
                    self@.active <= j < i ==> !((#[trigger] self@.current[j]).0 <= p
                        < self@.end[j].0),
            decreases self@.start.len() - i,
        {
            if i >= self.active && self.current[i].0 <= p && p < self.end[i].0 {
                assert(self@.current[i as int].0 <= p < self@.end[i as int].0);
                assert(self@.fresh(p));
                return false;
            }
            if self.start[i].0 <= p && p < self.end[i].0 {
                assert(self@.start[i as int].0 <= p < self@.end[i as int].0);
                managed = true;
            }
            i = i + 1;
        }
        if !managed {
            return false;
        }
        i = 0;
        while i < self.recycled.len()
            invariant
                i <= self@.recycled.len(),
                forall|j: int| 0 <= j < i ==> (#[trigger] self@.recycled[j]).0 != p,
            decreases self@.recycled.len() - i,
        {
            if self.recycled[i].0 == p {
                assert(self@.recycled[i as int] == PhysPageNum(p));
                return false;
            }
            i = i + 1;
        }
        true
    }

    /// How many frames can be handed out.
    pub fn free_count(&self) -> (r: u128)
        requires
            self@.wf(),
        ensures
            r == self@.free_count(),
    {
        let n: usize = self.start.len();
        let mut i: usize = n;
        let mut total: u128 = 0;
        while i > self.active
            invariant
                self@.wf(),
                n == self@.start.len(),
                self.active <= n ==> self.active <= i <= n,
                total == self@.fresh_from(i as int),
                total <= (n - i) * 0xffff_ffff_ffff_ffff,
            decreases i,
        {
            i = i - 1;
            assert(self@.start[i as int].0 < self@.end[i as int].0);
            let left: u64 = self.end[i].0 - self.current[i].0;
            assert((n - i) * 0xffff_ffff_ffff_ffff <= 0xffff_ffff_ffff_ffff * 0xffff_ffff_ffff_ffff)
                by (nonlinear_arith)
                requires
                    0 <= n - i <= 0xffff_ffff_ffff_ffff,
            ;
            total = total + left as u128;
        }
        total + self.recycled.len() as u128
    }
}

/// The type of a usable region in the boot loader's memory map.
pub const MEMMAP_USABLE: u64 = 0;

/// The pages that lie entirely in a usable entry; page 0 is never handed out,
/// so that a null pointer access faults.
pub open spec fn entry_range(e: LimineMemmapEntry) -> Option<(PhysPageNum, PhysPageNum)> {
    let first = ((e.base % PA_LIMIT) + 0xfff) / 0x1000;
    let l = if first == 0 {
        1
    } else {
        first
    };
    let r = ((e.base + e.length) % (PA_LIMIT as int)) / 0x1000;
    if e.typ == MEMMAP_USABLE && l < r {
        Some((PhysPageNum(l as u64), PhysPageNum(r as u64)))
    } else {
        None
    }
}

/// The ranges of the first `n` entries.
pub open spec fn usable_ranges(entries: Seq<LimineMemmapEntry>, n: int) -> Seq<
    (PhysPageNum, PhysPageNum),
>
    decreases n,
{
    if n <= 0 {
        Seq::empty()
    } else {
        match entry_range(entries[n - 1]) {
            Some(range) => usable_ranges(entries, n - 1).push(range),
            None => usable_ranges(entries, n - 1),
        }
    }
}

/// What is left of a range when the pages from `k_l` to `k_r` are taken out.
pub open spec fn cut_range(
    range: (PhysPageNum, PhysPageNum),
    k_l: PhysPageNum,
    k_r: PhysPageNum,
) -> Seq<(PhysPageNum, PhysPageNum)> {
    if range.1.0 <= k_l.0 || range.0.0 >= k_r.0 {
        seq![range]
    } else if range.0.0 < k_l.0 {
        if k_r.0 < range.1.0 {
            seq![(range.0, k_l), (k_r, range.1)]
        } else {
            seq![(range.0, k_l)]
        }
    } else if k_r.0 < range.1.0 {
        seq![(k_r, range.1)]
    } else {
        Seq::empty()
    }
}

/// What is left of the first `n` ranges when the pages from `k_l` to `k_r` are
/// taken out.
pub open spec fn cut_ranges(
    ranges: Seq<(PhysPageNum, PhysPageNum)>,
    n: int,
    k_l: PhysPageNum,
    k_r: PhysPageNum,
) -> Seq<(PhysPageNum, PhysPageNum)>
    decreases n,
{
    if n <= 0 {
        Seq::empty()
    } else {
        cut_ranges(ranges, n - 1, k_l, k_r) + cut_range(ranges[n - 1], k_l, k_r)
    }
}

/// The page in which the kernel image at `kernel_phys` starts.
pub open spec fn kernel_first_page(kernel_phys: u64) -> PhysPageNum {
    PhysPageNum(((kernel_phys % PA_LIMIT) / 0x1000) as u64)
}

/// The page after the last one that holds a byte of the kernel image at
/// `kernel_phys`.
pub open spec fn kernel_end_page(kernel_phys: u64, kernel_size: u64) -> PhysPageNum {
    PhysPageNum((((kernel_phys + kernel_size) % (PA_LIMIT as int) + 0xfff) / 0x1000) as u64)
}

/// The usable pages without those of the kernel image.
pub open spec fn pages_beside_kernel(
    entries: Seq<LimineMemmapEntry>,
    kernel_phys: u64,
    kernel_size: u64,
) -> Seq<(PhysPageNum, PhysPageNum)> {
    let ranges = usable_ranges(entries, entries.len() as int);
    cut_ranges(
        ranges,
        ranges.len() as int,
        kernel_first_page(kernel_phys),
        kernel_end_page(kernel_phys, kernel_size),
    )
}

/// The allocatable ranges: the usable pages without those of the kernel image
/// or, where there are none, the memory from 1 MiB to `MEMORY_END`.
pub open spec fn allocatable_ranges(
    entries: Seq<LimineMemmapEntry>,
    kernel_phys: u64,
    kernel_size: u64,
) -> Seq<(PhysPageNum, PhysPageNum)> {
    let kept = pages_beside_kernel(entries, kernel_phys, kernel_size);
    if kept.len() == 0 {
        seq![(PhysPageNum(0x100), PhysPageNum(0x1_0000))]
    } else {
        kept
    }
}

/// Build the list of allocatable ranges from the boot loader's memory map and
/// hand it to the allocator. Only usable regions count: reclaimable memory
/// still holds the page tables the kernel was started with.
pub fn init_frame_allocator(
    allocator: &mut FrameDequeAllocator,
    entries: &[LimineMemmapEntry],
    kernel_phys: u64,
    kernel_size: u64,
) -> (count: usize)
    requires
        forall|i: int|
            0 <= i < entries@.len() && (#[trigger] entries@[i]).typ == MEMMAP_USABLE
                ==> entries@[i].base + entries@[i].length <= u64::MAX,
        kernel_phys + kernel_size <= u64::MAX,
    ensures
        final(allocator)@ == allocator_over(
            allocatable_ranges(entries@, kernel_phys, kernel_size),
        ),
        final(allocator)@.wf(),
        count == allocatable_ranges(entries@, kernel_phys, kernel_size).len(),
{
    let mut ranges: Vec<(PhysPageNum, PhysPageNum)> = Vec::new();
    let mut i: usize = 0;
    while i < entries.len()
        invariant
            i <= entries@.len(),
            ranges@ == usable_ranges(entries@, i as int),
            forall|i: int|
                0 <= i < entries@.len() && (#[trigger] entries@[i]).typ == MEMMAP_USABLE
                    ==> entries@[i].base + entries@[i].length <= u64::MAX,
        decreases entries@.len() - i,
    {
        let entry: &LimineMemmapEntry = &entries[i];
        if entry.typ == MEMMAP_USABLE {
            let base: u64 = entry.base;
            let top: u64 = entry.base + entry.length;
            let mut l: PhysPageNum = PhysAddr::new(base).ceil();
            let r: PhysPageNum = PhysAddr::new(top).floor();
            if l.0 == 0 {
                l.0 = 1;
            }
            if l.0 < r.0 {
                ranges.push((l, r));
            }
        }
        i = i + 1;
    }
    let k_l: PhysPageNum = PhysAddr::new(kernel_phys).floor();
    let k_r: PhysPageNum = PhysAddr::new(kernel_phys + kernel_size).ceil();
    let mut filtered: Vec<(PhysPageNum, PhysPageNum)> = Vec::new();
    let mut j: usize = 0;
    while j < ranges.len()
        invariant
            j <= ranges@.len(),
            filtered@ == cut_ranges(ranges@, j as int, k_l, k_r),
        decreases ranges@.len() - j,
    {
        let (l, r) = ranges[j];
        let ghost before = filtered@;
        if r.0 <= k_l.0 || l.0 >= k_r.0 {
            filtered.push((l, r));
        } else if l.0 < k_l.0 {
            filtered.push((l, k_l));
            if k_r.0 < r.0 {
                filtered.push((k_r, r));
            }
        } else if k_r.0 < r.0 {
            filtered.push((k_r, r));
        }
        assert(filtered@ =~= before + cut_range(ranges@[j as int], k_l, k_r));
        j = j + 1;
    }
    if filtered.len() == 0 {
        let l: PhysPageNum = PhysAddr::new(0x100000).ceil();
        let r: PhysPageNum = PhysAddr::new(MEMORY_END).floor();
        filtered.push((l, r));
        assert(filtered@ =~= seq![(PhysPageNum(0x100), PhysPageNum(0x1_0000))]);
    }
    allocator.init(filtered.as_slice());
    filtered.len()
}

/// Whether `p` lies in one of the ranges.
pub open spec fn in_ranges(ranges: Seq<(PhysPageNum, PhysPageNum)>, p: u64) -> bool {
    exists|i: int| 0 <= i < ranges.len() && (#[trigger] ranges[i]).0.0 <= p < ranges[i].1.0
}

/// No two ranges share a page.
pub open spec fn ranges_disjoint(ranges: Seq<(PhysPageNum, PhysPageNum)>) -> bool {
    forall|i: int, j: int|
        0 <= i < j < ranges.len() ==> (#[trigger] ranges[i]).1.0 <= (#[trigger] ranges[j]).0.0
            || ranges[j].1.0 <= ranges[i].0.0
}

proof fn lemma_usable_ranges_source(entries: Seq<LimineMemmapEntry>, n: int, i: int)
    requires
        0 <= n <= entries.len(),
        0 <= i < usable_ranges(entries, n).len(),
    ensures
        exists|e: int|
            0 <= e < n && entry_range(#[trigger] entries[e]) == Some(usable_ranges(entries, n)[i]),
    decreases n,
{
    let before = usable_ranges(entries, n - 1);
    if i < before.len() {
        lemma_usable_ranges_source(entries, n - 1, i);
        let e = choose|e: int|
            0 <= e < n - 1 && entry_range(#[trigger] entries[e]) == Some(before[i]);
        assert(entry_range(entries[e]) == Some(usable_ranges(entries, n)[i]));
    } else {
        assert(entry_range(entries[n - 1]) == Some(usable_ranges(entries, n)[i]));
    }
}

/// The usable entries do not overlap and end below the 52-bit limit.
pub open spec fn memmap_ok(entries: Seq<LimineMemmapEntry>) -> bool {
    &&& forall|i: int|
        0 <= i < entries.len() && (#[trigger] entries[i]).typ == MEMMAP_USABLE ==> entries[i].base
            + entries[i].length < PA_LIMIT
    &&& forall|i: int, j: int|
        0 <= i < j < entries.len() && (#[trigger] entries[i]).typ == MEMMAP_USABLE && (
        #[trigger] entries[j]).typ == MEMMAP_USABLE ==> entries[i].base + entries[i].length
            <= entries[j].base || entries[j].base + entries[j].length <= entries[i].base
}

proof fn lemma_usable_ranges_disjoint(entries: Seq<LimineMemmapEntry>, n: int)
    requires
        0 <= n <= entries.len(),
        memmap_ok(entries),
    ensures
        ranges_disjoint(usable_ranges(entries, n)),
    decreases n,
{
    if n > 0 {
        lemma_usable_ranges_disjoint(entries, n - 1);
        let before = usable_ranges(entries, n - 1);
        let all = usable_ranges(entries, n);
        assert forall|i: int, j: int| 0 <= i < j < all.len() implies (#[trigger] all[i]).1.0 <= (
        #[trigger] all[j]).0.0 || all[j].1.0 <= all[i].0.0 by {
            if j < before.len() {
                assert(all[i] == before[i] && all[j] == before[j]);
            } else {
                lemma_usable_ranges_source(entries, n - 1, i);
                let e = choose|e: int|
                    0 <= e < n - 1 && entry_range(#[trigger] entries[e]) == Some(before[i]);
                assert(all[i] == before[i]);
                assert(entry_range(entries[n - 1]) == Some(all[j]));
                assert(entries[e].typ == MEMMAP_USABLE && entries[n - 1].typ == MEMMAP_USABLE);
            }
        }
    }
}

proof fn lemma_cut_ranges_source(
    ranges: Seq<(PhysPageNum, PhysPageNum)>,
    n: int,
    k_l: PhysPageNum,
    k_r: PhysPageNum,
    i: int,
)
    requires
        0 <= n <= ranges.len(),
        0 <= i < cut_ranges(ranges, n, k_l, k_r).len(),
    ensures
        exists|e: int|
            0 <= e < n && (#[trigger] ranges[e]).0.0 <= cut_ranges(ranges, n, k_l, k_r)[i].0.0
                && cut_ranges(ranges, n, k_l, k_r)[i].1.0 <= ranges[e].1.0,
    decreases n,
{
    let before = cut_ranges(ranges, n - 1, k_l, k_r);
    let all = cut_ranges(ranges, n, k_l, k_r);
    if i < before.len() {
        lemma_cut_ranges_source(ranges, n - 1, k_l, k_r, i);
        let e = choose|e: int|
            0 <= e < n - 1 && (#[trigger] ranges[e]).0.0 <= before[i].0.0 && before[i].1.0
                <= ranges[e].1.0;
        assert(all[i] == before[i]);
        assert(ranges[e].0.0 <= all[i].0.0);
    } else {
        assert(all[i] == cut_range(ranges[n - 1], k_l, k_r)[i - before.len()]);
        assert(ranges[n - 1].0.0 <= all[i].0.0 && all[i].1.0 <= ranges[n - 1].1.0);
    }
}

proof fn lemma_cut_ranges_avoid(
    ranges: Seq<(PhysPageNum, PhysPageNum)>,
    n: int,
    k_l: PhysPageNum,
    k_r: PhysPageNum,
    i: int,
)
    requires
        0 <= n <= ranges.len(),
        0 <= i < cut_ranges(ranges, n, k_l, k_r).len(),
    ensures
        cut_ranges(ranges, n, k_l, k_r)[i].1.0 <= k_l.0 || cut_ranges(ranges, n, k_l, k_r)[i].0.0
            >= k_r.0,
    decreases n,
{
    let before = cut_ranges(ranges, n - 1, k_l, k_r);
    let all = cut_ranges(ranges, n, k_l, k_r);
    if i < before.len() {
        lemma_cut_ranges_avoid(ranges, n - 1, k_l, k_r, i);
        assert(all[i] == before[i]);
    } else {
        assert(all[i] == cut_range(ranges[n - 1], k_l, k_r)[i - before.len()]);
    }
}

proof fn lemma_cut_ranges_disjoint(
    ranges: Seq<(PhysPageNum, PhysPageNum)>,
    n: int,
    k_l: PhysPageNum,
    k_r: PhysPageNum,
)
    requires
        0 <= n <= ranges.len(),
        ranges_disjoint(ranges),
        k_l.0 <= k_r.0,
    ensures
        ranges_disjoint(cut_ranges(ranges, n, k_l, k_r)),
    decreases n,
{
    if n > 0 {
        lemma_cut_ranges_disjoint(ranges, n - 1, k_l, k_r);
        let before = cut_ranges(ranges, n - 1, k_l, k_r);
        let all = cut_ranges(ranges, n, k_l, k_r);
        let piece = cut_range(ranges[n - 1], k_l, k_r);
        assert forall|i: int, j: int| 0 <= i < j < all.len() implies (#[trigger] all[i]).1.0 <= (
        #[trigger] all[j]).0.0 || all[j].1.0 <= all[i].0.0 by {
            if j < before.len() {
                assert(all[i] == before[i] && all[j] == before[j]);
            } else {
                assert(all[j] == piece[j - before.len()]);
                assert(ranges[n - 1].0.0 <= all[j].0.0 && all[j].1.0 <= ranges[n - 1].1.0);
                if i < before.len() {
                    assert(all[i] == before[i]);
                    lemma_cut_ranges_source(ranges, n - 1, k_l, k_r, i);
                    let e = choose|e: int|
                        0 <= e < n - 1 && (#[trigger] ranges[e]).0.0 <= before[i].0.0
                            && before[i].1.0 <= ranges[e].1.0;
                    assert(ranges[e].1.0 <= ranges[n - 1].0.0 || ranges[n - 1].1.0
                        <= ranges[e].0.0);
                } else {
                    assert(all[i] == piece[i - before.len()]);
                }
            }
        }
    }
}

proof fn lemma_nonempty_ranges_source(
    ranges: Seq<(PhysPageNum, PhysPageNum)>,
    n: int,
    i: int,
)
    requires
        0 <= n <= ranges.len(),
        0 <= i < nonempty_ranges(ranges, n).len(),
    ensures
        exists|e: int| 0 <= e < n && #[trigger] ranges[e] == nonempty_ranges(ranges, n)[i],
    decreases n,
{
    let before = nonempty_ranges(ranges, n - 1);
    if i < before.len() {
        lemma_nonempty_ranges_source(ranges, n - 1, i);
        let e = choose|e: int| 0 <= e < n - 1 && #[trigger] ranges[e] == before[i];
        assert(ranges[e] == nonempty_ranges(ranges, n)[i]);
    } else {
        assert(ranges[n - 1] == nonempty_ranges(ranges, n)[i]);
    }
}

proof fn lemma_nonempty_ranges_keep(ranges: Seq<(PhysPageNum, PhysPageNum)>, n: int, e: int)
    requires
        0 <= e < n <= ranges.len(),
        ranges[e].0.0 < ranges[e].1.0,
    ensures
        exists|i: int|
            0 <= i < nonempty_ranges(ranges, n).len() && nonempty_ranges(ranges, n)[i] == ranges[e],
    decreases n,
{
    let all = nonempty_ranges(ranges, n);
    if e == n - 1 {
        assert(all[all.len() - 1] == ranges[e]);
    } else {
        lemma_nonempty_ranges_keep(ranges, n - 1, e);
        let before = nonempty_ranges(ranges, n - 1);
        let i = choose|i: int| 0 <= i < before.len() && before[i] == ranges[e];
        assert(all[i] == ranges[e]);
    }
}

proof fn lemma_nonempty_ranges_disjoint(ranges: Seq<(PhysPageNum, PhysPageNum)>, n: int)
    requires
        0 <= n <= ranges.len(),
        ranges_disjoint(ranges),
    ensures
        ranges_disjoint(nonempty_ranges(ranges, n)),
    decreases n,
{
    if n > 0 {
        lemma_nonempty_ranges_disjoint(ranges, n - 1);
        let before = nonempty_ranges(ranges, n - 1);
        let all = nonempty_ranges(ranges, n);
        assert forall|i: int, j: int| 0 <= i < j < all.len() implies (#[trigger] all[i]).1.0 <= (
        #[trigger] all[j]).0.0 || all[j].1.0 <= all[i].0.0 by {
            if j < before.len() {
                assert(all[i] == before[i] && all[j] == before[j]);
            } else {
                lemma_nonempty_ranges_source(ranges, n - 1, i);
                let e = choose|e: int| 0 <= e < n - 1 && #[trigger] ranges[e] == before[i];
                assert(all[i] == ranges[e]);
                assert(all[j] == ranges[n - 1]);
            }
        }
    }
}

/// An allocator over ranges that do not overlap never hands out a frame twice.
pub proof fn disjoint_ranges_give_distinct_frames(ranges: Seq<(PhysPageNum, PhysPageNum)>)
    requires
        ranges_disjoint(ranges),
    ensures
        allocator_over(ranges).distinct(),
{
    lemma_nonempty_ranges_disjoint(ranges, ranges.len() as int);
    let kept = nonempty_ranges(ranges, ranges.len() as int);
    let a = allocator_over(ranges);
    assert forall|i: int, j: int| 0 <= i < j < a.start.len() implies (#[trigger] a.end[i]).0
        <= a.start[j].0 || (#[trigger] a.end[j]).0 <= a.start[i].0 by {
        assert(kept[i].1.0 <= kept[j].0.0 || kept[j].1.0 <= kept[i].0.0);
    }
}

/// The allocator manages exactly the pages of its ranges.
pub proof fn allocator_manages_its_ranges(ranges: Seq<(PhysPageNum, PhysPageNum)>, p: u64)
    ensures
        allocator_over(ranges).managed(p) <==> in_ranges(ranges, p),
{
    let a = allocator_over(ranges);
    if in_ranges(ranges, p) {
        let e = choose|e: int|
            0 <= e < ranges.len() && (#[trigger] ranges[e]).0.0 <= p < ranges[e].1.0;
        lemma_nonempty_ranges_keep(ranges, ranges.len() as int, e);
        let kept = nonempty_ranges(ranges, ranges.len() as int);
        let i = choose|i: int| 0 <= i < kept.len() && kept[i] == ranges[e];
        assert(a.start[i].0 <= p < a.end[i].0);
    }
    if a.managed(p) {
        let i = choose|i: int|
            0 <= i < a.start.len() && (#[trigger] a.start[i]).0 <= p < a.end[i].0;
        lemma_nonempty_ranges_source(ranges, ranges.len() as int, i);
        let e = choose|e: int|
            0 <= e < ranges.len() && #[trigger] ranges[e] == nonempty_ranges(
                ranges,
                ranges.len() as int,
            )[i];
        assert(ranges[e].0.0 <= p < ranges[e].1.0);
    }
}

/// Whether page `p` lies whole in a usable entry, is not page 0, and holds no byte of
/// the kernel image.
pub open spec fn allocatable_page(
    entries: Seq<LimineMemmapEntry>,
    kernel_phys: u64,
    kernel_size: u64,
    p: u64,
) -> bool {
    &&& p != 0
    &&& exists|i: int| 0 <= i < entries.len() && whole_page(#[trigger] entries[i], p)
    &&& !(p * 0x1000 < kernel_phys + kernel_size && kernel_phys < (p + 1) * 0x1000)
}

/// Whether page `p` lies whole in a usable entry, which is one of type 0.
pub open spec fn whole_page(e: LimineMemmapEntry, p: u64) -> bool {
    e.typ == 0 && e.base <= p * 0x1000 && (p + 1) * 0x1000 <= e.base + e.length
}

proof fn lemma_usable_ranges_pages(entries: Seq<LimineMemmapEntry>, n: int, p: u64)
    requires
        0 <= n <= entries.len(),
        memmap_ok(entries),
    ensures
        in_ranges(usable_ranges(entries, n), p) <==> p != 0 && exists|i: int|
            0 <= i < n && whole_page(#[trigger] entries[i], p),
        forall|i: int|
            0 <= i < usable_ranges(entries, n).len() ==> (#[trigger] usable_ranges(
                entries,
                n,
            )[i]).0.0 < usable_ranges(entries, n)[i].1.0,
    decreases n,
{
    if n > 0 {
        lemma_usable_ranges_pages(entries, n - 1, p);
        let before = usable_ranges(entries, n - 1);
        let all = usable_ranges(entries, n);
        let e = entries[n - 1];
        if whole_page(e, p) && p != 0 {
            assert(all[all.len() - 1] == entry_range(e)->Some_0);
            assert(in_ranges(all, p));
        }
        if in_ranges(before, p) {
            let i = choose|i: int|
                0 <= i < before.len() && (#[trigger] before[i]).0.0 <= p < before[i].1.0;
            assert(all[i] == before[i]);
        }
        if in_ranges(all, p) {
            let i = choose|i: int| 0 <= i < all.len() && (#[trigger] all[i]).0.0 <= p < all[i].1.0;
            if i < before.len() {
                assert(before[i] == all[i]);
                let k = choose|k: int| 0 <= k < n - 1 && whole_page(#[trigger] entries[k], p);
                assert(whole_page(entries[k], p));
            } else {
                assert(whole_page(entries[n - 1], p));
            }
        }
        assert forall|i: int| 0 <= i < all.len() implies (#[trigger] all[i]).0.0 < all[i].1.0 by {
            if i < before.len() {
                assert(all[i] == before[i]);
            }
        }
    }
}

proof fn lemma_cut_ranges_pages(
    ranges: Seq<(PhysPageNum, PhysPageNum)>,
    n: int,
    k_l: PhysPageNum,
    k_r: PhysPageNum,
    p: u64,
)
    requires
        0 <= n <= ranges.len(),
        k_l.0 <= k_r.0,
        forall|i: int| 0 <= i < ranges.len() ==> (#[trigger] ranges[i]).0.0 < ranges[i].1.0,
    ensures
        in_ranges(cut_ranges(ranges, n, k_l, k_r), p) <==> in_ranges(ranges.take(n), p) && !(k_l.0
            <= p < k_r.0),
        forall|i: int|
            0 <= i < cut_ranges(ranges, n, k_l, k_r).len() ==> (#[trigger] cut_ranges(
                ranges,
                n,
                k_l,
                k_r,
            )[i]).0.0 < cut_ranges(ranges, n, k_l, k_r)[i].1.0,
    decreases n,
{
    if n > 0 {
        lemma_cut_ranges_pages(ranges, n - 1, k_l, k_r, p);
        let before = cut_ranges(ranges, n - 1, k_l, k_r);
        let piece = cut_range(ranges[n - 1], k_l, k_r);
        let all = cut_ranges(ranges, n, k_l, k_r);
        let taken = ranges.take(n);
        let r = ranges[n - 1];
        assert(taken[n - 1] == r);
        if r.0.0 <= p < r.1.0 && !(k_l.0 <= p < k_r.0) {
            assert(in_ranges(taken, p));
            let k = if piece.len() == 2 && p >= k_r.0 {
                1int
            } else {
                0int
            };
            assert(all[before.len() + k] == piece[k]);
            assert(in_ranges(all, p));
        }
        if in_ranges(before, p) {
            let i = choose|i: int|
                0 <= i < before.len() && (#[trigger] before[i]).0.0 <= p < before[i].1.0;
            assert(all[i] == before[i]);
            let less = ranges.take(n - 1);
            let k = choose|k: int| 0 <= k < less.len() && (#[trigger] less[k]).0.0 <= p < less[k].1.0;
            assert(taken[k] == less[k]);
        }
        if in_ranges(taken, p) && !(r.0.0 <= p < r.1.0) {
            let k = choose|k: int|
                0 <= k < taken.len() && (#[trigger] taken[k]).0.0 <= p < taken[k].1.0;
            assert(ranges.take(n - 1)[k] == taken[k]);
        }
        if in_ranges(all, p) {
            let i = choose|i: int| 0 <= i < all.len() && (#[trigger] all[i]).0.0 <= p < all[i].1.0;
            if i < before.len() {
                assert(before[i] == all[i]);
            } else {
                assert(all[i] == piece[i - before.len()]);
                assert(taken[n - 1].0.0 <= p < taken[n - 1].1.0);
            }
        }
        assert forall|i: int| 0 <= i < all.len() implies (#[trigger] all[i]).0.0 < all[i].1.0 by {
            if i < before.len() {
                assert(all[i] == before[i]);
            } else {
                assert(all[i] == piece[i - before.len()]);
            }
        }
    }
}

/// After [`init_frame_allocator`] on a proper memory map the allocator manages exactly
/// the pages other than 0 that lie whole in usable memory and hold no byte of the kernel
/// image; where there are none, those from 1 MiB to `MEMORY_END`.
pub proof fn boot_allocator_manages_usable_pages(
    entries: Seq<LimineMemmapEntry>,
    kernel_phys: u64,
    kernel_size: u64,
    p: u64,
)
    requires
        memmap_ok(entries),
        kernel_phys + kernel_size < PA_LIMIT,
    ensures
        ({
            let a = allocator_over(allocatable_ranges(entries, kernel_phys, kernel_size));
            if exists|q: u64| allocatable_page(entries, kernel_phys, kernel_size, q) {
                a.managed(p) <==> allocatable_page(entries, kernel_phys, kernel_size, p)
            } else {
                a.managed(p) <==> 0x100 <= p < 0x1_0000
            }
        }),
{
    let all = allocatable_ranges(entries, kernel_phys, kernel_size);
    let kept = pages_beside_kernel(entries, kernel_phys, kernel_size);
    lemma_kept_pages(entries, kernel_phys, kernel_size, p);
    allocator_manages_its_ranges(all, p);
    if exists|q: u64| allocatable_page(entries, kernel_phys, kernel_size, q) {
        let q = choose|q: u64| allocatable_page(entries, kernel_phys, kernel_size, q);
        lemma_kept_pages(entries, kernel_phys, kernel_size, q);
    } else if kept.len() > 0 {
        let q = kept[0].0.0;
        lemma_kept_pages(entries, kernel_phys, kernel_size, q);
        assert(in_ranges(kept, q));
        assert(allocatable_page(entries, kernel_phys, kernel_size, q));
    } else {
        assert(all[0] == (PhysPageNum(0x100), PhysPageNum(0x1_0000)));
    }
}

proof fn lemma_kept_pages(
    entries: Seq<LimineMemmapEntry>,
    kernel_phys: u64,
    kernel_size: u64,
    p: u64,
)
    requires
        memmap_ok(entries),
        kernel_phys + kernel_size < PA_LIMIT,
    ensures
        in_ranges(pages_beside_kernel(entries, kernel_phys, kernel_size), p)
            <==> allocatable_page(entries, kernel_phys, kernel_size, p),
        pages_beside_kernel(entries, kernel_phys, kernel_size).len() > 0 ==> pages_beside_kernel(
            entries,
            kernel_phys,
            kernel_size,
        )[0].0.0 < pages_beside_kernel(entries, kernel_phys, kernel_size)[0].1.0,
{
    let n = entries.len() as int;
    let ranges = usable_ranges(entries, n);
    let k_l = kernel_first_page(kernel_phys);
    let k_r = kernel_end_page(kernel_phys, kernel_size);
    lemma_usable_ranges_pages(entries, n, p);
    lemma_cut_ranges_pages(ranges, ranges.len() as int, k_l, k_r, p);
    assert(ranges.take(ranges.len() as int) =~= ranges);
    assert((k_l.0 <= p < k_r.0) == (p * 0x1000 < kernel_phys + kernel_size && kernel_phys < (p + 1)
        * 0x1000));
}

/// After [`init_frame_allocator`] on a proper memory map no frame can be
/// handed out twice, page 0 is not allocatable, and unless the fallback range
/// is in use no page that holds a byte of the kernel image, which lies below the limit
/// of physical addresses, is either.
pub proof fn boot_allocator_is_safe(
    entries: Seq<LimineMemmapEntry>,
    kernel_phys: u64,
    kernel_size: u64,
    p: u64,
)
    requires
        memmap_ok(entries),
        kernel_first_page(kernel_phys).0 <= kernel_end_page(kernel_phys, kernel_size).0,
    ensures
        ({
            let a = allocator_over(allocatable_ranges(entries, kernel_phys, kernel_size));
            &&& a.distinct()
            &&& !a.managed(0)
            &&& pages_beside_kernel(entries, kernel_phys, kernel_size).len() > 0 && kernel_phys
                + kernel_size < PA_LIMIT && p * 0x1000 < kernel_phys + kernel_size && kernel_phys < (
            p + 1) * 0x1000 ==> !a.managed(p)
        }),
{
    let all = allocatable_ranges(entries, kernel_phys, kernel_size);
    let usable = usable_ranges(entries, entries.len() as int);
    let k_l = kernel_first_page(kernel_phys);
    let k_r = kernel_end_page(kernel_phys, kernel_size);
    let kept = pages_beside_kernel(entries, kernel_phys, kernel_size);
    lemma_usable_ranges_disjoint(entries, entries.len() as int);
    lemma_cut_ranges_disjoint(usable, usable.len() as int, k_l, k_r);
    assert(ranges_disjoint(all));
    disjoint_ranges_give_distinct_frames(all);
    allocator_manages_its_ranges(all, 0);
    allocator_manages_its_ranges(all, p);
    if kept.len() > 0 {
        if in_ranges(all, 0) {
            let i = choose|i: int| 0 <= i < all.len() && (#[trigger] all[i]).0.0 <= 0 < all[i].1.0;
            lemma_cut_ranges_source(usable, usable.len() as int, k_l, k_r, i);
            let e = choose|e: int|
                0 <= e < usable.len() && (#[trigger] usable[e]).0.0 <= all[i].0.0 && all[i].1.0
                    <= usable[e].1.0;
            lemma_usable_ranges_source(entries, entries.len() as int, e);
        }
        if in_ranges(all, p) {
            let i = choose|i: int| 0 <= i < all.len() && (#[trigger] all[i]).0.0 <= p < all[i].1.0;
            lemma_cut_ranges_avoid(usable, usable.len() as int, k_l, k_r, i);
        }
    }
}

/// Physical memory and the allocator of its frames.
pub struct FramePool<M: PhysMemory> {
    pub mem: M,
    pub allocator: FrameDequeAllocator,
}

impl<M: PhysMemory> FramePool<M> {
    /// What the frames hold.
    pub open spec fn frames(&self) -> Frames {
        self.mem.frames()
    }

    /// The frames that can be handed out.
    pub open spec fn free(&self) -> Set<u64> {
        self.allocator@.free()
    }

    /// Whether frame `p` belongs to the allocator and has been handed out.
    pub open spec fn allocated(&self, p: u64) -> bool {
        self.allocator@.managed(p) && !self.allocator@.is_free(p)
    }

    /// How many frames can be handed out.
    pub open spec fn free_count(&self) -> nat {
        self.allocator@.free_count()
    }

    /// No frame can be handed out twice, and every managed frame exists.
    pub open spec fn wf(&self) -> bool {
        &&& self.allocator@.wf()
        &&& self.allocator@.distinct()
        &&& forall|p: u64| #[trigger]
            self.allocator@.managed(p) ==> self.frames().dom().contains(p)
    }

    /// Whether `self` manages the frames that `other` manages, over the same
    /// memory.
    pub open spec fn same_extent(&self, other: &Self) -> bool {
        &&& self.allocator@.start == other.allocator@.start
        &&& self.allocator@.end == other.allocator@.end
        &&& self.frames().dom() == other.frames().dom()
    }
}

/// A frame that can be handed out is one of the allocator's.
pub proof fn free_frames_are_managed(a: AllocatorView, p: u64)
    requires
        a.wf(),
        a.distinct(),
        a.is_free(p),
    ensures
        a.managed(p),
{
    if a.recycled.contains(PhysPageNum(p)) {
        let i = choose|i: int| 0 <= i < a.recycled.len() && a.recycled[i] == PhysPageNum(p);
        assert(a.managed(a.recycled[i].0));
    } else {
        let i = choose|i: int|
            a.active <= i < a.start.len() && (#[trigger] a.current[i]).0 <= p < a.end[i].0;
        assert(a.start[i].0 <= p);
    }
}

/// A frame that has been handed out and not given back.
#[derive(Debug)]
pub struct FrameTracker {
    pub ppn: PhysPageNum,
}

impl FrameTracker {
    /// Take charge of frame `ppn` and clear it.
    pub fn new<M: PhysMemory>(mem: &mut M, ppn: PhysPageNum) -> (r: Self)
        requires
            old(mem).frames().dom().contains(ppn.0),
        ensures
            r.ppn == ppn,
            final(mem).frames() == old(mem).frames().insert(ppn.0, cleared_frame()),
    {
        clear_frame(mem, ppn.0);
        FrameTracker { ppn }
    }
}

/// Allocate a frame and clear it.
pub fn frame_alloc<M: PhysMemory>(pool: &mut FramePool<M>) -> (r: Option<FrameTracker>)
    requires
        old(pool).wf(),
    ensures
        final(pool).wf(),
        final(pool).same_extent(old(pool)),
        final(pool).allocator@ == old(pool).allocator@.after_alloc(),
        r is Some <==> old(pool).free_count() > 0,
        match r {
            Some(frame) => {
                &&& old(pool).allocator@.next_frame() == Some(frame.ppn)
                &&& old(pool).free().contains(frame.ppn.0)
                &&& final(pool).free() == old(pool).free().remove(frame.ppn.0)
                &&& final(pool).free_count() == old(pool).free_count() - 1
                &&& final(pool).frames() == old(pool).frames().insert(
                    frame.ppn.0,
                    cleared_frame(),
                )
                &&& final(pool).allocated(frame.ppn.0)
                &&& frame.ppn.0 < PPN_LIMIT
            },
            None => {
                &&& final(pool).free() == old(pool).free()
                &&& final(pool).frames() == old(pool).frames()
            },
        },
{
    proof {
        alloc_takes_one_free_frame(pool.allocator@);
        pool.mem.frames_wf();
    }
    let ghost start = pool.allocator@;
    match pool.allocator.alloc_frame() {
        Some(ppn) => {
            let frame = FrameTracker::new(&mut pool.mem, ppn);
            proof {
                assert(pool.frames().dom() =~= old(pool).frames().dom());
                assert forall|p: u64| #[trigger] pool.allocator@.managed(p) implies start.managed(
                    p,
                ) by {
                    lemma_managed_same(start, pool.allocator@, p);
                }
                lemma_managed_same(start, pool.allocator@, ppn.0);
                assert(!pool.free().contains(ppn.0));
            }
            Some(frame)
        },
        None => None,
    }
}

/// Give back a frame.
pub fn frame_dealloc<M: PhysMemory>(pool: &mut FramePool<M>, ppn: PhysPageNum)
    requires
        old(pool).wf(),
        old(pool).allocated(ppn.0),
    ensures
        final(pool).wf(),
        final(pool).same_extent(old(pool)),
        final(pool).frames() == old(pool).frames(),
        final(pool).allocator@ == old(pool).allocator@.after_dealloc(ppn),
        final(pool).free() == old(pool).free().insert(ppn.0),
        final(pool).free_count() == old(pool).free_count() + 1,
{
    let ghost start = pool.allocator@;
    proof {
        dealloc_frees_one_frame(pool.allocator@, ppn);
        assert(ppn == PhysPageNum(ppn.0));
    }
    pool.allocator.dealloc(ppn);
    proof {
        assert forall|p: u64| #[trigger] pool.allocator@.managed(p) implies start.managed(p) by {
            lemma_managed_same(start, pool.allocator@, p);
        }
    }
}

} // verus!
