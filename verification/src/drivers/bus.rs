//! Memory for VirtIO devices.
use vstd::prelude::*;
use crate::mm::address::{PhysAddr, PhysPageNum, PPN_LIMIT};
use crate::mm::frame_allocator::{
    frame_alloc, frame_dealloc, AllocatorView, FramePool, FrameTracker,
};
use crate::mm::page_table::{lemma_managed_by_extent, root_of};
use crate::mm::phys::{cleared_frame, PhysMemory};
use crate::mm::user_memory::{reachable, translated_ref, user_frame};

verus! {

/// The allocator after `n` frames were handed out.
pub open spec fn drawn(a: AllocatorView, n: int) -> AllocatorView
    decreases n,
{
    if n <= 0 {
        a
    } else {
        drawn(a, n - 1).after_alloc()
    }
}

/// Whether the next `n` frames follow each other from `base` on.
pub open spec fn contiguous(a: AllocatorView, base: u64, n: int) -> bool {
    forall|i: int|
        0 <= i < n ==> (#[trigger] drawn(a, i)).next_frame() == Some(
            PhysPageNum((base + i) as u64),
        )
}

/// Whether the next `pages` frames are there and follow each other.
pub open spec fn can_draw<M: PhysMemory>(pool: &FramePool<M>, pages: usize) -> bool {
    &&& pool.free_count() >= pages
    &&& pages > 0 ==> (pool.allocator@.next_frame() matches Some(first) && contiguous(
        pool.allocator@,
        first.0,
        pages as int,
    ) && first.0 + pages <= PPN_LIMIT)
}

/// Whether the next `pages` frames are there and follow each other.
pub fn draw_possible<M: PhysMemory>(pool: &FramePool<M>, pages: usize) -> (r: bool)
    requires
        pool.wf(),
    ensures
        r == can_draw(pool, pages),
{
    if pool.allocator.free_count() < pages as u128 {
        return false;
    }
    if pages == 0 {
        return true;
    }
    let ghost a = pool.allocator@;
    let mut trial = pool.allocator.same_state();
    let mut base: u64 = 0;
    let mut i: usize = 0;
    while i < pages
        invariant
            i <= pages,
            a == pool.allocator@,
            pool.free_count() >= pages > 0,
            trial@ == drawn(a, i as int),
            trial@.wf(),
            i > 0 ==> a.next_frame() == Some(PhysPageNum(base)) && contiguous(a, base, i as int)
                && base + pages <= PPN_LIMIT,
        decreases pages - i,
    {
        assert(drawn(a, i as int) == trial@);
        match trial.alloc_frame() {
            Some(ppn) => {
                if i == 0 {
                    base = ppn.0;
                    if base >= PPN_LIMIT || pages as u64 > PPN_LIMIT - base {
                        return false;
                    }
                } else if ppn.0 != base + i as u64 {
                    assert(!contiguous(a, base, pages as int));
                    return false;
                }
                assert(drawn(a, i as int).next_frame() == Some(PhysPageNum((base + i) as u64)));
                assert(contiguous(a, base, i + 1));
            },
            None => {
                assert(i > 0 ==> !contiguous(a, base, pages as int));
                return false;
            },
        }
        i = i + 1;
    }
    true
}

/// `pool` came from `pool0` by drawing `pages` frames that follow each other, which are
/// added to the frames of the devices; the first one is at physical address `pa`.
pub open spec fn frames_drawn<M: PhysMemory>(
    pool: &FramePool<M>,
    pool0: &FramePool<M>,
    queue: Seq<FrameTracker>,
    queue0: Seq<FrameTracker>,
    pages: usize,
    pa: u64,
) -> bool {
    &&& pa == if pages > 0 {
        pool0.allocator@.next_frame()->Some_0.0 * 0x1000
    } else {
        0
    }
    &&& queue.len() == queue0.len() + pages
    &&& forall|i: int| 0 <= i < queue0.len() ==> #[trigger] queue[i] == queue0[i]
    &&& forall|i: int|
        0 <= i < pages ==> (#[trigger] queue[queue0.len() + i]).ppn.0 == pa as int / 0x1000 + i
    &&& forall|f: u64| #[trigger]
        pool.frames()[f] == (if pa as int / 0x1000 <= f < pa as int / 0x1000 + pages {
            cleared_frame()
        } else {
            pool0.frames()[f]
        })
    &&& forall|f: u64| #[trigger]
        pool.free().contains(f) <==> pool0.free().contains(f) && !(pa as int / 0x1000 <= f < pa as int
            / 0x1000 + pages)
}

/// Hand out `pages` frames for a device, which are cleared and follow each other. They
/// are kept in `queue_frames`. Returns the physical address of the first.
pub fn dma_alloc<M: PhysMemory>(
    pool: &mut FramePool<M>,
    queue_frames: &mut Vec<FrameTracker>,
    pages: usize,
) -> (r: u64)
    requires
        old(pool).wf(),
        can_draw(old(pool), pages),
    ensures
        final(pool).wf(),
        final(pool).same_extent(old(pool)),
        final(pool).allocator@ == drawn(old(pool).allocator@, pages as int),
        final(pool).free_count() == old(pool).free_count() - pages,
        frames_drawn(final(pool), old(pool), final(queue_frames)@, old(queue_frames)@, pages, r),
{
    let ghost a0 = pool.allocator@;
    let ghost q0 = queue_frames@;
    let ghost base = a0.next_frame()->Some_0.0;
    let ghost pool0 = *pool;
    let mut ppn_base = PhysPageNum(0);
    let mut i: usize = 0;
    while i < pages
        invariant
            i <= pages,
            pool0.wf(),
            a0 == pool0.allocator@,
            pool.wf(),
            pool.same_extent(&pool0),
            pool.allocator@ == drawn(a0, i as int),
            pool.free_count() == pool0.free_count() - i,
            pool0.free_count() >= pages,
            pages > 0 ==> contiguous(a0, base, pages as int) && base + pages <= PPN_LIMIT,
            ppn_base.0 == if i > 0 {
                base
            } else {
                0
            },
            queue_frames@.len() == q0.len() + i,
            forall|k: int| 0 <= k < q0.len() ==> #[trigger] queue_frames@[k] == q0[k],
            forall|k: int|
                0 <= k < i ==> (#[trigger] queue_frames@[q0.len() + k]).ppn.0 == base + k,
            forall|f: u64| #[trigger]
                pool.frames()[f] == (if base <= f < base + i {
                    cleared_frame()
                } else {
                    pool0.frames()[f]
                }),
            forall|f: u64| #[trigger]
                pool.free().contains(f) <==> pool0.free().contains(f) && !(base <= f < base + i),
        decreases pages - i,
    {
        assert(drawn(a0, i as int).next_frame() == Some(PhysPageNum((base + i) as u64)));
        let frame: FrameTracker = frame_alloc(pool).unwrap();
        if i == 0 {
            ppn_base = frame.ppn;
        }
        queue_frames.push(frame);
        i = i + 1;
    }
    ppn_base.addr().0
}

/// Whether the `pages` frames from physical address `pa` on are handed out.
pub open spec fn can_give_back<M: PhysMemory>(pool: &FramePool<M>, pa: u64, pages: usize) -> bool {
    &&& pa / 0x1000 + pages <= PPN_LIMIT
    &&& forall|i: int|
        0 <= i < pages ==> #[trigger] pool.allocated((pa as int / 0x1000 + i) as u64)
}

/// Whether the `pages` frames from physical address `pa` on are handed out.
pub fn give_back_possible<M: PhysMemory>(pool: &FramePool<M>, pa: u64, pages: usize) -> (r: bool)
    requires
        pool.wf(),
    ensures
        r == can_give_back(pool, pa, pages),
{
    let first: u64 = pa / 0x1000;
    if first > PPN_LIMIT || pages as u64 > PPN_LIMIT - first {
        return false;
    }
    let mut i: usize = 0;
    while i < pages
        invariant
            i <= pages,
            first == pa / 0x1000,
            first + pages <= PPN_LIMIT,
            pool.wf(),
            forall|k: int|
                0 <= k < i ==> #[trigger] pool.allocated((pa as int / 0x1000 + k) as u64),
        decreases pages - i,
    {
        if !pool.allocator.is_allocated(first + i as u64) {
            assert(!pool.allocated((pa as int / 0x1000 + i) as u64));
            return false;
        }
        i = i + 1;
    }
    true
}

/// `pool` came from `pool0` by giving back `pages` frames from physical address `pa` on.
pub open spec fn frames_given_back<M: PhysMemory>(
    pool: &FramePool<M>,
    pool0: &FramePool<M>,
    pa: u64,
    pages: usize,
) -> bool {
    &&& pool.frames() == pool0.frames()
    &&& pool.free_count() == pool0.free_count() + pages
    &&& forall|f: u64| #[trigger]
        pool.free().contains(f) <==> pool0.free().contains(f) || (pa as int / 0x1000 <= f < pa as int
            / 0x1000 + pages)
}

/// Take back `pages` frames from physical address `pa` on.
pub fn dma_dealloc<M: PhysMemory>(pool: &mut FramePool<M>, pa: u64, pages: usize) -> (r: i32)
    requires
        old(pool).wf(),
        can_give_back(old(pool), pa, pages),
    ensures
        r == 0,
        final(pool).wf(),
        final(pool).same_extent(old(pool)),
        frames_given_back(final(pool), old(pool), pa, pages),
{
    let ghost pool0 = *pool;
    let first: u64 = pa / 0x1000;
    let mut i: usize = 0;
    while i < pages
        invariant
            i <= pages,
            first == pa / 0x1000,
            first + pages <= PPN_LIMIT,
            pool0.wf(),
            pool.wf(),
            pool.same_extent(&pool0),
            pool.frames() == pool0.frames(),
            pool.free_count() == pool0.free_count() + i,
            forall|k: int|
                0 <= k < pages ==> #[trigger] pool0.allocated((pa as int / 0x1000 + k) as u64),
            forall|f: u64| #[trigger]
                pool.free().contains(f) <==> pool0.free().contains(f) || (first <= f < first + i),
        decreases pages - i,
    {
        let ppn = PhysPageNum(first + i as u64);
        proof {
            assert(pool0.allocated((pa as int / 0x1000 + i) as u64));
            lemma_managed_by_extent(pool, &pool0, ppn.0);
            assert(!pool.free().contains(ppn.0));
        }
        frame_dealloc(pool, ppn);
        i = i + 1;
    }
    0
}

/// The physical address of a buffer of the kernel, for a device.
pub fn share<M: PhysMemory>(mem: &M, kernel_token: u64, vaddr: u64) -> (r: u64)
    requires
        reachable(mem.frames(), root_of(kernel_token), vaddr as int),
    ensures
        r == user_frame(mem.frames(), root_of(kernel_token), vaddr as int) * 0x1000 + vaddr
            % 0x1000,
{
    let pa: PhysAddr = translated_ref(mem, kernel_token, vaddr);
    pa.0
}

} // verus!
