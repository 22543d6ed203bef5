//! Giving back what a thread has in its process.
use vstd::prelude::*;
use super::id::{ustack_bottom, ustack_bottom_from_tid, TaskUserRes};
use super::kernel::{
    lemma_areas_data_removed, lemma_memory_kept, lemma_spaces_insert, memory_wf, Kernel,
};
use super::process::{ProcessControlBlock, ProcessControlBlockInner};
use crate::mm::address::{VirtAddr, VA_LIMIT};
use crate::mm::frame_allocator::FramePool;
use crate::mm::map_area::{data_between, AreaView};
use crate::mm::memory_set::{area_index, areas_data, cut_back, data_count, MemorySet};
use crate::mm::phys::PhysMemory;
use crate::mm::spaces::{
    confined, lemma_bystander, lemma_cut_confined, lemma_own_part_changed, lemma_space_changed,
};

verus! {

/// The page in which the user stack of a thread starts.
pub open spec fn ustack_page(res: TaskUserRes) -> int {
    (ustack_bottom(res.ustack_base, res.tid) % (VA_LIMIT as int)) / 0x1000
}

/// The areas without the first one that starts at page `page`.
pub open spec fn areas_without(areas: Seq<AreaView>, page: int) -> Seq<AreaView> {
    let i = area_index(areas, page, 0);
    if 0 <= i < areas.len() {
        areas.remove(i)
    } else {
        areas
    }
}

/// `ms` came from `ms0` by giving back areas: the frames that the areas lost can
/// be handed out again, and nothing but page table entries was changed.
pub open spec fn areas_given_back<M: PhysMemory>(
    ms: &MemorySet,
    pool: &FramePool<M>,
    ms0: &MemorySet,
    pool0: &FramePool<M>,
) -> bool {
    &&& ms.root() == ms0.root()
    &&& ms.table().slots() == ms0.table().slots()
    &&& ms.table().table_frames() == ms0.table().table_frames()
    &&& ms.table().table_count() == ms0.table().table_count()
    &&& pool.same_extent(pool0)
    &&& pool.free().union(areas_data(ms.areas())) == pool0.free().union(areas_data(ms0.areas()))
    &&& pool.free_count() + data_count(ms.areas(), ms.areas().len() as int)
        == pool0.free_count() + data_count(ms0.areas(), ms0.areas().len() as int)
    &&& forall|f: u64|
        !ms0.table().table_frames().contains(f) ==> #[trigger] pool.frames()[f]
            == pool0.frames()[f]
    &&& confined(pool, pool0, ms0.owned())
    &&& forall|f: u64| #[trigger] ms.owned().contains(f) ==> ms0.owned().contains(f)
}

pub proof fn lemma_given_back_trans<M: PhysMemory>(
    m2: &MemorySet,
    p2: &FramePool<M>,
    m1: &MemorySet,
    p1: &FramePool<M>,
    m0: &MemorySet,
    p0: &FramePool<M>,
)
    requires
        areas_given_back(m1, p1, m0, p0),
        areas_given_back(m2, p2, m1, p1),
    ensures
        areas_given_back(m2, p2, m0, p0),
{
    crate::mm::spaces::lemma_confined_trans(p2, p1, p0, m1.owned(), m0.owned());
}

proof fn lemma_data_count_same(a: Seq<AreaView>, b: Seq<AreaView>, n: int)
    requires
        0 <= n <= a.len(),
        n <= b.len(),
        forall|k: int| 0 <= k < n ==> #[trigger] a[k] == b[k],
    ensures
        data_count(a, n) == data_count(b, n),
    decreases n,
{
    if n > 0 {
        assert(a[n - 1] == b[n - 1]);
        lemma_data_count_same(a, b, n - 1);
    }
}

/// An area that is taken out no longer counts.
proof fn lemma_data_count_removed(areas: Seq<AreaView>, i: int, n: int)
    requires
        0 <= i < n <= areas.len(),
    ensures
        data_count(areas, n) == data_count(areas.remove(i), n - 1) + (if areas[i].framed() {
            (areas[i].end - areas[i].start) as nat
        } else {
            0
        }),
    decreases n,
{
    let rest = areas.remove(i);
    if n - 1 == i {
        lemma_data_count_same(areas, rest, i);
    } else {
        lemma_data_count_removed(areas, i, n - 1);
        assert(rest[n - 2] == areas[n - 1]);
    }
}

/// Taking an area out gives back its frames.
proof fn lemma_removed_given_back<M: PhysMemory>(
    ms: &MemorySet,
    pool: &FramePool<M>,
    ms0: &MemorySet,
    pool0: &FramePool<M>,
    i: int,
)
    requires
        ms0.wf(pool0),
        0 <= i < ms0.areas().len(),
        ms.areas() == ms0.areas().remove(i),
        cut_back(ms, pool, ms0, pool0, i, ms0.areas()[i].start),
    ensures
        areas_given_back(ms, pool, ms0, pool0),
{
    let areas0 = ms0.areas();
    let areas = ms.areas();
    let area = areas0[i];
    let freed = data_between(area, area.start, area.end);
    assert(area.wf());
    lemma_data_count_removed(areas0, i, areas0.len() as int);
    lemma_areas_data_removed(areas0, i);
    lemma_cut_confined(ms, pool, ms0, pool0, i, area.start);
    assert forall|f: u64| pool.free().union(areas_data(areas)).contains(f)
        == pool0.free().union(areas_data(areas0)).contains(f) by {
        if freed.contains(f) {
            let v = choose|v: int|
                area.start <= v < area.end && area.data.dom().contains(v) && #[trigger] area.data[v]
                    == f;
            assert(area.data.dom().contains(v) && area.data[v] == f);
            assert(areas0[i].data_set().contains(f));
            assert(areas_data(areas0).contains(f));
        }
        if areas_data(areas0).contains(f) {
            let k = choose|k: int|
                0 <= k < areas0.len() && (#[trigger] areas0[k]).data_set().contains(f);
            if k == i {
                let v = choose|v: int| area.data.dom().contains(v) && #[trigger] area.data[v] == f;
                assert(area.data.dom().contains(v));
                assert(area.data[v] == f && area.start <= v < area.end);
                assert(freed.contains(f));
            } else if k < i {
                assert(areas[k].data_set().contains(f));
            } else {
                assert(areas[k - 1].data_set().contains(f));
            }
        }
    }
    assert(pool.free().union(areas_data(areas)) =~= pool0.free().union(areas_data(areas0)));
}

impl TaskUserRes {
    /// Take back the number of the thread.
    pub fn dealloc_tid<M: PhysMemory>(&self, kernel: &mut Kernel<M>)
        requires
            old(kernel).mem_wf(),
            old(kernel).processes@.dom().contains(self.process),
            old(kernel).processes@[self.process].inner.task_res_allocator@.live(self.tid),
        ensures
            final(kernel).mem_wf(),
            ({
                let p0 = old(kernel).processes@[self.process];
                let p1 = final(kernel).processes@[self.process];
                &&& final(kernel).processes@ == old(kernel).processes@.insert(self.process, p1)
                &&& p1.inner.task_res_allocator@ == p0.inner.task_res_allocator@.after_dealloc(
                    self.tid,
                )
                &&& p1 == (ProcessControlBlock {
                    inner: ProcessControlBlockInner {
                        task_res_allocator: p1.inner.task_res_allocator,
                        ..p0.inner
                    },
                    ..p0
                })
            }),
            *final(kernel) == (Kernel { processes: final(kernel).processes, ..*old(kernel) }),
    {
        let ghost k0 = *kernel;
        let mut process = kernel.processes.remove(&self.process).unwrap();
        process.inner.dealloc_tid(self.tid);
        let ghost p1 = process;
        kernel.processes.insert(self.process, process);
        proof {
            assert(kernel.processes@ =~= k0.processes@.insert(self.process, p1));
            lemma_spaces_insert(k0.processes@, self.process, p1);
            assert(kernel.spaces() =~= k0.spaces());
            lemma_memory_kept(kernel, &k0);
        }
    }

    /// Give back the user stack of the thread.
    fn dealloc_user_res<M: PhysMemory>(&self, kernel: &mut Kernel<M>)
        requires
            old(kernel).mem_wf(),
            old(kernel).processes@.dom().contains(self.process),
            self.wf(),
        ensures
            final(kernel).mem_wf(),
            ({
                let p0 = old(kernel).processes@[self.process];
                let p1 = final(kernel).processes@[self.process];
                let ms0 = p0.inner.memory_set;
                let ms1 = p1.inner.memory_set;
                &&& final(kernel).processes@ == old(kernel).processes@.insert(self.process, p1)
                &&& p1 == (ProcessControlBlock {
                    inner: ProcessControlBlockInner { memory_set: ms1, ..p0.inner },
                    ..p0
                })
                &&& ms1.areas() == areas_without(ms0.areas(), ustack_page(*self))
                &&& areas_given_back(&ms1, &final(kernel).pool, &ms0, &old(kernel).pool)
            }),
            *final(kernel) == (Kernel {
                pool: final(kernel).pool,
                processes: final(kernel).processes,
                ..*old(kernel)
            }),
    {
        let ghost k0 = *kernel;
        let bottom: VirtAddr = VirtAddr::new(ustack_bottom_from_tid(self.ustack_base, self.tid));
        let mut process = kernel.processes.remove(&self.process).unwrap();
        let ghost p0 = process;
        let ghost ms0 = p0.inner.memory_set;
        proof {
            reveal(memory_wf);
            assert(k0.spaces().dom().contains(self.process));
        }
        process.inner.memory_set.remove_area_with_start_vpn(&mut kernel.pool, bottom.floor());
        let ghost p1 = process;
        let ghost ms1 = p1.inner.memory_set;
        kernel.processes.insert(self.process, process);
        proof {
            let i = area_index(ms0.areas(), ustack_page(*self), 0);
            lemma_area_index_range(ms0.areas(), ustack_page(*self), 0);
            if i < ms0.areas().len() {
                lemma_removed_given_back(&ms1, &kernel.pool, &ms0, &k0.pool, i);
            }
            lemma_own_part_changed(&ms1, &kernel.pool, &ms0, &k0.pool, &k0.kernel_space);
            lemma_space_changed(
                &kernel.pool,
                &k0.pool,
                &k0.kernel_space,
                k0.spaces(),
                self.process,
                ms1,
                ms0.owned(),
            );
            lemma_bystander(&k0.kernel_space, &kernel.pool, &k0.pool, ms0.owned());
            lemma_spaces_insert(k0.processes@, self.process, p1);
            assert(kernel.processes@ =~= k0.processes@.insert(self.process, p1));
        }
    }

    /// Give back the number and the user stack of the thread.
    pub fn release<M: PhysMemory>(self, kernel: &mut Kernel<M>)
        requires
            old(kernel).mem_wf(),
            old(kernel).processes@.dom().contains(self.process),
            old(kernel).processes@[self.process].inner.task_res_allocator@.live(self.tid),
            self.wf(),
        ensures
            final(kernel).mem_wf(),
            res_released(final(kernel), old(kernel), self),
            *final(kernel) == (Kernel {
                pool: final(kernel).pool,
                processes: final(kernel).processes,
                ..*old(kernel)
            }),
    {
        let ghost k0 = *kernel;
        self.dealloc_tid(kernel);
        self.dealloc_user_res(kernel);
        proof {
            assert(kernel.processes@ =~= k0.processes@.insert(
                self.process,
                kernel.processes@[self.process],
            ));
        }
    }
}

/// `kernel` came from `kernel0` by giving back the number and the user stack of
/// a thread.
pub open spec fn res_released<M: PhysMemory>(
    kernel: &Kernel<M>,
    kernel0: &Kernel<M>,
    res: TaskUserRes,
) -> bool {
    let p0 = kernel0.processes@[res.process];
    let p1 = kernel.processes@[res.process];
    let ms0 = p0.inner.memory_set;
    let ms1 = p1.inner.memory_set;
    &&& kernel.processes@ == kernel0.processes@.insert(res.process, p1)
    &&& p1.inner.task_res_allocator@ == p0.inner.task_res_allocator@.after_dealloc(res.tid)
    &&& p1 == (ProcessControlBlock {
        inner: ProcessControlBlockInner {
            task_res_allocator: p1.inner.task_res_allocator,
            memory_set: ms1,
            ..p0.inner
        },
        ..p0
    })
    &&& ms1.areas() == areas_without(ms0.areas(), ustack_page(res))
    &&& areas_given_back(&ms1, &kernel.pool, &ms0, &kernel0.pool)
}

proof fn lemma_area_index_range(areas: Seq<AreaView>, start: int, i: int)
    requires
        0 <= i <= areas.len(),
    ensures
        i <= area_index(areas, start, i) <= areas.len(),
    decreases areas.len() - i,
{
    if i < areas.len() {
        lemma_area_index_range(areas, start, i + 1);
    }
}

} // verus!
