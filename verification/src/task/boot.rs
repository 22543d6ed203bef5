//! The kernel as it starts, before the first process.
use std::collections::BTreeMap;
use vstd::prelude::*;
use super::id::{IdView, RecycleAllocator};
use super::kernel::{
    lemma_stack_page, memory_wf, processor_wf, references_wf, stacks_mapped, Kernel,
};
use super::manager::TaskManager;
use super::pid::PidAllocator;
use super::process::ProcessControlBlock;
use super::processor::Processor;
use super::task::TaskControlBlock;
use crate::config::NCPU;
use crate::drivers::chardev::NS16550a;
use crate::mm::frame_allocator::FramePool;
use crate::mm::map_area::AreaView;
use crate::mm::memory_set::MemorySet;
use crate::mm::phys::PhysMemory;
use crate::mm::table_tree::table_at;
use crate::timer::Timers;

verus! {

/// The page at which the kernel stacks begin.
pub open spec fn stacks_start() -> int {
    0xf_fffc_0000
}

/// Whether the area ends before the kernel stacks begin.
pub open spec fn below_stacks(area: AreaView) -> bool {
    area.start < stacks_start() && area.end <= stacks_start()
}

/// Whether there is an area in the part of the address space that the last entry
/// of the root translates, where the kernel's image and stacks lie.
pub open spec fn image_mapped(ms: &MemorySet) -> bool {
    exists|i: int, v: int|
        0 <= i < ms.areas().len() && v / 0x800_0000 == 511 && #[trigger] ms.areas()[i].contains(v)
}

/// Whether the address space has the kernel's image where it belongs and leaves room for
/// the kernel stacks.
pub open spec fn leaves_room(ms: &MemorySet) -> bool {
    &&& image_mapped(ms)
    &&& forall|i: int| 0 <= i < ms.areas().len() ==> below_stacks(#[trigger] ms.areas()[i])
}

/// Whether the address space has the kernel's image where it belongs and leaves room for
/// the kernel stacks.
pub fn stacks_have_room(ms: &MemorySet) -> (r: bool)
    ensures
        r == leaves_room(ms),
{
    let pages: Vec<(u64, u64)> = ms.area_pages();
    let mut image: bool = false;
    let mut i: usize = 0;
    while i < pages.len()
        invariant
            i <= pages@.len(),
            pages@.len() == ms.areas().len(),
            forall|j: int|
                0 <= j < pages@.len() ==> (#[trigger] pages@[j]).0 == ms.areas()[j].start
                    && pages@[j].1 == ms.areas()[j].end,
            forall|j: int| 0 <= j < i ==> below_stacks(#[trigger] ms.areas()[j]),
            image ==> image_mapped(ms),
            !image ==> forall|j: int, v: int|
                0 <= j < i && v / 0x800_0000 == 511 ==> !(#[trigger] ms.areas()[j].contains(v)),
        decreases pages@.len() - i,
    {
        let range: (u64, u64) = pages[i];
        assert(range == pages@[i as int]);
        if range.0 >= 0xf_fffc_0000 || range.1 > 0xf_fffc_0000 {
            assert(!below_stacks(ms.areas()[i as int]));
            return false;
        }
        assert(below_stacks(ms.areas()[i as int]));
        // here the part of the last entry begins
        let low: u64 = if range.0 < 0xf_f800_0000 {
            0xf_f800_0000
        } else {
            range.0
        };
        if low < range.1 {
            assert(ms.areas()[i as int].contains(low as int));
            image = true;
        } else {
            assert forall|v: int| v / 0x800_0000 == 511 implies !(
            #[trigger] ms.areas()[i as int].contains(v)) by {
                assert(v >= 0xf_f800_0000);
            }
        }
        i = i + 1;
    }
    image
}

proof fn lemma_image_mapped<M: PhysMemory>(ms: &MemorySet, pool: &FramePool<M>)
    requires
        ms.wf(pool),
        ms.table().slots() == 512,
        image_mapped(ms),
    ensures
        ms.table().present(pool).contains((1int, 511int)),
{
    let (i, v) = choose|i: int, v: int|
        0 <= i < ms.areas().len() && v / 0x800_0000 == 511 && #[trigger] ms.areas()[i].contains(v);
    let root = ms.root();
    let mem = pool.frames();
    assert(ms.areas()[i].contains(v));
    assert(ms.table().leaf(pool, v) is Some);
    assert(table_at(mem, root, 3, v / 512) is Some);
    assert(table_at(mem, root, 2, v / 512 / 512) is Some);
    assert(table_at(mem, root, 1, v / 512 / 512 / 512) is Some);
    assert(v / 512 / 512 / 512 == 511);
}

impl<M: PhysMemory> Kernel<M> {
    /// A kernel without processes and threads. The areas of its address space leave
    /// room for the kernel stacks.
    pub fn new(
        pool: FramePool<M>,
        kernel_space: MemorySet,
        phys_offset: u64,
        restore: u64,
    ) -> (r: Self)
        requires
            pool.wf(),
            kernel_space.wf(&pool),
            kernel_space.exact(&pool),
            kernel_space.table().slots() == 512,
            leaves_room(&kernel_space),
        ensures
            r.wf(),
            r.pool == pool,
            r.kernel_space == kernel_space,
            r.phys_offset == phys_offset,
            r.restore == restore,
            r.kstack_allocator@ == (IdView { current: 0, recycled: Seq::empty() }),
            r.pid_allocator@ == (IdView { current: 1, recycled: Seq::empty() }),
            r.processes@ == Map::<usize, ProcessControlBlock>::empty(),
            r.tasks@ == Map::<usize, TaskControlBlock>::empty(),
            r.task_manager@ == Seq::<usize>::empty(),
            r.pid2process@ == Map::<usize, usize>::empty(),
            r.timers.ticks() == 0,
            r.timers.events().len() == 0,
            r.processors@.len() == NCPU,
            forall|c: int|
                0 <= c < NCPU ==> (#[trigger] r.processors@[c]).current is None
                    && r.processors@[c].pending_requeue@.len() == 0
                    && r.processors@[c].exiting_process is None,
            r.initproc is None,
            r.console.read_buffer@.len() == 0,
            r.console.condvar.inner.wait_queue@.len() == 0,
            r.orphans@.len() == 0,
    {
        let mut processors: Vec<Processor> = Vec::new();
        let mut c: usize = 0;
        while c < NCPU
            invariant
                c <= NCPU,
                processors@.len() == c,
                forall|i: int|
                    0 <= i < c ==> (#[trigger] processors@[i]).current is None
                        && processors@[i].pending_requeue@.len() == 0
                        && processors@[i].exiting_process is None,
            decreases NCPU - c,
        {
            processors.push(Processor::new());
            c = c + 1;
        }
        let kernel = Kernel {
            pool,
            kernel_space,
            phys_offset,
            restore,
            kstack_allocator: RecycleAllocator::new(),
            pid_allocator: PidAllocator::new(),
            processes: BTreeMap::new(),
            tasks: BTreeMap::new(),
            task_manager: TaskManager::new(),
            pid2process: BTreeMap::new(),
            timers: Timers::new(),
            processors,
            initproc: None,
            console: NS16550a::new(),
            orphans: Vec::new(),
        };
        proof {
            lemma_image_mapped(&kernel.kernel_space, &kernel.pool);
            reveal(memory_wf);
            reveal(references_wf);
            let areas = kernel.kernel_space.areas();
            let ids = kernel.kstack_allocator@;
            assert(kernel.processes@ =~= Map::empty());
            assert(kernel.tasks@ =~= Map::empty());
            assert(kernel.pid2process@ =~= Map::empty());
            assert(stacks_mapped(areas, ids)) by {
                assert forall|i: int, id: usize|
                    0 <= i < areas.len() && crate::config::kernel_stack_id_ok(id as int)
                        && !#[trigger] ids.live(id) implies (#[trigger] areas[i]).start
                    != super::kernel::stack_page(id) && !areas[i].contains(
                    super::kernel::stack_page(id),
                ) && !areas[i].contains(super::kernel::stack_page(id) + 1) by {
                    lemma_stack_page(id);
                    assert(below_stacks(areas[i]));
                }
            }
            assert forall|c: int| 0 <= c < NCPU implies #[trigger] processor_wf(&kernel, c) by {
                assert(kernel.processors@[c].current is None);
            }
        }
        kernel
    }
}

} // verus!
