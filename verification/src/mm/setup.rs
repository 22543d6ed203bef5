//! Setting up memory when the machine starts.
use vstd::prelude::*;
use super::address::PPN_LIMIT;
use super::frame_allocator::{
    allocatable_ranges, allocator_manages_its_ranges, allocator_over, boot_allocator_is_safe,
    free_frames_are_managed, init_frame_allocator, FrameDequeAllocator, FramePool,
};
use super::memory_set::{areas_needed, bare_tables, kernel_areas, KernelLayout, MemorySet};
use super::page_table::lemma_root_is_table;
use super::phys::PhysMemory;
use super::rights::grants;
use super::setup_check::can_set_up;
use crate::limine_reqs::{hhdm_offset, LimineHhdmRequest, LimineMemmapEntry};
use crate::trap::msr::{enable_nxe, nxe_write, MsrWrite};

verus! {

/// What has to be known before any physical memory is touched: the pointer value
/// at which physical address 0 is seen.
pub fn init_early(request: &LimineHhdmRequest) -> (r: u64)
    requires
        request.response is Some,
    ensures
        r == request.response->Some_0.offset,
{
    hhdm_offset(request)
}

/// Memory as it is set up.
pub struct MemorySetup<M: PhysMemory> {
    pub pool: FramePool<M>,
    pub kernel_space: MemorySet,
    /// the write that makes the processor heed the no-execute bits
    pub nxe: MsrWrite,
    /// the value to load into CR3
    pub token: u64,
}

/// Set up the frame allocator over the free memory beside the kernel image, and
/// the kernel's address space, which is to be made active.
pub fn init<M: PhysMemory>(
    mem: M,
    entries: &[LimineMemmapEntry],
    kernel_phys: u64,
    kernel_size: u64,
    layout: KernelLayout,
    phys_offset: u64,
    efer: u64,
) -> (r: MemorySetup<M>)
    requires
        can_set_up(&mem, entries@, kernel_phys, kernel_size, layout, phys_offset),
    ensures
        r.pool.wf(),
        r.kernel_space.wf(&r.pool),
        r.kernel_space.exact(&r.pool),
        r.kernel_space.areas() == kernel_areas(layout, kernel_phys, phys_offset),
        grants(&r.kernel_space, &r.pool),
        r.kernel_space.table().slots() == 512,
        r.pool.free_count() == allocator_over(
            allocatable_ranges(entries@, kernel_phys, kernel_size),
        ).free_count() - 1 - areas_needed(
            bare_tables(),
            kernel_areas(layout, kernel_phys, phys_offset),
            6,
        ),
        ({
            let booted = allocator_over(allocatable_ranges(entries@, kernel_phys, kernel_size));
            &&& r.pool.allocator@.start == booted.start
            &&& r.pool.allocator@.end == booted.end
            &&& r.pool.frames().dom() == mem.frames().dom()
            &&& forall|f: u64|
                !booted.managed(f) ==> #[trigger] r.pool.frames()[f] == mem.frames()[f]
        }),
        r.nxe == nxe_write(efer),
        r.token == r.kernel_space.root() * 0x1000,
{
    let mut allocator = FrameDequeAllocator::new();
    init_frame_allocator(&mut allocator, entries, kernel_phys, kernel_size);
    let mut pool = FramePool { mem, allocator };
    proof {
        let ranges = allocatable_ranges(entries@, kernel_phys, kernel_size);
        boot_allocator_is_safe(entries@, kernel_phys, kernel_size, 0);
        assert forall|p: u64| #[trigger] pool.allocator@.managed(p) implies pool.frames().dom().contains(
            p,
        ) by {
            allocator_manages_its_ranges(ranges, p);
        }
    }
    let ghost pool0 = pool;
    let nxe: MsrWrite = enable_nxe(efer);
    let kernel_space = MemorySet::new_kernel(&mut pool, layout, kernel_phys, phys_offset);
    proof {
        lemma_root_is_table(&kernel_space.table(), &pool);
        pool.mem.frames_wf();
        assert(kernel_space.root() < PPN_LIMIT);
        assert forall|f: u64| !pool0.allocator@.managed(f) implies #[trigger] pool.frames()[f]
            == pool0.frames()[f] by {
            if pool0.free().contains(f) {
                free_frames_are_managed(pool0.allocator@, f);
            }
        }
    }
    let token: u64 = kernel_space.activate();
    MemorySetup { pool, kernel_space, nxe, token }
}

/// The token of the kernel's address space.
pub fn kernel_token(kernel_space: &MemorySet) -> (r: u64)
    requires
        kernel_space.root() < PPN_LIMIT,
    ensures
        r == kernel_space.root() * 0x1000,
{
    kernel_space.token()
}

} // verus!
