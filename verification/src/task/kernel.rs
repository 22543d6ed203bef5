//! The state of the kernel: memory, processes, threads and processors.
use std::collections::BTreeMap;
use vstd::prelude::*;
use super::context::context_at;
use super::id::{
    alloc_takes_unused_id, dealloc_frees_id, kstack_top, ustack_bottom, ustack_bottom_from_tid,
    IdView, KernelStack, RecycleAllocator, TaskUserRes,
};
use super::manager::TaskManager;
use super::pid::PidAllocator;
use super::process::{ProcessControlBlock, ProcessControlBlockInner};
use super::processor::Processor;
use super::task::{TaskControlBlock, TaskControlBlockInner, TaskStatus};
use crate::config::{kernel_stack_bottom_spec, kernel_stack_id_ok, NCPU, USER_STACK_SIZE};
use crate::mm::address::{VirtAddr, VA_LIMIT};
use crate::mm::frame_allocator::FramePool;
use crate::mm::map_area::{pages_mappable, AreaView, MapPermission, MAP_R, MAP_U, MAP_W};
use crate::mm::memory_set::{
    area_index, areas_data, config, cut_back, framed_area, lemma_area_mappable, physmap_slot,
    pushed, MemorySet,
};
use crate::drivers::chardev::NS16550a;
use crate::mm::phys::PhysMemory;
use crate::mm::spaces::{
    confined, lemma_bystander, lemma_cut_confined, lemma_kernel_changed, lemma_own_part_changed,
    lemma_pushed_confined, lemma_root_settled, lemma_space_changed, root_settled, spaces_wf,
};
use crate::mm::table_tree::{frames_needed, with_path, with_paths};
use crate::timer::Timers;
use crate::trap::context::{TrapContext, TRAP_CONTEXT_SIZE};

verus! {

/// The state of the kernel.
pub struct Kernel<M: PhysMemory> {
    /// physical memory and its free frames
    pub pool: FramePool<M>,
    /// the kernel's address space
    pub kernel_space: MemorySet,
    /// the pointer value at which the physmap shows physical address 0
    pub phys_offset: u64,
    /// the address at which a new thread goes on to return to user mode
    pub restore: u64,
    /// the numbers of the kernel stacks
    pub kstack_allocator: RecycleAllocator,
    pub pid_allocator: PidAllocator,
    /// the processes, by pid
    pub processes: BTreeMap<usize, ProcessControlBlock>,
    /// the threads, by the number of their kernel stack
    pub tasks: BTreeMap<usize, TaskControlBlock>,
    /// the ready queue
    pub task_manager: TaskManager,
    /// the processes that can be found by pid
    pub pid2process: BTreeMap<usize, usize>,
    pub timers: Timers,
    /// the scheduler of each core
    pub processors: Vec<Processor>,
    /// the process that adopts orphans
    pub initproc: Option<usize>,
    /// the console, which names the threads that wait for a byte
    pub console: NS16550a,
    /// threads of which nothing is left but the kernel stack: the console named them
    /// when their process let them go
    pub orphans: Vec<usize>,
}

/// The page in which kernel stack `id` starts.
pub open spec fn stack_page(id: usize) -> int {
    (kernel_stack_bottom_spec(id as int) % (VA_LIMIT as int)) / 0x1000
}

/// The area of kernel stack `id`, without its frames.
pub open spec fn stack_area(id: usize) -> AreaView {
    framed_area(
        kernel_stack_bottom_spec(id as int) % (VA_LIMIT as int),
        kstack_top(id) % (VA_LIMIT as int),
        MAP_R | MAP_W,
    )
}

/// Every kernel stack in use is mapped, and nothing is mapped where the others
/// would be.
pub open spec fn stacks_mapped(areas: Seq<AreaView>, ids: IdView) -> bool {
    &&& ids.wf()
    &&& forall|id: usize| #[trigger]
        ids.live(id) ==> {
            let i = area_index(areas, stack_page(id), 0);
            &&& kernel_stack_id_ok(id as int)
            &&& 0 <= i < areas.len()
            &&& config(areas[i]) == stack_area(id)
        }
    &&& forall|i: int, id: usize|
        0 <= i < areas.len() && #[trigger] ids.live(id) && (#[trigger] areas[i]).start
            == stack_page(id) ==> i == area_index(areas, stack_page(id), 0)
    &&& forall|i: int, id: usize|
        0 <= i < areas.len() && kernel_stack_id_ok(id as int) && !#[trigger] ids.live(id) ==> (
        #[trigger] areas[i]).start != stack_page(id) && !areas[i].contains(stack_page(id))
            && !areas[i].contains(stack_page(id) + 1)
}

/// Where kernel stack `id` lies.
#[verifier::spinoff_prover]
pub proof fn lemma_stack_page(id: usize)
    requires
        kernel_stack_id_ok(id as int),
    ensures
        stack_page(id) == 0xf_fffc_0000 + 3 * id,
        stack_area(id).start == stack_page(id),
        stack_area(id).end == stack_page(id) + 2,
        stack_area(id).framed(),
        stack_area(id).end <= 512 * 0x800_0000,
        0 <= kernel_stack_bottom_spec(id as int) <= u64::MAX,
        0 <= kstack_top(id) <= u64::MAX,
{
    let b = kernel_stack_bottom_spec(id as int);
    assert(b == 0xffff_ffff_c000_0000 + id * 0x3000);
    assert(b % 0x1_0000_0000_0000 == 0xffff_c000_0000 + id * 0x3000);
    assert((b + 0x2000) % 0x1_0000_0000_0000 == 0xffff_c000_0000 + id * 0x3000 + 0x2000);
}

proof fn lemma_area_index_push(areas: Seq<AreaView>, new: AreaView, start: int, i: int)
    requires
        0 <= i <= areas.len(),
    ensures
        area_index(areas.push(new), start, i) == if area_index(areas, start, i) < areas.len() {
            area_index(areas, start, i)
        } else if new.start == start {
            areas.len() as int
        } else {
            areas.len() as int + 1
        },
        i <= area_index(areas, start, i) <= areas.len(),
    decreases areas.len() - i,
{
    let all = areas.push(new);
    if i < areas.len() {
        assert(all[i] == areas[i]);
        if areas[i].start != start {
            lemma_area_index_push(areas, new, start, i + 1);
        }
    } else {
        assert(all[i] == new);
        assert(area_index(all, start, i + 1) == all.len());
    }
}

proof fn lemma_area_index_bounds(areas: Seq<AreaView>, start: int, i: int)
    requires
        0 <= i <= areas.len(),
    ensures
        i <= area_index(areas, start, i) <= areas.len(),
        area_index(areas, start, i) < areas.len() ==> areas[area_index(areas, start, i)].start
            == start,
        area_index(areas, start, i) == areas.len() ==> forall|j: int|
            i <= j < areas.len() ==> (#[trigger] areas[j]).start != start,
    decreases areas.len() - i,
{
    if i < areas.len() && areas[i].start != start {
        lemma_area_index_bounds(areas, start, i + 1);
    }
}

/// Taking out an area that starts elsewhere does not change which area is
/// found.
proof fn lemma_area_index_remove(areas: Seq<AreaView>, j: int, start: int, i: int)
    requires
        0 <= i <= areas.len(),
        0 <= j < areas.len(),
        areas[j].start != start,
    ensures
        ({
            let a = area_index(areas, start, i);
            let b = area_index(areas.remove(j), start, if i > j {
                i - 1
            } else {
                i
            });
            if a < areas.len() {
                &&& a != j
                &&& b == if a < j {
                    a
                } else {
                    a - 1
                }
                &&& areas.remove(j)[b] == areas[a]
            } else {
                b == areas.len() - 1
            }
        }),
    decreases areas.len() - i,
{
    let rest = areas.remove(j);
    if i < areas.len() {
        if areas[i].start == start {
            if i < j {
                assert(rest[i] == areas[i]);
            } else {
                assert(rest[i - 1] == areas[i]);
            }
        } else {
            lemma_area_index_remove(areas, j, start, i + 1);
            if i < j {
                assert(rest[i] == areas[i]);
            } else if i > j {
                assert(rest[i - 1] == areas[i]);
            }
        }
    }
}

proof fn lemma_stack_pushed(areas: Seq<AreaView>, ids: IdView, new: AreaView)
    requires
        stacks_mapped(areas, ids),
        0 <= ids.next_id() <= usize::MAX,
        kernel_stack_id_ok(ids.next_id()),
        config(new) == stack_area(ids.next_id() as usize),
    ensures
        stacks_mapped(areas.push(new), ids.after_alloc()),
{
    let n = ids.next_id() as usize;
    let all = areas.push(new);
    let ids2 = ids.after_alloc();
    alloc_takes_unused_id(ids);
    lemma_stack_page(n);
    assert(config(new).start == stack_area(n).start && config(new).end == stack_area(n).end);
    assert forall|id: usize| #[trigger] ids2.live(id) implies {
        let i = area_index(all, stack_page(id), 0);
        &&& kernel_stack_id_ok(id as int)
        &&& 0 <= i < all.len()
        &&& config(all[i]) == stack_area(id)
    } by {
        lemma_area_index_push(areas, new, stack_page(id), 0);
        if id == n {
            lemma_area_index_bounds(areas, stack_page(id), 0);
            let i = area_index(areas, stack_page(id), 0);
            if i < areas.len() {
                assert(!ids.live(n));
                assert(areas[i].start != stack_page(n));
            }
            assert(all[areas.len() as int] == new);
        } else {
            assert(ids.live(id));
            assert(all[area_index(areas, stack_page(id), 0)] == areas[area_index(
                areas,
                stack_page(id),
                0,
            )]);
        }
    }
    assert forall|i: int, id: usize|
        0 <= i < all.len() && #[trigger] ids2.live(id) && (#[trigger] all[i]).start == stack_page(
            id,
        ) implies i == area_index(all, stack_page(id), 0) by {
        lemma_area_index_push(areas, new, stack_page(id), 0);
        lemma_area_index_bounds(areas, stack_page(id), 0);
        if i < areas.len() {
            assert(all[i] == areas[i]);
            if id == n {
                assert(!ids.live(n));
            } else {
                assert(ids.live(id));
            }
        } else if id != n {
            assert(ids.live(id));
            lemma_stack_page(id);
        }
    }
    assert forall|i: int, id: usize|
        0 <= i < all.len() && kernel_stack_id_ok(id as int) && !#[trigger] ids2.live(id) implies (
    #[trigger] all[i]).start != stack_page(id) && !all[i].contains(stack_page(id))
        && !all[i].contains(stack_page(id) + 1) by {
        assert(!ids.live(id));
        if i < areas.len() {
            assert(all[i] == areas[i]);
        } else {
            lemma_stack_page(id);
        }
    }
}

proof fn lemma_stack_removed(areas: Seq<AreaView>, ids: IdView, id: usize)
    requires
        stacks_mapped(areas, ids),
        ids.live(id),
        forall|i: int, j: int, v: int|
            0 <= i < areas.len() && 0 <= j < areas.len() && #[trigger] areas[i].contains(v)
                && #[trigger] areas[j].contains(v) ==> i == j,
    ensures
        ({
            let i = area_index(areas, stack_page(id), 0);
            &&& 0 <= i < areas.len()
            &&& areas[i].start == stack_page(id)
            &&& areas[i].end == stack_page(id) + 2
            &&& stacks_mapped(areas.remove(i), ids.after_dealloc(id))
        }),
{
    let i = area_index(areas, stack_page(id), 0);
    let rest = areas.remove(i);
    let ids2 = ids.after_dealloc(id);
    dealloc_frees_id(ids, id);
    lemma_stack_page(id);
    assert(config(areas[i]).start == stack_area(id).start && config(areas[i]).end == stack_area(
        id,
    ).end);
    assert forall|x: usize| #[trigger] ids2.live(x) implies {
        let k = area_index(rest, stack_page(x), 0);
        &&& kernel_stack_id_ok(x as int)
        &&& 0 <= k < rest.len()
        &&& config(rest[k]) == stack_area(x)
    } by {
        assert(ids.live(x));
        lemma_stack_page(x);
        lemma_area_index_bounds(areas, stack_page(x), 0);
        lemma_area_index_remove(areas, i, stack_page(x), 0);
    }
    assert forall|k: int, x: usize|
        0 <= k < rest.len() && #[trigger] ids2.live(x) && (#[trigger] rest[k]).start == stack_page(
            x,
        ) implies k == area_index(rest, stack_page(x), 0) by {
        let k0 = if k < i {
            k
        } else {
            k + 1
        };
        assert(rest[k] == areas[k0]);
        assert(ids.live(x));
        lemma_stack_page(x);
        lemma_area_index_bounds(areas, stack_page(x), 0);
        lemma_area_index_remove(areas, i, stack_page(x), 0);
    }
    assert forall|k: int, x: usize|
        0 <= k < rest.len() && kernel_stack_id_ok(x as int) && !#[trigger] ids2.live(x) implies (
    #[trigger] rest[k]).start != stack_page(x) && !rest[k].contains(stack_page(x))
        && !rest[k].contains(stack_page(x) + 1) by {
        let k0 = if k < i {
            k
        } else {
            k + 1
        };
        assert(rest[k] == areas[k0]);
        if x == id {
            assert(areas[i].contains(stack_page(id)));
            assert(areas[i].contains(stack_page(id) + 1));
            if areas[k0].contains(stack_page(id)) {
                assert(k0 == i);
            }
            if areas[k0].contains(stack_page(id) + 1) {
                assert(k0 == i);
            }
            assert(areas[k0].start != stack_page(id));
        } else {
            assert(!ids.live(x));
        }
    }
}

/// The address spaces of the processes.
pub open spec fn spaces_of(processes: Map<usize, ProcessControlBlock>) -> Map<usize, MemorySet> {
    Map::new(
        |p: usize| processes.dom().contains(p),
        |p: usize| processes[p].inner.memory_set,
    )
}

/// The address spaces are sound, share no frame and share what the kernel has
/// mapped; the table for the kernel's image and stacks exists, and the kernel stacks
/// in use are mapped.
#[verifier::opaque]
pub open spec fn memory_wf<M: PhysMemory>(kernel: &Kernel<M>) -> bool {
    &&& spaces_wf(&kernel.pool, &kernel.kernel_space, kernel.spaces())
    &&& kernel.kernel_space.exact(&kernel.pool)
    &&& kernel.kernel_space.table().slots() == 512
    &&& kernel.kernel_space.table().present(&kernel.pool).contains((1int, 511int))
    &&& stacks_mapped(kernel.kernel_space.areas(), kernel.kstack_allocator@)
}

/// What does not touch memory or address spaces keeps them sound.
pub proof fn lemma_memory_kept<M: PhysMemory>(kernel: &Kernel<M>, kernel0: &Kernel<M>)
    requires
        kernel0.mem_wf(),
        kernel.pool == kernel0.pool,
        kernel.kernel_space == kernel0.kernel_space,
        kernel.kstack_allocator@ == kernel0.kstack_allocator@,
        kernel.spaces() == kernel0.spaces(),
    ensures
        kernel.mem_wf(),
{
    reveal(memory_wf);
}

/// How many frames kernel stack `id` takes.
pub open spec fn stack_frames<M: PhysMemory>(
    kernel_space: &MemorySet,
    pool: &FramePool<M>,
    id: usize,
) -> nat {
    frames_needed(kernel_space.table().present(pool), stack_page(id), stack_page(id) + 2, 1)
}

/// Mapping a kernel stack hangs nothing new on the root, whose last entry
/// translates all kernel stacks.
proof fn lemma_stack_hangs<M: PhysMemory>(
    ks: &MemorySet,
    pool: &FramePool<M>,
    ks0: &MemorySet,
    pool0: &FramePool<M>,
    id: usize,
)
    requires
        kernel_stack_id_ok(id as int),
        ks0.table().slots() == 512,
        ks0.table().present(pool0).contains((1int, 511int)),
        pushed(ks, pool, ks0, pool0, stack_area(id), None),
    ensures
        root_settled(ks, pool, ks0, pool0),
        ks.table().present(pool).contains((1int, 511int)),
{
    let t0 = ks0.table().present(pool0);
    let s = stack_page(id);
    lemma_stack_page(id);
    assert(with_paths(t0, s, s + 2) == with_path(with_path(t0, s), s + 1)) by {
        reveal_with_fuel(with_paths, 3);
    }
    lemma_root_settled(ks, pool, ks0, pool0);
}

impl<M: PhysMemory> Kernel<M> {
    /// The address spaces of the processes.
    pub open spec fn spaces(&self) -> Map<usize, MemorySet> {
        spaces_of(self.processes@)
    }

    /// The address spaces are sound and share no frame, and the kernel stacks
    /// in use are mapped.
    pub open spec fn mem_wf(&self) -> bool {
        memory_wf(self)
    }

    /// Whether there is a number for one more kernel stack.
    pub open spec fn kstack_available(&self) -> bool {
        kernel_stack_id_ok(self.kstack_allocator@.next_id())
    }

    /// The number of the next kernel stack.
    pub open spec fn next_kstack(&self) -> usize {
        self.kstack_allocator@.next_id() as usize
    }

    /// Whether nothing but the memory and the kernel stacks differs.
    pub open spec fn same_but_memory(&self, other: &Self) -> bool {
        &&& self.phys_offset == other.phys_offset
        &&& self.restore == other.restore
        &&& self.pid_allocator == other.pid_allocator
        &&& self.processes == other.processes
        &&& self.tasks == other.tasks
        &&& self.task_manager == other.task_manager
        &&& self.pid2process == other.pid2process
        &&& self.timers == other.timers
        &&& self.processors == other.processors
        &&& self.initproc == other.initproc
        &&& self.console == other.console
        &&& self.orphans == other.orphans
    }
}

/// Make a kernel stack for a new thread: map it in the kernel's address
/// space.
pub fn kstack_alloc<M: PhysMemory>(kernel: &mut Kernel<M>) -> (r: KernelStack)
    requires
        old(kernel).mem_wf(),
        old(kernel).kstack_available(),
        old(kernel).pool.free_count() >= stack_frames(
            &old(kernel).kernel_space,
            &old(kernel).pool,
            old(kernel).next_kstack(),
        ),
    ensures
        final(kernel).mem_wf(),
        final(kernel).same_but_memory(old(kernel)),
        r.id == old(kernel).kstack_allocator@.next_id(),
        final(kernel).kstack_allocator@ == old(kernel).kstack_allocator@.after_alloc(),
        pushed(
            &final(kernel).kernel_space,
            &final(kernel).pool,
            &old(kernel).kernel_space,
            &old(kernel).pool,
            stack_area(r.id),
            None,
        ),
        confined(&final(kernel).pool, &old(kernel).pool, old(kernel).kernel_space.owned()),
        final(kernel).kernel_space.owned().union(final(kernel).pool.free()) == old(
            kernel,
        ).kernel_space.owned().union(old(kernel).pool.free()),
{
    let ghost k0 = *kernel;
    let ghost id = kernel.next_kstack();
    proof {
        reveal(memory_wf);
        lemma_stack_page(id);
        alloc_takes_unused_id(kernel.kstack_allocator@);
        let a = stack_area(id);
        assert(!kernel.kstack_allocator@.live(id));
        assert forall|i: int, v: int|
            0 <= i < kernel.kernel_space.areas().len()
                && #[trigger] kernel.kernel_space.areas()[i].contains(v) implies !a.contains(v) by {
            assert(kernel.kernel_space.areas()[i].start != stack_page(id));
        }
        lemma_area_mappable(&kernel.kernel_space, &kernel.pool, a);
    }
    let kstack_id: usize = kernel.kstack_allocator.alloc_id();
    let stack = KernelStack { id: kstack_id };
    let bottom: u64 = stack.get_bottom();
    let top: u64 = stack.get_top();
    kernel.kernel_space.insert_framed_area(
        &mut kernel.pool,
        VirtAddr::new(bottom),
        VirtAddr::new(top),
        MapPermission { bits: MAP_R }.union(MapPermission { bits: MAP_W }),
    );
    proof {
        lemma_pushed_confined(
            &kernel.kernel_space,
            &kernel.pool,
            &k0.kernel_space,
            &k0.pool,
            stack_area(id),
            None,
        );
        lemma_stack_hangs(
            &kernel.kernel_space,
            &kernel.pool,
            &k0.kernel_space,
            &k0.pool,
            id,
        );
        lemma_kernel_changed(
            &kernel.pool,
            &k0.pool,
            &k0.kernel_space,
            &kernel.kernel_space,
            kernel.spaces(),
        );
        lemma_stack_pushed(
            k0.kernel_space.areas(),
            k0.kstack_allocator@,
            kernel.kernel_space.areas()[k0.kernel_space.areas().len() as int],
        );
    }
    stack
}

impl KernelStack {
    /// Give back the kernel stack of a thread that is gone.
    pub fn release<M: PhysMemory>(self, kernel: &mut Kernel<M>)
        requires
            old(kernel).mem_wf(),
            old(kernel).kstack_allocator@.live(self.id),
        ensures
            final(kernel).mem_wf(),
            final(kernel).same_but_memory(old(kernel)),
            final(kernel).kstack_allocator@ == old(kernel).kstack_allocator@.after_dealloc(self.id),
            ({
                let i = area_index(old(kernel).kernel_space.areas(), stack_page(self.id), 0);
                &&& 0 <= i < old(kernel).kernel_space.areas().len()
                &&& config(old(kernel).kernel_space.areas()[i]) == stack_area(self.id)
                &&& final(kernel).kernel_space.areas() == old(kernel).kernel_space.areas().remove(i)
                &&& cut_back(
                    &final(kernel).kernel_space,
                    &final(kernel).pool,
                    &old(kernel).kernel_space,
                    &old(kernel).pool,
                    i,
                    stack_page(self.id),
                )
            }),
            confined(&final(kernel).pool, &old(kernel).pool, old(kernel).kernel_space.owned()),
            forall|f: u64| #[trigger]
                final(kernel).kernel_space.owned().contains(f) ==> old(
                    kernel,
                ).kernel_space.owned().contains(f),
            old(kernel).pool.free().subset_of(final(kernel).pool.free()),
            final(kernel).pool.free_count() == old(kernel).pool.free_count() + 2,
    {
        let ghost k0 = *kernel;
        let ghost i = area_index(k0.kernel_space.areas(), stack_page(self.id), 0);
        proof {
            reveal(memory_wf);
            lemma_stack_removed(k0.kernel_space.areas(), k0.kstack_allocator@, self.id);
            lemma_stack_page(self.id);
        }
        let bottom: VirtAddr = VirtAddr::new(self.get_bottom());
        kernel.kernel_space.remove_area_with_start_vpn(&mut kernel.pool, bottom.floor());
        kernel.kstack_allocator.dealloc(self.id);
        proof {
            lemma_cut_confined(
                &kernel.kernel_space,
                &kernel.pool,
                &k0.kernel_space,
                &k0.pool,
                i,
                stack_page(self.id),
            );
            lemma_areas_data_removed(k0.kernel_space.areas(), i);
            assert(kernel.kernel_space.table().table_frames()
                == k0.kernel_space.table().table_frames());
            lemma_root_settled(&kernel.kernel_space, &kernel.pool, &k0.kernel_space, &k0.pool);
            lemma_kernel_changed(
                &kernel.pool,
                &k0.pool,
                &k0.kernel_space,
                &kernel.kernel_space,
                kernel.spaces(),
            );
        }
    }
}

/// Taking out an area takes no frame in.
pub proof fn lemma_areas_data_removed(areas: Seq<AreaView>, i: int)
    requires
        0 <= i < areas.len(),
    ensures
        forall|f: u64| #[trigger]
            areas_data(areas.remove(i)).contains(f) ==> areas_data(areas).contains(f),
{
    let rest = areas.remove(i);
    assert forall|f: u64| #[trigger] areas_data(rest).contains(f) implies areas_data(areas).contains(
        f,
    ) by {
        let k = choose|k: int| 0 <= k < rest.len() && (#[trigger] rest[k]).data_set().contains(f);
        if k < i {
            assert(areas[k].data_set().contains(f));
        } else {
            assert(areas[k + 1].data_set().contains(f));
        }
    }
}

/// The thread with kernel stack `id` of process `pid`, as it is made: it goes
/// on with the trap context on top of its kernel stack.
pub open spec fn new_thread(
    id: usize,
    res: TaskUserRes,
    restore: u64,
    trap_cx: TrapContext,
) -> TaskControlBlock {
    let ptr = (kstack_top(id) - TRAP_CONTEXT_SIZE) as u64;
    TaskControlBlock {
        process: res.process,
        kstack: KernelStack { id },
        last_cpu: 0,
        inner: TaskControlBlockInner {
            res: Some(res),
            trap_cx_ptr: ptr,
            trap_cx,
            task_cx: context_at(restore, ptr),
            task_status: TaskStatus::Ready,
            exit_code: None,
        },
    }
}

/// The area of the user stack of thread `tid`, without its frames.
pub open spec fn ustack_area(ustack_base: u64, tid: usize) -> AreaView {
    framed_area(
        ustack_bottom(ustack_base, tid) % (VA_LIMIT as int),
        (ustack_bottom(ustack_base, tid) + USER_STACK_SIZE) % (VA_LIMIT as int),
        MAP_R | MAP_W | MAP_U,
    )
}

/// How many frames the user stack of thread `tid` takes.
pub open spec fn ustack_frames<M: PhysMemory>(
    ms: &MemorySet,
    pool: &FramePool<M>,
    ustack_base: u64,
    tid: usize,
) -> nat {
    let a = ustack_area(ustack_base, tid);
    frames_needed(ms.table().present(pool), a.start, a.end, 1)
}

/// Changing one process changes one address space.
pub proof fn lemma_spaces_insert(
    processes: Map<usize, ProcessControlBlock>,
    p: usize,
    process: ProcessControlBlock,
)
    ensures
        spaces_of(processes.insert(p, process)) == spaces_of(processes).insert(
            p,
            process.inner.memory_set,
        ),
{
    assert(spaces_of(processes.insert(p, process)) =~= spaces_of(processes).insert(
        p,
        process.inner.memory_set,
    ));
}

impl TaskUserRes {
    /// Map the user stack of a thread into the address space of its process.
    pub fn alloc_user_res<M: PhysMemory>(&self, kernel: &mut Kernel<M>)
        requires
            old(kernel).mem_wf(),
            old(kernel).processes@.dom().contains(self.process),
            self.wf(),
            ({
                let ms = old(kernel).processes@[self.process].inner.memory_set;
                let a = ustack_area(self.ustack_base, self.tid);
                &&& a.end <= ms.table().slots() * 0x800_0000
                &&& pages_mappable(a, &ms.table(), &old(kernel).pool, a.start, a.end)
            }),
        ensures
            final(kernel).mem_wf(),
            ({
                let p0 = old(kernel).processes@[self.process];
                let p1 = final(kernel).processes@[self.process];
                &&& final(kernel).processes@ == old(kernel).processes@.insert(self.process, p1)
                &&& p1 == (ProcessControlBlock {
                    inner: ProcessControlBlockInner {
                        memory_set: p1.inner.memory_set,
                        ..p0.inner
                    },
                    ..p0
                })
                &&& pushed(
                    &p1.inner.memory_set,
                    &final(kernel).pool,
                    &p0.inner.memory_set,
                    &old(kernel).pool,
                    ustack_area(self.ustack_base, self.tid),
                    None,
                )
                &&& confined(&final(kernel).pool, &old(kernel).pool, p0.inner.memory_set.owned())
            }),
            *final(kernel) == (Kernel {
                pool: final(kernel).pool,
                processes: final(kernel).processes,
                ..*old(kernel)
            }),
    {
        let ghost k0 = *kernel;
        let bottom: u64 = ustack_bottom_from_tid(self.ustack_base, self.tid);
        let top: u64 = bottom + USER_STACK_SIZE;
        let mut process = kernel.processes.remove(&self.process).unwrap();
        let ghost p0 = process;
        proof {
            reveal(memory_wf);
            assert(k0.spaces().dom().contains(self.process));
        }
        process.inner.memory_set.insert_framed_area(
            &mut kernel.pool,
            VirtAddr::new(bottom),
            VirtAddr::new(top),
            MapPermission { bits: MAP_R }.union(MapPermission { bits: MAP_W }).union(
                MapPermission { bits: MAP_U },
            ),
        );
        proof {
            let ms = process.inner.memory_set;
            let ms0 = p0.inner.memory_set;
            lemma_pushed_confined(
                &ms,
                &kernel.pool,
                &ms0,
                &k0.pool,
                ustack_area(self.ustack_base, self.tid),
                None,
            );
            lemma_own_part_changed(&ms, &kernel.pool, &ms0, &k0.pool, &kernel.kernel_space);
            lemma_space_changed(
                &kernel.pool,
                &k0.pool,
                &kernel.kernel_space,
                k0.spaces(),
                self.process,
                ms,
                ms0.owned(),
            );
            lemma_spaces_insert(k0.processes@, self.process, process);
            assert(kernel.kernel_space.owned().disjoint(ms0.owned()));
            lemma_bystander(&kernel.kernel_space, &kernel.pool, &k0.pool, ms0.owned());
        }
        kernel.processes.insert(self.process, process);
        proof {
            assert(kernel.processes@ =~= k0.processes@.insert(self.process, process));
        }
    }
}

/// The pid of the first process.
pub const IDLE_PID: usize = 1;

/// Whether the address space of a user program lies below the physmap and
/// consists of frames of its own.
pub open spec fn user_space(ms: &MemorySet, phys_offset: u64) -> bool {
    &&& ms.table().slots() == physmap_slot(phys_offset)
    &&& forall|i: int| 0 <= i < ms.areas().len() ==> (#[trigger] ms.areas()[i]).framed()
}

/// Every process goes by its pid, has a user address space, and knows only
/// children that exist. Pid 0 is never handed out.
pub open spec fn processes_wf(
    processes: Map<usize, ProcessControlBlock>,
    pids: IdView,
    phys_offset: u64,
) -> bool {
    &&& pids.wf()
    &&& pids.live(0)
    &&& forall|p: usize| #[trigger]
        processes.dom().contains(p) ==> {
            &&& processes[p].pid.0 == p
            &&& p != 0
            &&& pids.live(p)
            &&& processes[p].inner.task_res_allocator@.wf()
            &&& processes[p].inner.signals_wf()
            &&& user_space(&processes[p].inner.memory_set, phys_offset)
        }
    &&& forall|p: usize| #[trigger] pids.live(p) && p != 0 ==> processes.dom().contains(p)
    &&& forall|p: usize, i: int|
        #[trigger] processes.dom().contains(p) && 0 <= i < processes[p].inner.children@.len()
            ==> processes.dom().contains(#[trigger] processes[p].inner.children@[i])
}

/// Every kernel stack in use is that of a thread, which goes by its number, or of an
/// orphan. A thread belongs to a process that exists; a thread that has not exited is listed in its process under its
/// number there, and a process lists only threads of its own.
pub open spec fn threads_wf(
    processes: Map<usize, ProcessControlBlock>,
    tasks: Map<usize, TaskControlBlock>,
    kstacks: IdView,
    orphans: Seq<usize>,
) -> bool {
    &&& forall|t: usize| #[trigger]
        tasks.dom().contains(t) <==> kstacks.live(t) && !orphans.contains(t)
    &&& forall|t: usize| #[trigger] orphans.contains(t) ==> kstacks.live(t)
    &&& forall|t: usize| #[trigger]
        tasks.dom().contains(t) ==> {
            let task = tasks[t];
            &&& task.kstack.id == t
            &&& task.last_cpu < NCPU
            &&& processes.dom().contains(task.process)
            &&& task.inner.res matches Some(res) ==> {
                let inner = processes[task.process].inner;
                &&& res.process == task.process
                &&& res.wf()
                &&& inner.task_res_allocator@.live(res.tid)
                &&& res.tid < inner.tasks@.len()
                &&& inner.tasks@[res.tid as int] == Some(t)
            }
        }
    &&& forall|p: usize, i: int|
        #[trigger] processes.dom().contains(p) && 0 <= i < processes[p].inner.tasks@.len() && (
        #[trigger] processes[p].inner.tasks@[i]) is Some ==> {
            let t = processes[p].inner.tasks@[i]->Some_0;
            &&& tasks.dom().contains(t)
            &&& tasks[t].process == p
        }
    &&& forall|p: usize, i: int, j: int|
        #[trigger] processes.dom().contains(p) && 0 <= i < processes[p].inner.tasks@.len() && 0 <= j
            < processes[p].inner.tasks@.len() && (#[trigger] processes[p].inner.tasks@[i]) is Some
            && processes[p].inner.tasks@[i] == (#[trigger] processes[p].inner.tasks@[j]) ==> i == j
}

/// Whether there is a thread `t`.
pub open spec fn known(tasks: Map<usize, TaskControlBlock>, t: usize) -> bool {
    tasks.dom().contains(t)
}

/// Whether thread `t` may wait on processor `c` for its context to be saved: it
/// ran there last, and is not ready yet.
pub open spec fn parked<M: PhysMemory>(kernel: &Kernel<M>, c: int, t: usize) -> bool {
    &&& known(kernel.tasks@, t)
    &&& kernel.tasks@[t].last_cpu == c
    &&& !kernel.task_manager@.contains(t)
}

/// The threads that processor `c` runs or holds back ran there last and are not
/// ready, and the process that it holds back exists. While it runs a thread, it
/// holds no process back.
pub open spec fn processor_wf<M: PhysMemory>(kernel: &Kernel<M>, c: int) -> bool {
    let processor = kernel.processors@[c];
    &&& processor.pending_requeue@.no_duplicates()
    &&& forall|i: int|
        0 <= i < processor.pending_requeue@.len() ==> parked(
            kernel,
            c,
            #[trigger] processor.pending_requeue@[i],
        )
    &&& processor.current matches Some(t) ==> parked(kernel, c, t)
        && processor.exiting_process is None
    &&& processor.exiting_process matches Some(p) ==> kernel.processes@.dom().contains(p)
}

/// Every thread that is ready, running, parked or sleeping exists, and no thread is
/// listed twice in the ready queue.
pub open spec fn schedule_wf<M: PhysMemory>(kernel: &Kernel<M>) -> bool {
    &&& kernel.task_manager@.no_duplicates()
    &&& forall|i: int|
        0 <= i < kernel.task_manager@.len() ==> known(
            kernel.tasks@,
            #[trigger] kernel.task_manager@[i],
        )
    &&& kernel.processors@.len() == NCPU
    &&& forall|c: int| 0 <= c < NCPU ==> #[trigger] processor_wf(kernel, c)
    &&& forall|i: int|
        0 <= i < kernel.timers.events().len() ==> known(
            kernel.tasks@,
            (#[trigger] kernel.timers.events()[i]).task,
        )
}

/// No thread runs on two processors, and a thread that runs is not ready to run
/// elsewhere.
pub proof fn threads_run_once<M: PhysMemory>(kernel: &Kernel<M>, c: int, d: int, t: usize)
    requires
        kernel.refs_wf(),
        0 <= c < NCPU,
        0 <= d < NCPU,
        kernel.processors@[c].current == Some(t),
    ensures
        kernel.processors@[d].current == Some(t) ==> c == d,
        kernel.processors@[d].pending_requeue@.contains(t) ==> c == d,
        !kernel.task_manager@.contains(t),
        kernel.tasks@.dom().contains(t),
{
    reveal(references_wf);
    assert(processor_wf(kernel, c));
    assert(processor_wf(kernel, d));
    if kernel.processors@[d].pending_requeue@.contains(t) {
        let i = choose|i: int|
            0 <= i < kernel.processors@[d].pending_requeue@.len()
                && kernel.processors@[d].pending_requeue@[i] == t;
        assert(parked(kernel, d, kernel.processors@[d].pending_requeue@[i]));
    }
}

/// A thread that waits on a processor for its context to be saved is not ready, and
/// no other processor runs it or holds it back: only the processor that saves its
/// context can make it ready.
pub proof fn parked_threads_wait_for_their_processor<M: PhysMemory>(
    kernel: &Kernel<M>,
    c: int,
    d: int,
    t: usize,
)
    requires
        kernel.refs_wf(),
        0 <= c < NCPU,
        0 <= d < NCPU,
        kernel.processors@[c].pending_requeue@.contains(t),
    ensures
        !kernel.task_manager@.contains(t),
        kernel.processors@[d].pending_requeue@.contains(t) ==> c == d,
        kernel.processors@[d].current == Some(t) ==> c == d,
{
    reveal(references_wf);
    assert(processor_wf(kernel, c));
    assert(processor_wf(kernel, d));
    let i = choose|i: int|
        0 <= i < kernel.processors@[c].pending_requeue@.len()
            && kernel.processors@[c].pending_requeue@[i] == t;
    assert(parked(kernel, c, kernel.processors@[c].pending_requeue@[i]));
    if kernel.processors@[d].pending_requeue@.contains(t) {
        let j = choose|j: int|
            0 <= j < kernel.processors@[d].pending_requeue@.len()
                && kernel.processors@[d].pending_requeue@[j] == t;
        assert(parked(kernel, d, kernel.processors@[d].pending_requeue@[j]));
    }
}

/// The processes that are found by pid exist. One that is no longer found has
/// no children, and its threads have exited.
pub open spec fn names_wf<M: PhysMemory>(kernel: &Kernel<M>) -> bool {
    &&& forall|p: usize| #[trigger]
        kernel.pid2process@.dom().contains(p) ==> kernel.pid2process@[p] == p
            && kernel.processes@.dom().contains(p)
    &&& kernel.initproc matches Some(p) ==> p == IDLE_PID && kernel.pid2process@.dom().contains(p)
    &&& forall|p: usize| #[trigger]
        kernel.processes@.dom().contains(p) && !kernel.pid2process@.dom().contains(p)
            ==> kernel.processes@[p].inner.children@.len() == 0
    &&& forall|t: usize| #[trigger]
        kernel.tasks@.dom().contains(t) && !kernel.pid2process@.dom().contains(
            kernel.tasks@[t].process,
        ) ==> kernel.tasks@[t].inner.res is None
}

/// Everything that is named exists.
#[verifier::opaque]
pub open spec fn references_wf<M: PhysMemory>(kernel: &Kernel<M>) -> bool {
    &&& processes_wf(kernel.processes@, kernel.pid_allocator@, kernel.phys_offset)
    &&& threads_wf(kernel.processes@, kernel.tasks@, kernel.kstack_allocator@, kernel.orphans@)
    &&& schedule_wf(kernel)
    &&& names_wf(kernel)
}

impl<M: PhysMemory> Kernel<M> {
    /// Everything that is named exists.
    pub open spec fn refs_wf(&self) -> bool {
        references_wf(self)
    }

    /// The state is sound.
    pub open spec fn wf(&self) -> bool {
        self.mem_wf() && self.refs_wf()
    }
}

/// A process refers to the same threads as before.
pub open spec fn same_links(process: ProcessControlBlock, process0: ProcessControlBlock) -> bool {
    &&& process.pid == process0.pid
    &&& process.inner.tasks@ == process0.inner.tasks@
    &&& process.inner.task_res_allocator@ == process0.inner.task_res_allocator@
    &&& process0.inner.signals_wf() ==> process.inner.signals_wf()
}

/// The children of process `p` exist, and it has none unless it can be found.
pub open spec fn children_wf<M: PhysMemory>(kernel: &Kernel<M>, p: usize) -> bool {
    let children = kernel.processes@[p].inner.children@;
    &&& forall|i: int|
        0 <= i < children.len() ==> kernel.processes@.dom().contains(#[trigger] children[i])
    &&& !kernel.pid2process@.dom().contains(p) ==> children.len() == 0
}

/// A thread is at home where it was before; it may have exited.
pub open spec fn same_home(task: TaskControlBlock, task0: TaskControlBlock) -> bool {
    &&& task.process == task0.process
    &&& task.kstack == task0.kstack
    &&& task.last_cpu < NCPU
    &&& task.inner.res matches Some(res) ==> {
        &&& task0.inner.res is Some
        &&& res.tid == task0.inner.res->Some_0.tid
        &&& res.process == task0.inner.res->Some_0.process
        &&& res.wf()
    }
}

/// What keeps every process and thread in its place keeps the names sound.
pub proof fn lemma_refs_kept<M: PhysMemory>(kernel: &Kernel<M>, kernel0: &Kernel<M>)
    requires
        kernel0.refs_wf(),
        kernel.processes@.dom() == kernel0.processes@.dom(),
        kernel.tasks@.dom() == kernel0.tasks@.dom(),
        forall|p: usize| #[trigger]
            kernel0.processes@.dom().contains(p) ==> same_links(
                kernel.processes@[p],
                kernel0.processes@[p],
            ) && user_space(&kernel.processes@[p].inner.memory_set, kernel.phys_offset) && (
            kernel.processes@[p].inner.children@ == kernel0.processes@[p].inner.children@
                || children_wf(kernel, p)),
        forall|t: usize| #[trigger]
            kernel0.tasks@.dom().contains(t) ==> same_home(kernel.tasks@[t], kernel0.tasks@[t]),
        kernel.pid_allocator@ == kernel0.pid_allocator@,
        kernel.kstack_allocator@ == kernel0.kstack_allocator@,
        kernel.orphans@ == kernel0.orphans@,
        kernel.pid2process@ == kernel0.pid2process@,
        kernel.initproc == kernel0.initproc,
        kernel.phys_offset == kernel0.phys_offset,
        schedule_wf(kernel),
    ensures
        kernel.refs_wf(),
{
    reveal(references_wf);
    let ps = kernel.processes@;
    let ps0 = kernel0.processes@;
    assert forall|p: usize, i: int|
        #[trigger] ps.dom().contains(p) && 0 <= i < ps[p].inner.children@.len() implies ps.dom().contains(
    #[trigger] ps[p].inner.children@[i]) by {
        assert(ps0.dom().contains(p));
        if ps[p].inner.children@ == ps0[p].inner.children@ {
            assert(ps0.dom().contains(ps0[p].inner.children@[i]));
        }
    }
    assert forall|t: usize| #[trigger] kernel.tasks@.dom().contains(t) implies {
        let task = kernel.tasks@[t];
        &&& task.kstack.id == t
        &&& task.last_cpu < NCPU
        &&& ps.dom().contains(task.process)
        &&& task.inner.res matches Some(res) ==> {
            let inner = ps[task.process].inner;
            &&& res.process == task.process
            &&& res.wf()
            &&& inner.task_res_allocator@.live(res.tid)
            &&& res.tid < inner.tasks@.len()
            &&& inner.tasks@[res.tid as int] == Some(t)
        }
    } by {
        assert(kernel0.tasks@.dom().contains(t));
        assert(ps0.dom().contains(kernel0.tasks@[t].process));
    }
    assert forall|p: usize, i: int|
        #[trigger] ps.dom().contains(p) && 0 <= i < ps[p].inner.tasks@.len() && (
        #[trigger] ps[p].inner.tasks@[i]) is Some implies {
        let t = ps[p].inner.tasks@[i]->Some_0;
        &&& kernel.tasks@.dom().contains(t)
        &&& kernel.tasks@[t].process == p
    } by {
        assert(ps0.dom().contains(p));
        assert(ps0[p].inner.tasks@[i] is Some);
    }
    assert forall|p: usize, i: int, j: int|
        #[trigger] ps.dom().contains(p) && 0 <= i < ps[p].inner.tasks@.len() && 0 <= j
            < ps[p].inner.tasks@.len() && (#[trigger] ps[p].inner.tasks@[i]) is Some
            && ps[p].inner.tasks@[i] == (#[trigger] ps[p].inner.tasks@[j]) implies i == j by {
        assert(ps0.dom().contains(p));
    }
    assert(threads_wf(ps, kernel.tasks@, kernel.kstack_allocator@, kernel.orphans@));
    assert forall|p: usize| #[trigger]
        ps.dom().contains(p) && !kernel.pid2process@.dom().contains(p) implies ps[p].inner.children@.len()
        == 0 by {
        assert(ps0.dom().contains(p));
    }
    assert forall|t: usize| #[trigger]
        kernel.tasks@.dom().contains(t) && !kernel.pid2process@.dom().contains(
            kernel.tasks@[t].process,
        ) implies kernel.tasks@[t].inner.res is None by {
        assert(kernel0.tasks@.dom().contains(t));
    }
    assert(names_wf(kernel));
}

/// What leaves processor `c` alone keeps it sound, if the threads that it refers
/// to stay.
pub proof fn lemma_processor_kept<M: PhysMemory>(kernel: &Kernel<M>, kernel0: &Kernel<M>, c: int)
    requires
        processor_wf(kernel0, c),
        kernel.processors@[c] == kernel0.processors@[c],
        forall|t: usize| #[trigger]
            parked(kernel0, c, t) && (kernel0.processors@[c].pending_requeue@.contains(t)
                || kernel0.processors@[c].current == Some(t)) ==> parked(kernel, c, t),
        forall|p: usize| #[trigger]
            kernel0.processes@.dom().contains(p) ==> kernel.processes@.dom().contains(p),
    ensures
        processor_wf(kernel, c),
{
    let pending = kernel0.processors@[c].pending_requeue@;
    assert forall|i: int| 0 <= i < pending.len() implies parked(
        kernel,
        c,
        #[trigger] pending[i],
    ) by {
        assert(pending.contains(pending[i]));
        assert(parked(kernel0, c, pending[i]));
    }
    if kernel0.processors@[c].current is Some {
        assert(parked(kernel0, c, kernel0.processors@[c].current->Some_0));
    }
}

/// What does not touch the scheduler and drops no thread keeps the scheduler
/// sound.
pub proof fn lemma_schedule_kept<M: PhysMemory>(kernel: &Kernel<M>, kernel0: &Kernel<M>)
    requires
        kernel0.refs_wf(),
        kernel.processes@.dom() == kernel0.processes@.dom(),
        forall|t: usize| #[trigger]
            kernel0.tasks@.dom().contains(t) ==> kernel.tasks@.dom().contains(t)
                && kernel.tasks@[t].last_cpu == kernel0.tasks@[t].last_cpu,
        kernel.task_manager@ == kernel0.task_manager@,
        kernel.processors@ == kernel0.processors@,
        kernel.timers.events() == kernel0.timers.events(),
    ensures
        schedule_wf(kernel),
{
    reveal(references_wf);
    assert forall|c: int| 0 <= c < NCPU implies #[trigger] processor_wf(kernel, c) by {
        assert(processor_wf(kernel0, c));
        lemma_processor_kept(kernel, kernel0, c);
    }
    assert forall|i: int| 0 <= i < kernel.task_manager@.len() implies known(
        kernel.tasks@,
        #[trigger] kernel.task_manager@[i],
    ) by {
        assert(known(kernel0.tasks@, kernel0.task_manager@[i]));
    }
    assert forall|i: int| 0 <= i < kernel.timers.events().len() implies known(
        kernel.tasks@,
        (#[trigger] kernel.timers.events()[i]).task,
    ) by {
        assert(known(kernel0.tasks@, kernel0.timers.events()[i].task));
    }
}

} // verus!
