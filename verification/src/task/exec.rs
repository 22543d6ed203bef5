//! Loading a program into an existing process.
use vstd::prelude::*;
use super::args::{
    arg_bytes, args_block, args_block_fills, args_len, args_sp, argv_base, lay_out_args,
};
use super::create::{holds_image, image_frames, lemma_made_framed, lemma_process_space};
use super::id::TaskUserRes;
use super::kernel::{
    lemma_memory_kept, lemma_refs_kept, lemma_schedule_kept, lemma_spaces_insert, memory_wf,
    references_wf, user_space, Kernel,
};
use super::process::{ProcessControlBlock, ProcessControlBlockInner};
use super::task::{TaskControlBlock, TaskControlBlockInner};
use crate::config::USER_STACK_SIZE;
use crate::mm::address::canonical;
use crate::mm::elf::{
    elf_entry, elf_ph_count, image_end, image_segments, image_stack_bottom, load_segments,
    loadable, segment_areas, stack_segment, Segment,
};
use crate::mm::frame_allocator::FramePool;
use crate::mm::memory_set::{
    areas_data, config, configs, filled_as, holds_segments, lemma_image_framed,
    lemma_owned_allocated, lemma_segments_kept, physmap_slot, MemorySet,
};
use crate::mm::page_table::lemma_root_is_table;
use crate::mm::phys::PhysMemory;
use crate::mm::spaces::{
    confined, lemma_bystander, lemma_confined_trans, lemma_made_confined, lemma_own_part_changed,
    lemma_space_changed,
};
use crate::mm::user_write::{
    area_byte, overwritten, page_of, user_mapped, user_page, user_range, user_written, write_user,
};
use crate::trap::context::{app_context, TrapContext};

verus! {

/// `kernel` came from `kernel0` by loading a program into process `pid`, whose
/// address space before was given back.
pub open spec fn space_replaced<M: PhysMemory>(
    kernel: &Kernel<M>,
    kernel0: &Kernel<M>,
    pid: usize,
    elf_data: Seq<u8>,
) -> bool {
    let p0 = kernel0.processes@[pid];
    let p1 = kernel.processes@[pid];
    &&& kernel.processes@ == kernel0.processes@.insert(pid, p1)
    &&& p1 == (ProcessControlBlock {
        inner: ProcessControlBlockInner { memory_set: p1.inner.memory_set, ..p0.inner },
        ..p0
    })
    &&& user_space(&p1.inner.memory_set, kernel.phys_offset)
    &&& holds_image(&p1.inner.memory_set, &kernel.pool, kernel0, elf_data)
    &&& confined(&kernel.pool, &kernel0.pool, p0.inner.memory_set.owned())
    &&& forall|f: u64| #[trigger]
        p1.inner.memory_set.owned().contains(f) ==> kernel0.pool.free().contains(f)
    &&& forall|f: u64| #[trigger]
        p0.inner.memory_set.owned().contains(f) ==> kernel.pool.free().contains(f)
    &&& kernel.pool.free_count() == kernel0.pool.free_count() - image_frames(elf_data)
        + p0.inner.memory_set.owned_count()
    &&& *kernel == (Kernel { pool: kernel.pool, processes: kernel.processes, ..*kernel0 })
}

/// Put the program in `elf_data` in the place of the address space of process
/// `pid`. Returns the top of the user stack and the entry point.
fn replace_space<M: PhysMemory>(kernel: &mut Kernel<M>, pid: usize, elf_data: &[u8]) -> (r: (
    u64,
    u64,
))
    requires
        old(kernel).wf(),
        old(kernel).processes@.dom().contains(pid),
        loadable(elf_data@, physmap_slot(old(kernel).phys_offset)),
        old(kernel).pool.free_count() >= image_frames(elf_data@),
    ensures
        final(kernel).mem_wf(),
        space_replaced(final(kernel), old(kernel), pid, elf_data@),
        r.0 == image_stack_bottom(elf_data@) + USER_STACK_SIZE,
        r.1 == elf_entry(elf_data@),
{
    let ghost k0 = *kernel;
    let ghost slots = physmap_slot(k0.phys_offset);
    let ghost image = image_segments(elf_data@);
    let root: u64 = kernel.kernel_space.root_ppn().0;
    proof {
        reveal(memory_wf);
        assert(k0.spaces().dom().contains(pid));
        lemma_root_is_table(&k0.kernel_space.table(), &k0.pool);
        lemma_image_framed(elf_data@);
    }
    let (memory_set, user_sp, entry_point) = MemorySet::from_elf(
        elf_data,
        &mut kernel.pool,
        root,
        kernel.phys_offset,
    );
    let ghost ms = memory_set;
    let ghost pool1 = kernel.pool;
    let mut process = kernel.processes.remove(&pid).unwrap();
    let ghost p0 = process;
    let ghost ms0 = process.inner.memory_set;
    proof {
        lemma_made_confined(&ms, &pool1, &k0.pool, root, slots, segment_areas(image));
        assert forall|k: int| 0 <= k < segment_areas(image).len() implies (
        #[trigger] segment_areas(image)[k]).framed() by {
            assert(image[k].area.framed());
        }
        lemma_made_framed(&ms, &pool1, &k0.pool, root, slots, segment_areas(image));
        lemma_bystander(&ms0, &pool1, &k0.pool, Set::empty());
        assert(ms.owned().disjoint(ms0.owned())) by {
            assert forall|f: u64| ms.owned().contains(f) implies !ms0.owned().contains(f) by {
                if ms0.owned().contains(f) {
                    lemma_owned_allocated(&ms0, &k0.pool, f);
                }
            }
        }
    }
    let mut replaced = memory_set;
    std::mem::swap(&mut process.inner.memory_set, &mut replaced);
    replaced.release(&mut kernel.pool);
    let ghost p1 = process;
    kernel.processes.insert(pid, process);
    proof {
        assert(confined(&kernel.pool, &pool1, ms0.owned()));
        lemma_bystander(&ms, &kernel.pool, &pool1, ms0.owned());
        lemma_confined_trans(&kernel.pool, &pool1, &k0.pool, ms0.owned(), ms0.owned());
        lemma_space_changed(
            &kernel.pool,
            &k0.pool,
            &k0.kernel_space,
            k0.spaces(),
            pid,
            ms,
            ms0.owned(),
        );
        lemma_bystander(&k0.kernel_space, &kernel.pool, &k0.pool, ms0.owned());
        lemma_spaces_insert(k0.processes@, pid, p1);
        assert(kernel.processes@ =~= k0.processes@.insert(pid, p1));
        lemma_segments_kept(&ms, &kernel.pool, &pool1, image);
    }
    (user_sp, entry_point)
}

/// The contents of a user stack that holds the arguments of a program at its
/// upper end and zeros below.
pub open spec fn stack_with_args(args: Seq<Seq<u8>>, top: int) -> Seq<u8> {
    Seq::new((USER_STACK_SIZE - args_len(args)) as nat, |i: int| 0u8) + args_block(args, top)
}

/// The pieces of a program image with the arguments on its stack.
pub open spec fn image_with_args(elf_data: Seq<u8>, args: Seq<Seq<u8>>) -> Seq<Segment> {
    load_segments(elf_data, elf_ph_count(elf_data)).push(
        Segment {
            fill: Some(stack_with_args(args, image_stack_bottom(elf_data) + USER_STACK_SIZE)),
            ..stack_segment(elf_data)
        },
    )
}

/// Where a stack that starts one page above page `page` lies.
proof fn lemma_stack_numbers(page: int, bottom: int)
    requires
        0 <= page <= 512 * 0x800_0000,
        bottom == canonical((page * 0x1000) as u64) + 0x1000,
        (bottom % 0x1_0000_0000_0000) / 0x1000 <= ((bottom + 0x2000) % 0x1_0000_0000_0000 + 0xfff)
            / 0x1000,
    ensures
        0 <= bottom,
        bottom % 0x1000 == 0,
        ({
            let r = bottom % 0x1_0000_0000_0000;
            &&& r % 0x1000 == 0
            &&& r + 0x2000 < 0x1_0000_0000_0000
            &&& (bottom + 0x2000) % 0x1_0000_0000_0000 == r + 0x2000
        }),
{
    let w: u64 = (page * 0x1000) as u64;
    let x = page * 0x1000 + 0x1000;
    assert(w == page * 0x1000);
    assert(bottom == x || bottom == x + 0xffff * 0x1_0000_0000_0000);
    lemma_stack_wrap(x, page + 1, bottom);
}

/// The lowest 48 bits of the bounds of a stack at page `n`.
proof fn lemma_stack_wrap(x: int, n: int, b: int)
    requires
        x == n * 0x1000,
        0 < n <= 512 * 0x800_0000 + 1,
        b == x || b == x + 0xffff * 0x1_0000_0000_0000,
    ensures
        ({
            let r = b % 0x1_0000_0000_0000;
            &&& b % 0x1000 == 0
            &&& r % 0x1000 == 0
            &&& r + 0x2000 < 0x1_0000_0000_0000 ==> (b + 0x2000) % 0x1_0000_0000_0000 == r + 0x2000
            &&& r + 0x2000 >= 0x1_0000_0000_0000 ==> r / 0x1000 > ((b + 0x2000)
                % 0x1_0000_0000_0000 + 0xfff) / 0x1000
        }),
{
    let v: int = 0x1_0000_0000_0000;
    let r = if x < v {
        x
    } else {
        x - v
    };
    let m = if x < v {
        n
    } else {
        n - 0x10_0000_0000
    };
    assert(r == m * 0x1000);
    assert(b % v == r);
    let r1 = if r + 0x2000 < v {
        r + 0x2000
    } else {
        r + 0x2000 - v
    };
    assert((b + 0x2000) % v == r1);
}

/// Where the user stack of a program image lies.
pub proof fn lemma_stack_place(elf_data: Seq<u8>, slots: int)
    requires
        loadable(elf_data, slots),
        slots <= 512,
    ensures
        ({
            let area = stack_segment(elf_data).area;
            let bottom = image_stack_bottom(elf_data);
            &&& 0 <= bottom
            &&& bottom + USER_STACK_SIZE <= u64::MAX
            &&& bottom % 0x1000 == 0
            &&& bottom % 0x1_0000_0000_0000 == area.start * 0x1000
            &&& area.end == area.start + 2
            &&& area.end * 0x1000 <= 0x1_0000_0000_0000
        }),
{
    let segments = image_segments(elf_data);
    let loads = load_segments(elf_data, elf_ph_count(elf_data));
    assert(segments[segments.len() - 1] == stack_segment(elf_data));
    assert(0 <= segments[segments.len() - 1].area.start <= segments[segments.len() - 1].area.end);
    if loads.len() > 0 {
        assert(segments[loads.len() - 1] == loads.last());
        assert(0 <= segments[loads.len() - 1].area.end <= slots * 0x800_0000);
    }
    lemma_stack_numbers(image_end(elf_data), image_stack_bottom(elf_data));
}

/// The addresses of the arguments lie in the user stack.
pub proof fn lemma_args_place(elf_data: Seq<u8>, slots: int, args: Seq<Seq<u8>>, i: int)
    requires
        loadable(elf_data, slots),
        slots <= 512,
        args_len(args) <= USER_STACK_SIZE,
        0 <= i < args_len(args),
    ensures
        ({
            let ptr = image_stack_bottom(elf_data) + USER_STACK_SIZE - args_len(args);
            let area = stack_segment(elf_data).area;
            &&& ptr % 0x1_0000_0000_0000 == area.start * 0x1000 + USER_STACK_SIZE - args_len(args)
            &&& (ptr + i) % 0x1_0000_0000_0000 == ptr % 0x1_0000_0000_0000 + i
            &&& area.contains(user_page(ptr, i))
        }),
{
    lemma_stack_place(elf_data, slots);
    let bottom = image_stack_bottom(elf_data);
    let area = stack_segment(elf_data).area;
    let d = USER_STACK_SIZE - args_len(args);
    assert((bottom + d) % 0x1_0000_0000_0000 == area.start * 0x1000 + d);
    assert((bottom + (d + i)) % 0x1_0000_0000_0000 == area.start * 0x1000 + (d + i));
}

/// The stack of a loaded program has room for the arguments.
proof fn lemma_args_range<M: PhysMemory>(
    ms: &MemorySet,
    pool: &FramePool<M>,
    kernel0: &Kernel<M>,
    elf_data: Seq<u8>,
    slots: int,
    args: Seq<Seq<u8>>,
)
    requires
        holds_image(ms, pool, kernel0, elf_data),
        loadable(elf_data, slots),
        slots <= 512,
        args_len(args) <= USER_STACK_SIZE,
    ensures
        user_range(
            ms,
            image_stack_bottom(elf_data) + USER_STACK_SIZE - args_len(args),
            args_len(args),
        ),
{
    let ptr = image_stack_bottom(elf_data) + USER_STACK_SIZE - args_len(args);
    let segments = image_segments(elf_data);
    let n = segments.len() - 1;
    lemma_stack_place(elf_data, slots);
    args_block_fills(args, 0);
    lemma_args_place(elf_data, slots, args, 0);
    assert(configs(ms.areas()).len() == ms.areas().len());
    assert(configs(segment_areas(segments)).len() == segments.len());
    assert(configs(ms.areas())[n] == configs(segment_areas(segments))[n]);
    assert(segments[n] == stack_segment(elf_data));
    assert(config(ms.areas()[n]) == config(stack_segment(elf_data).area));
    assert forall|i: int| 0 <= i < args_len(args) implies user_mapped(
        ms,
        #[trigger] user_page(ptr, i),
    ) by {
        lemma_args_place(elf_data, slots, args, i);
        assert(config(ms.areas()[n]).start == ms.areas()[n].start);
        assert(config(ms.areas()[n]).map_type == ms.areas()[n].map_type);
        assert(page_of(ms, n, user_page(ptr, i)));
    }
}

/// A program that was loaded and whose arguments were written to its stack.
proof fn lemma_args_held<M: PhysMemory>(
    ms: &MemorySet,
    pool: &FramePool<M>,
    pool0: &FramePool<M>,
    kernel0: &Kernel<M>,
    elf_data: Seq<u8>,
    slots: int,
    args: Seq<Seq<u8>>,
)
    requires
        ms.wf(pool0),
        holds_image(ms, pool0, kernel0, elf_data),
        loadable(elf_data, slots),
        slots <= 512,
        args_len(args) <= USER_STACK_SIZE,
        user_written(
            ms,
            pool,
            pool0,
            image_stack_bottom(elf_data) + USER_STACK_SIZE - args_len(args),
            args_block(args, image_stack_bottom(elf_data) + USER_STACK_SIZE),
        ),
    ensures
        holds_segments(ms, pool, image_with_args(elf_data, args)),
{
    let top = image_stack_bottom(elf_data) + USER_STACK_SIZE;
    let ptr = top - args_len(args);
    let block = args_block(args, top);
    let segments = image_segments(elf_data);
    let after = image_with_args(elf_data, args);
    let n = segments.len() - 1;
    let area = stack_segment(elf_data).area;
    lemma_image_framed(elf_data);
    lemma_stack_place(elf_data, slots);
    args_block_fills(args, top);
    lemma_args_place(elf_data, slots, args, 0);
    assert(configs(ms.areas()).len() == ms.areas().len());
    assert(configs(segment_areas(segments)).len() == segments.len());
    assert forall|k: int, v: int, j: int|
        0 <= k < after.len() && after[k].area.contains(v) && 0 <= j
            < 0x1000 implies #[trigger] filled_as(ms, pool, after, k, v, j) by {
        assert(configs(ms.areas())[k] == configs(segment_areas(segments))[k]);
        assert(after[k].area == segments[k].area);
        assert(segments[k].area.framed());
        assert(config(ms.areas()[k]).start == config(segments[k].area).start);
        assert(config(ms.areas()[k]).end == config(segments[k].area).end);
        assert(config(ms.areas()[k]).map_type == config(segments[k].area).map_type);
        assert(page_of(ms, k, v));
        assert(filled_as(ms, pool0, segments, k, v, j));
        let b = area_byte(ms, pool0, k, v, j);
        assert(area_byte(ms, pool, k, v, j) == overwritten(ptr, block, v, j, b));
        let i = v * 0x1000 + j - ptr % 0x1_0000_0000_0000;
        if k == n {
            assert(segments[k] == stack_segment(elf_data));
            assert(b == 0);
            let o = (v - area.start) * 0x1000 + j;
            assert(i == o - (USER_STACK_SIZE - args_len(args)));
        } else {
            assert(after[k] == segments[k]);
            if 0 <= i < block.len() {
                lemma_args_place(elf_data, slots, args, i);
                assert(user_page(ptr, i) == v);
                assert(segments[n].area.contains(v));
                assert(segments[k].area.contains(v));
            }
        }
    }
}

/// Names do not depend on the contents of memory.
proof fn lemma_pool_changed<M: PhysMemory>(kernel: &Kernel<M>, kernel0: &Kernel<M>)
    requires
        kernel0.refs_wf(),
        *kernel == (Kernel { pool: kernel.pool, ..*kernel0 }),
    ensures
        kernel.refs_wf(),
{
    lemma_schedule_kept(kernel, kernel0);
    reveal(references_wf);
    lemma_refs_kept(kernel, kernel0);
}

/// Write `bytes` from pointer value `ptr` on into the memory of process `pid`.
pub fn write_process<M: PhysMemory>(kernel: &mut Kernel<M>, pid: usize, ptr: u64, bytes: &[u8])
    requires
        old(kernel).mem_wf(),
        old(kernel).processes@.dom().contains(pid),
        user_range(
            &old(kernel).processes@[pid].inner.memory_set,
            ptr as int,
            bytes@.len() as int,
        ),
    ensures
        final(kernel).mem_wf(),
        ({
            let ms = old(kernel).processes@[pid].inner.memory_set;
            &&& user_written(&ms, &final(kernel).pool, &old(kernel).pool, ptr as int, bytes@)
            &&& confined(&final(kernel).pool, &old(kernel).pool, ms.owned())
            &&& ms.wf(&final(kernel).pool)
            &&& ms.exact(&old(kernel).pool) ==> ms.exact(&final(kernel).pool)
        }),
        *final(kernel) == (Kernel { pool: final(kernel).pool, ..*old(kernel) }),
        old(kernel).wf() ==> final(kernel).wf(),
{
    let ghost k0 = *kernel;
    let ghost ms = k0.processes@[pid].inner.memory_set;
    proof {
        reveal(memory_wf);
        assert(k0.spaces().dom().contains(pid));
    }
    let process = kernel.processes.get(&pid).unwrap();
    write_user(&mut kernel.pool, &process.inner.memory_set, ptr, bytes);
    proof {
        assert forall|f: u64|
            !ms.owned().contains(f) && !k0.pool.free().contains(f) implies #[trigger] kernel.pool.frames()[f]
            == k0.pool.frames()[f] by {
            assert(!areas_data(ms.areas()).contains(f));
        }
        lemma_root_is_table(&ms.table(), &k0.pool);
        lemma_own_part_changed(&ms, &kernel.pool, &ms, &k0.pool, &k0.kernel_space);
        lemma_space_changed(
            &kernel.pool,
            &k0.pool,
            &k0.kernel_space,
            k0.spaces(),
            pid,
            ms,
            ms.owned(),
        );
        assert(k0.spaces().insert(pid, ms) =~= k0.spaces());
        lemma_bystander(&k0.kernel_space, &kernel.pool, &k0.pool, ms.owned());
        assert(kernel.mem_wf());
        if k0.wf() {
            lemma_pool_changed(kernel, &k0);
        }
    }
}

/// The address space holds the image of the program, with the arguments on its
/// stack, beside the kernel's part as it was in `kernel0`.
pub open spec fn holds_program<M: PhysMemory>(
    ms: &MemorySet,
    pool: &FramePool<M>,
    kernel0: &Kernel<M>,
    elf_data: Seq<u8>,
    args: Seq<Seq<u8>>,
) -> bool {
    &&& ms.exact(pool)
    &&& configs(ms.areas()) == configs(segment_areas(image_segments(elf_data)))
    &&& holds_segments(ms, pool, image_with_args(elf_data, args))
    &&& forall|i: int|
        physmap_slot(kernel0.phys_offset) <= i < 512 ==> #[trigger] pool.frames()[ms.root()][i]
            == kernel0.pool.frames()[kernel0.kernel_space.root()][i]
}

/// The main thread of a process that has just loaded a program: it starts at
/// the entry point with its arguments.
pub open spec fn restarted_thread(
    task: TaskControlBlock,
    elf_data: Seq<u8>,
    args: Seq<Seq<u8>>,
) -> TaskControlBlock {
    let top = image_stack_bottom(elf_data) + USER_STACK_SIZE;
    TaskControlBlock {
        inner: TaskControlBlockInner {
            res: Some(
                TaskUserRes {
                    ustack_base: image_stack_bottom(elf_data) as u64,
                    ..task.inner.res->Some_0
                },
            ),
            trap_cx: TrapContext {
                rdi: args.len() as u64,
                rsi: argv_base(args, top) as u64,
                ..app_context(elf_entry(elf_data) as u64, args_sp(args, top) as u64)
            },
            ..task.inner
        },
        ..task
    }
}

/// Whether a program can be loaded into process `pid`: it has one thread, which
/// has not exited, the file is a program, there are enough frames for it, and
/// the arguments fit on its stack.
pub open spec fn can_exec<M: PhysMemory>(
    kernel: &Kernel<M>,
    pid: usize,
    elf_data: Seq<u8>,
    args: Seq<Seq<u8>>,
) -> bool {
    let tasks = kernel.processes@[pid].inner.tasks@;
    &&& tasks.len() == 1
    &&& tasks[0] matches Some(t) && kernel.tasks@[t].inner.res is Some
    &&& loadable(elf_data, physmap_slot(kernel.phys_offset))
    &&& kernel.pool.free_count() >= image_frames(elf_data)
    &&& args_len(args) <= USER_STACK_SIZE
}

/// `kernel` came from `kernel0` by loading a program into process `pid`, whose
/// thread starts it with the arguments; the address space that the process had
/// before is given back.
pub open spec fn program_started<M: PhysMemory>(
    kernel: &Kernel<M>,
    kernel0: &Kernel<M>,
    pid: usize,
    elf_data: Seq<u8>,
    args: Seq<Seq<u8>>,
) -> bool {
    let p0 = kernel0.processes@[pid];
    let p1 = kernel.processes@[pid];
    let t = p0.inner.tasks@[0]->Some_0;
    &&& kernel.processes@ == kernel0.processes@.insert(pid, p1)
    &&& p1 == (ProcessControlBlock {
        inner: ProcessControlBlockInner { memory_set: p1.inner.memory_set, ..p0.inner },
        ..p0
    })
    &&& holds_program(&p1.inner.memory_set, &kernel.pool, kernel0, elf_data, args)
    &&& kernel.tasks@ == kernel0.tasks@.insert(
        t,
        restarted_thread(kernel0.tasks@[t], elf_data, args),
    )
    &&& forall|f: u64| #[trigger]
        p0.inner.memory_set.owned().contains(f) ==> kernel.pool.free().contains(f)
    &&& confined(&kernel.pool, &kernel0.pool, p0.inner.memory_set.owned())
    &&& kernel.pool.free_count() == kernel0.pool.free_count() - image_frames(elf_data)
        + p0.inner.memory_set.owned_count()
    &&& *kernel == (Kernel {
        pool: kernel.pool,
        processes: kernel.processes,
        tasks: kernel.tasks,
        ..*kernel0
    })
}

impl ProcessControlBlock {
    /// Load the program in `elf_data` into process `pid`, which has one thread,
    /// and let that thread start the program with `args`. Returns the value to
    /// load into CR3: a trap does not switch address spaces, so the new one has
    /// to be made active before the thread returns to user mode.
    pub fn exec<M: PhysMemory>(
        kernel: &mut Kernel<M>,
        pid: usize,
        elf_data: &[u8],
        args: &Vec<String>,
    ) -> (r: u64)
        requires
            old(kernel).wf(),
            old(kernel).processes@.dom().contains(pid),
            can_exec(old(kernel), pid, elf_data@, arg_bytes(args@)),
        ensures
            final(kernel).wf(),
            program_started(final(kernel), old(kernel), pid, elf_data@, arg_bytes(args@)),
            r == final(kernel).processes@[pid].inner.memory_set.root() * 0x1000,
    {
        let ghost k0 = *kernel;
        let ghost bytes = arg_bytes(args@);
        let ghost slots = physmap_slot(k0.phys_offset);
        let (user_sp, entry_point) = replace_space(kernel, pid, elf_data);
        let ghost k1 = *kernel;
        let ghost ms = k1.processes@[pid].inner.memory_set;
        let ustack_base: u64 = user_sp - USER_STACK_SIZE;
        let process = kernel.processes.get(&pid).unwrap();
        let id: usize = process.inner.get_task(0);
        proof {
            reveal(references_wf);
            assert(k0.processes@[pid].inner.tasks@[0] is Some);
            assert(k0.tasks@.dom().contains(id));
            lemma_stack_place(elf_data@, slots);
            args_block_fills(bytes, user_sp as int);
            lemma_args_range(&ms, &k1.pool, &k0, elf_data@, slots, bytes);
        }
        let mut task = kernel.tasks.remove(&id).unwrap();
        proof {
            lemma_memory_kept(kernel, &k1);
        }
        let mut res = task.inner.res.unwrap();
        res.ustack_base = ustack_base;
        task.inner.res = Some(res);
        let ustack_top: u64 = res.ustack_top();
        let (block, base, sp) = lay_out_args(args, ustack_top);
        write_process(kernel, pid, ustack_top - block.len() as u64, block.as_slice());
        let mut trap_cx = TrapContext::app_init_context(entry_point, sp);
        trap_cx.rdi = args.len() as u64;
        trap_cx.rsi = base;
        task.inner.trap_cx = trap_cx;
        let ghost k2 = *kernel;
        kernel.tasks.insert(id, task);
        proof {
            lemma_memory_kept(kernel, &k2);
            assert(kernel.tasks@ =~= k0.tasks@.insert(id, task));
            assert(kernel.tasks@.dom() =~= k0.tasks@.dom());
            assert(kernel.processes@.dom() =~= k0.processes@.dom());
            lemma_process_space(&k1, pid);
            lemma_args_held(&ms, &k2.pool, &k1.pool, &k0, elf_data@, slots, bytes);
            lemma_root_is_table(&ms.table(), &k1.pool);
            k1.pool.mem.frames_wf();
            lemma_confined_trans(
                &k2.pool,
                &k1.pool,
                &k0.pool,
                ms.owned(),
                k0.processes@[pid].inner.memory_set.owned(),
            );
            lemma_schedule_kept(kernel, &k0);
            lemma_refs_kept(kernel, &k0);
        }
        let process = kernel.processes.get(&pid).unwrap();
        process.inner.memory_set.activate()
    }
}

} // verus!
