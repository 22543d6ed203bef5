//! Telling whether a program can be started.
use vstd::prelude::*;
use super::args::{arg_bytes, args_len, strings_len};
use super::create::image_frames;
use super::exec::can_exec;
use super::id::{alloc_takes_unused_id, KernelStack};
use super::kernel::{
    lemma_stack_page, memory_wf, references_wf, stack_frames, stack_page, Kernel, IDLE_PID,
};
use crate::config::{KERNEL_STACK_COUNT, USER_STACK_SIZE};
use crate::mm::address::VirtAddr;
use crate::mm::budget::spend_areas;
use crate::mm::elf::{elf_ph_count, image_segments, load_segments, loadable, segment_areas};
use crate::mm::elf_check::image_pages;
use crate::mm::memory_set::physmap_slot;
use crate::mm::phys::PhysMemory;

verus! {

/// Whether the program in `elf_data` can be the first process: there is none yet, the
/// file is a program, and there is a kernel stack and there are frames for it.
pub open spec fn can_start<M: PhysMemory>(kernel: &Kernel<M>, elf_data: Seq<u8>) -> bool {
    &&& kernel.initproc is None
    &&& kernel.pid_allocator@.next_id() == IDLE_PID
    &&& loadable(elf_data, physmap_slot(kernel.phys_offset))
    &&& kernel.kstack_available()
    &&& kernel.pool.free_count() >= image_frames(elf_data) + stack_frames(
        &kernel.kernel_space,
        &kernel.pool,
        kernel.next_kstack(),
    )
}

/// How many frames are left once the program in `elf_data` is loaded, if it can be.
fn frames_beside_image<M: PhysMemory>(kernel: &Kernel<M>, elf_data: &[u8]) -> (r: Option<u128>)
    requires
        kernel.wf(),
    ensures
        match r {
            Some(rest) => {
                &&& loadable(elf_data@, physmap_slot(kernel.phys_offset))
                &&& rest + image_frames(elf_data@) == kernel.pool.free_count()
            },
            None => !loadable(elf_data@, physmap_slot(kernel.phys_offset)) || image_frames(
                elf_data@,
            ) > kernel.pool.free_count(),
        },
{
    proof {
        reveal(memory_wf);
    }
    match image_pages(elf_data, kernel.phys_offset) {
        Some(pages) => {
            let ghost segments = image_segments(elf_data@);
            let ghost areas = segment_areas(segments);
            proof {
                assert forall|k: int| 0 <= k < areas.len() implies (#[trigger] pages@[k]).0
                    == areas[k].start && pages@[k].1 == areas[k].end && areas[k].per_page() == 1 by {
                    lemma_image_framed(elf_data@, k);
                }
            }
            spend_areas(&pages, 1, kernel.pool.allocator.free_count(), Ghost(areas))
        },
        None => None,
    }
}

/// Whether the program in `elf_data` can be the first process.
pub fn start_possible<M: PhysMemory>(kernel: &Kernel<M>, elf_data: &[u8]) -> (r: bool)
    requires
        kernel.wf(),
    ensures
        r == can_start(kernel, elf_data@),
{
    if kernel.initproc.is_some() || kernel.pid_allocator.upcoming() != IDLE_PID {
        return false;
    }
    let id: usize = kernel.kstack_allocator.upcoming();
    if id >= KERNEL_STACK_COUNT {
        return false;
    }
    proof {
        lemma_next_stack_unmapped(kernel);
        lemma_stack_page(id);
    }
    let stack = KernelStack { id };
    let bottom: u64 = VirtAddr::new(stack.get_bottom()).floor().0;
    match frames_beside_image(kernel, elf_data) {
        Some(rest) => kernel.kernel_space.spend(
            &kernel.pool,
            bottom,
            bottom + 2,
            1,
            rest,
        ).is_some(),
        None => false,
    }
}

/// Whether the arguments fit on the stack of a program.
fn args_fit(args: &Vec<String>) -> (r: bool)
    ensures
        r == (args_len(arg_bytes(args@)) <= USER_STACK_SIZE),
{
    let ghost bytes = arg_bytes(args@);
    let size: usize = USER_STACK_SIZE as usize;
    if args.len() >= size {
        proof {
            lemma_strings_grow(bytes, 0, bytes.len() as int);
        }
        return false;
    }
    let mut total: usize = 8 * (args.len() + 1);
    let mut i: usize = 0;
    while i < args.len()
        invariant
            i <= args@.len() < size,
            size == USER_STACK_SIZE,
            bytes == arg_bytes(args@),
            total == strings_len(bytes, i as int) + 8 * (bytes.len() + 1),
            total <= 0x1_2000,
        decreases args@.len() - i,
    {
        let arg: &[u8] = args[i].as_str().as_bytes();
        assert(arg@ == bytes[i as int]);
        proof {
            lemma_strings_grow(bytes, i + 1, bytes.len() as int);
        }
        if arg.len() > size || total + arg.len() + 1 > size {
            return false;
        }
        total = total + arg.len() + 1;
        i = i + 1;
    }
    total <= size
}

proof fn lemma_strings_grow(args: Seq<Seq<u8>>, n: int, m: int)
    requires
        0 <= n <= m <= args.len(),
    ensures
        0 <= strings_len(args, n) <= strings_len(args, m),
    decreases m,
{
    if n < m {
        lemma_strings_grow(args, n, m - 1);
    } else if n > 0 {
        lemma_strings_grow(args, 0, n - 1);
    }
}

/// Whether the program in `elf_data` can be loaded into process `pid`, with these
/// arguments.
pub fn exec_possible<M: PhysMemory>(
    kernel: &Kernel<M>,
    pid: usize,
    elf_data: &[u8],
    args: &Vec<String>,
) -> (r: bool)
    requires
        kernel.wf(),
        kernel.processes@.dom().contains(pid),
    ensures
        r == can_exec(kernel, pid, elf_data@, arg_bytes(args@)),
{
    let process = kernel.processes.get(&pid).unwrap();
    if process.inner.tasks.len() != 1 {
        return false;
    }
    let alive: bool = match process.inner.tasks[0] {
        Some(t) => {
            proof {
                reveal(references_wf);
                assert(kernel.processes@[pid].inner.tasks@[0] is Some);
            }
            kernel.tasks.get(&t).unwrap().inner.res.is_some()
        },
        None => false,
    };
    alive && args_fit(args) && frames_beside_image(kernel, elf_data).is_some()
}

/// The pieces of an image have frames of their own.
proof fn lemma_image_framed(b: Seq<u8>, k: int)
    requires
        0 <= k < image_segments(b).len(),
    ensures
        image_segments(b)[k].area.framed(),
{
    lemma_load_framed(b, elf_ph_count(b), k);
}

proof fn lemma_load_framed(b: Seq<u8>, n: int, k: int)
    ensures
        0 <= k < load_segments(b, n).len() ==> load_segments(b, n)[k].area.framed(),
    decreases n,
{
    if n > 0 {
        lemma_load_framed(b, n - 1, k);
    }
}

/// Nothing is mapped where the next kernel stack is to lie.
proof fn lemma_next_stack_unmapped<M: PhysMemory>(kernel: &Kernel<M>)
    requires
        kernel.wf(),
        kernel.kstack_available(),
    ensures
        kernel.kernel_space.table().wf(&kernel.pool),
        kernel.kernel_space.table().slots() == 512,
        forall|v: int|
            stack_page(kernel.next_kstack()) <= v < stack_page(kernel.next_kstack()) + 2
                ==> #[trigger] kernel.kernel_space.table().mapped(&kernel.pool, v) is None,
{
    reveal(memory_wf);
    let id = kernel.next_kstack();
    let ks = kernel.kernel_space;
    alloc_takes_unused_id(kernel.kstack_allocator@);
    lemma_stack_page(id);
    assert forall|v: int| stack_page(id) <= v < stack_page(id) + 2 implies #[trigger] ks.table().mapped(
        &kernel.pool,
        v,
    ) is None by {
        if ks.table().mapped(&kernel.pool, v) is Some {
            let i = choose|i: int| 0 <= i < ks.areas().len() && #[trigger] ks.areas()[i].contains(v);
            assert(!kernel.kstack_allocator@.live(id));
            assert(!ks.areas()[i].contains(stack_page(id)) && !ks.areas()[i].contains(
                stack_page(id) + 1,
            ));
        }
    }
}

} // verus!
