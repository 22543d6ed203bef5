//! What user programs can rely on.
use vstd::prelude::*;
use super::args::{
    arg_at, argument_array_ends, arguments_are_found, args_block, args_block_fills, args_len,
    argv_base, word_bytes,
};
use super::create::lemma_process_space;
use super::exec::{
    holds_program, image_with_args, lemma_args_place, lemma_stack_place, stack_with_args,
};
use super::fork::{copies_space, forked};
use super::kernel::{
    lemma_stack_page, memory_wf, references_wf, stack_area, stack_page, user_space, Kernel,
};
use crate::config::{kernel_stack_id_ok, USER_STACK_SIZE};
use crate::laws::spaces::lemma_permissions;
use crate::mm::address::{VA_LIMIT, VPN_LIMIT};
use crate::mm::elf::{image_segments, image_stack_bottom, loadable, segment_areas, stack_segment};
use crate::mm::map_area::{lemma_perm_flags, perm_flags, MAP_R, MAP_W};
use crate::mm::memory_set::{
    area_index, areas_data, config, configs, filled_as, physmap_slot, same_contents,
};
use crate::mm::page_table::{pte_valid, pte_word_valid};
use crate::mm::phys::{cleared_frame_bytes, Frames, PhysMemory};
use crate::mm::rights::{
    areas_grant_their_permissions, grants, page_rights, shared_entry_shares_rights, Rights,
};
use crate::mm::spaces::shares_kernel;
use crate::mm::table_tree::{leaf, lemma_prefix, mapped, own, prefix, table_at};
use crate::mm::user_memory::user_byte;
use crate::mm::user_write::{
    area_byte, lemma_user_frame, overwritten, page_of, user_mapped, user_page, user_range,
    user_written,
};

verus! {

/// The page of pointer value `ptr`.
pub open spec fn page_at(ptr: int) -> int {
    (ptr % (VA_LIMIT as int)) / 0x1000
}

/// The byte that process `pid` reads at pointer value `ptr`.
pub open spec fn process_byte<M: PhysMemory>(kernel: &Kernel<M>, pid: usize, ptr: int) -> u8 {
    user_byte(kernel.pool.frames(), kernel.processes@[pid].inner.memory_set.root(), ptr)
}

/// A byte of memory of a process is the byte of the page of its area.
proof fn lemma_process_byte<M: PhysMemory>(kernel: &Kernel<M>, pid: usize, k: int, ptr: int)
    requires
        kernel.mem_wf(),
        kernel.processes@.dom().contains(pid),
        page_of(&kernel.processes@[pid].inner.memory_set, k, page_at(ptr)),
    ensures
        process_byte(kernel, pid, ptr) == area_byte(
            &kernel.processes@[pid].inner.memory_set,
            &kernel.pool,
            k,
            page_at(ptr),
            ptr % 0x1000,
        ),
{
    lemma_process_space(kernel, pid);
    assert(kernel.pool.wf()) by {
        reveal(memory_wf);
    }
    lemma_user_frame(&kernel.processes@[pid].inner.memory_set, &kernel.pool, k, ptr);
}

/// A child reads what its parent could read when it was copied.
pub proof fn child_reads_what_parent_read<M: PhysMemory>(
    kernel: &Kernel<M>,
    kernel0: &Kernel<M>,
    pid: usize,
    child: usize,
    k: int,
    ptr: int,
)
    requires
        kernel0.wf(),
        kernel.wf(),
        kernel0.processes@.dom().contains(pid),
        forked(kernel, kernel0, pid, child),
        page_of(&kernel0.processes@[pid].inner.memory_set, k, page_at(ptr)),
    ensures
        process_byte(kernel, child, ptr) == process_byte(kernel0, pid, ptr),
{
    let ms0 = kernel0.processes@[pid].inner.memory_set;
    let ms = kernel.processes@[child].inner.memory_set;
    let v = page_at(ptr);
    assert(copies_space(&ms, &kernel.pool, &ms0, kernel0));
    assert(configs(ms.areas()).len() == ms.areas().len());
    assert(configs(ms0.areas()).len() == ms0.areas().len());
    assert(configs(ms.areas())[k] == configs(ms0.areas())[k]);
    assert(config(ms.areas()[k]).start == config(ms0.areas()[k]).start);
    assert(config(ms.areas()[k]).end == config(ms0.areas()[k]).end);
    assert(config(ms.areas()[k]).map_type == config(ms0.areas()[k]).map_type);
    assert(page_of(&ms, k, v));
    assert(same_contents(&ms, &kernel.pool, &ms0, &kernel0.pool, k, v));
    lemma_process_byte(kernel0, pid, k, ptr);
    lemma_process_byte(kernel, child, k, ptr);
}

/// Where the bytes after a pointer lie, as long as they stay in the same half.
proof fn lemma_byte_place(at: int, i: int)
    requires
        0 <= at,
        0 <= i,
        at % (VA_LIMIT as int) + i < VA_LIMIT,
    ensures
        (at + i) % (VA_LIMIT as int) == at % (VA_LIMIT as int) + i,
        page_at(at + i) * 0x1000 + (at + i) % 0x1000 == at % (VA_LIMIT as int) + i,
{
}

/// A process reads the bytes that were written to its memory.
pub proof fn process_reads_what_was_written<M: PhysMemory>(
    kernel: &Kernel<M>,
    kernel0: &Kernel<M>,
    pid: usize,
    at: int,
    bytes: Seq<u8>,
    i: int,
)
    requires
        kernel.mem_wf(),
        kernel.processes@.dom().contains(pid),
        kernel.processes@[pid].inner.memory_set == kernel0.processes@[pid].inner.memory_set,
        0 <= at,
        user_range(&kernel0.processes@[pid].inner.memory_set, at, bytes.len() as int),
        user_written(
            &kernel0.processes@[pid].inner.memory_set,
            &kernel.pool,
            &kernel0.pool,
            at,
            bytes,
        ),
        0 <= i < bytes.len(),
    ensures
        process_byte(kernel, pid, at + i) == bytes[i],
{
    let ms = kernel0.processes@[pid].inner.memory_set;
    let v = user_page(at, i);
    assert(user_mapped(&ms, v));
    let k = choose|k: int| page_of(&ms, k, v);
    lemma_byte_place(at, i);
    assert(v == page_at(at + i));
    lemma_process_byte(kernel, pid, k, at + i);
    assert(area_byte(&ms, &kernel.pool, k, v, (at + i) % 0x1000) == overwritten(
        at,
        bytes,
        v,
        (at + i) % 0x1000,
        area_byte(&ms, &kernel0.pool, k, v, (at + i) % 0x1000),
    ));
}

/// What is written to the memory of one process is not seen by another.
pub proof fn processes_are_isolated<M: PhysMemory>(
    kernel: &Kernel<M>,
    kernel0: &Kernel<M>,
    pid: usize,
    other: usize,
    at: int,
    bytes: Seq<u8>,
    k: int,
    ptr: int,
)
    requires
        kernel0.mem_wf(),
        kernel.mem_wf(),
        kernel.processes == kernel0.processes,
        kernel0.processes@.dom().contains(pid),
        kernel0.processes@.dom().contains(other),
        pid != other,
        user_written(
            &kernel0.processes@[pid].inner.memory_set,
            &kernel.pool,
            &kernel0.pool,
            at,
            bytes,
        ),
        page_of(&kernel0.processes@[other].inner.memory_set, k, page_at(ptr)),
    ensures
        process_byte(kernel, other, ptr) == process_byte(kernel0, other, ptr),
{
    let ms = kernel0.processes@[other].inner.memory_set;
    let ms1 = kernel0.processes@[pid].inner.memory_set;
    let f = ms.areas()[k].data[page_at(ptr)];
    lemma_process_byte(kernel0, other, k, ptr);
    lemma_process_byte(kernel, other, k, ptr);
    lemma_process_space(kernel0, other);
    assert(kernel0.pool.wf() && ms.owned().disjoint(ms1.owned())) by {
        reveal(memory_wf);
        assert(kernel0.spaces().dom().contains(pid));
        assert(kernel0.spaces().dom().contains(other));
    }
    lemma_user_frame(&ms, &kernel0.pool, k, ptr);
    assert(ms.owned().contains(f));
    assert(!ms1.owned().contains(f));
    assert(!areas_data(ms1.areas()).contains(f));
}

/// The bytes of the upper end of the stack of a program that was started.
proof fn lemma_stack_byte<M: PhysMemory>(
    kernel: &Kernel<M>,
    kernel0: &Kernel<M>,
    pid: usize,
    elf_data: Seq<u8>,
    slots: int,
    args: Seq<Seq<u8>>,
    i: int,
)
    requires
        kernel.mem_wf(),
        kernel.processes@.dom().contains(pid),
        holds_program(
            &kernel.processes@[pid].inner.memory_set,
            &kernel.pool,
            kernel0,
            elf_data,
            args,
        ),
        loadable(elf_data, slots),
        slots <= 512,
        args_len(args) <= USER_STACK_SIZE,
        0 <= i < args_len(args),
    ensures
        ({
            let top = image_stack_bottom(elf_data) + USER_STACK_SIZE;
            process_byte(kernel, pid, top - args_len(args) + i) == args_block(args, top)[i]
        }),
{
    let ms = kernel.processes@[pid].inner.memory_set;
    let top = image_stack_bottom(elf_data) + USER_STACK_SIZE;
    let ptr = top - args_len(args);
    let segments = image_segments(elf_data);
    let after = image_with_args(elf_data, args);
    let n = segments.len() - 1;
    let v = user_page(ptr, i);
    let j = (ptr + i) % 0x1000;
    let area = stack_segment(elf_data).area;
    lemma_stack_place(elf_data, slots);
    lemma_args_place(elf_data, slots, args, i);
    args_block_fills(args, top);
    assert(configs(ms.areas()).len() == ms.areas().len());
    assert(configs(segment_areas(segments)).len() == segments.len());
    assert(configs(ms.areas())[n] == configs(segment_areas(segments))[n]);
    assert(segments[n] == stack_segment(elf_data));
    assert(config(ms.areas()[n]).start == config(area).start);
    assert(config(ms.areas()[n]).end == config(area).end);
    assert(config(ms.areas()[n]).map_type == config(area).map_type);
    assert(page_of(&ms, n, v));
    lemma_process_byte(kernel, pid, n, ptr + i);
    assert(after[n].area == area);
    assert(filled_as(&ms, &kernel.pool, after, n, v, j));
    lemma_stack_offset(ptr + i, area.start, USER_STACK_SIZE - args_len(args) + i);
    let fill = stack_with_args(args, top);
    assert(fill[USER_STACK_SIZE - args_len(args) + i] == args_block(args, top)[i]);
}

proof fn lemma_stack_offset(ptr: int, start: int, offset: int)
    requires
        ptr % 0x1_0000_0000_0000 == start * 0x1000 + offset,
        0 <= ptr,
        0 <= offset,
    ensures
        (ptr % 0x1_0000_0000_0000 / 0x1000 - start) * 0x1000 + ptr % 0x1000 == offset,
{
}

/// A program that was started finds its arguments: at the address that entry `i`
/// of its array of pointers holds it reads argument `i` and a zero. After the entry of
/// the last argument the array holds a zero.
pub proof fn program_finds_its_arguments<M: PhysMemory>(
    kernel: &Kernel<M>,
    kernel0: &Kernel<M>,
    pid: usize,
    elf_data: Seq<u8>,
    slots: int,
    args: Seq<Seq<u8>>,
    i: int,
)
    requires
        kernel.mem_wf(),
        kernel.processes@.dom().contains(pid),
        holds_program(
            &kernel.processes@[pid].inner.memory_set,
            &kernel.pool,
            kernel0,
            elf_data,
            args,
        ),
        loadable(elf_data, slots),
        slots <= 512,
        args_len(args) <= USER_STACK_SIZE,
        0 <= i < args.len() || args.len() == 0,
    ensures
        ({
            let top = image_stack_bottom(elf_data) + USER_STACK_SIZE;
            let at = arg_at(args, top, i);
            let entry = argv_base(args, top) + 8 * i;
            let end = argv_base(args, top) + 8 * args.len();
            &&& args.len() > 0 ==> {
                &&& forall|j: int|
                    0 <= j < args[i].len() ==> process_byte(kernel, pid, at + j)
                        == #[trigger] args[i][j]
                &&& process_byte(kernel, pid, at + args[i].len()) == 0
                &&& forall|j: int|
                    0 <= j < 8 ==> process_byte(kernel, pid, entry + j) == #[trigger] word_bytes(
                        at as u64,
                    )[j]
            }
            &&& forall|j: int| 0 <= j < 8 ==> #[trigger] process_byte(kernel, pid, end + j) == 0
        }),
{
    let top = image_stack_bottom(elf_data) + USER_STACK_SIZE;
    let bottom = top - args_len(args);
    let at = arg_at(args, top, i);
    let entry = argv_base(args, top) + 8 * i;
    let block = args_block(args, top);
    let m = args[i].len() as int;
    let end = argv_base(args, top) + 8 * args.len();
    argument_array_ends(args, top);
    let z = block.subrange(end - bottom, end - bottom + 8);
    assert forall|j: int| 0 <= j < 8 implies #[trigger] process_byte(kernel, pid, end + j) == 0 by {
        lemma_stack_byte(kernel, kernel0, pid, elf_data, slots, args, end + j - bottom);
        assert(z[j] == block[end - bottom + j]);
        assert(z[j] == word_bytes(0)[j]);
        cleared_frame_bytes(j);
    }
    if args.len() > 0 {
        arguments_are_found(args, top, i);
        let s = block.subrange(at - bottom, at - bottom + m + 1);
        let w = block.subrange(entry - bottom, entry - bottom + 8);
        assert forall|j: int| 0 <= j < args[i].len() implies process_byte(kernel, pid, at + j)
            == #[trigger] args[i][j] by {
            lemma_stack_byte(kernel, kernel0, pid, elf_data, slots, args, at + j - bottom);
            assert(s[j] == block[at - bottom + j]);
        }
        lemma_stack_byte(kernel, kernel0, pid, elf_data, slots, args, at + m - bottom);
        assert(s[m] == block[at - bottom + m]);
        assert forall|j: int| 0 <= j < 8 implies process_byte(kernel, pid, entry + j)
            == #[trigger] word_bytes(at as u64)[j] by {
            lemma_stack_byte(kernel, kernel0, pid, elf_data, slots, args, entry + j - bottom);
            assert(w[j] == block[entry - bottom + j]);
        }
    }
}

/// What a root translates below an entry that another root shares is the same.
proof fn lemma_shared_entry(mem: Frames, root: u64, other: u64, v: int)
    requires
        0 <= v < VPN_LIMIT,
        mem[root][v / 0x800_0000] == mem[other][v / 0x800_0000],
    ensures
        leaf(mem, root, v) == leaf(mem, other, v),
        mapped(mem, root, v) == mapped(mem, other, v),
        leaf(mem, root, v) is Some ==> pte_valid(mem[root][v / 0x800_0000]),
{
    reveal_with_fuel(table_at, 4);
    let p3 = v / 512;
    let p2 = p3 / 512;
    let p1 = p2 / 512;
    assert(p1 == v / 0x800_0000);
    assert(table_at(mem, root, 1, p1) == table_at(mem, other, 1, p1));
    assert(table_at(mem, root, 2, p2) == table_at(mem, other, 2, p2));
    assert(table_at(mem, root, 3, p3) == table_at(mem, other, 3, p3));
}

/// What the kernel has mapped from the physmap on is mapped in the same way in the
/// address space of every process, with the same rights, so a trap finds the kernel
/// whichever page table is in use.
pub proof fn kernel_stays_reachable<M: PhysMemory>(kernel: &Kernel<M>, pid: usize, v: int)
    requires
        kernel.wf(),
        kernel.processes@.dom().contains(pid),
        physmap_slot(kernel.phys_offset) * 0x800_0000 <= v < VPN_LIMIT,
        mapped(kernel.pool.frames(), kernel.kernel_space.root(), v) is Some,
    ensures
        mapped(kernel.pool.frames(), kernel.processes@[pid].inner.memory_set.root(), v) == mapped(
            kernel.pool.frames(),
            kernel.kernel_space.root(),
            v,
        ),
        page_rights(kernel.pool.frames(), kernel.processes@[pid].inner.memory_set.root(), v)
            == page_rights(kernel.pool.frames(), kernel.kernel_space.root(), v),
{
    let mem = kernel.pool.frames();
    let ms = kernel.processes@[pid].inner.memory_set;
    let root = kernel.kernel_space.root();
    assert(shares_kernel(&kernel.pool, &kernel.kernel_space, &ms)) by {
        reveal(memory_wf);
        assert(kernel.spaces().dom().contains(pid));
    }
    assert(ms.table().slots() == physmap_slot(kernel.phys_offset)) by {
        reveal(references_wf);
        assert(user_space(&ms, kernel.phys_offset));
    }
    lemma_shared_entry(mem, root, root, v);
    assert(mem[ms.root()][v / 0x800_0000] == mem[root][v / 0x800_0000]);
    lemma_shared_entry(mem, ms.root(), root, v);
    shared_entry_shares_rights(mem, ms.root(), root, v);
}

/// A program can use every page of its address space exactly as the permissions of its
/// areas say, and so can the kernel in its own.
pub proof fn pages_are_used_as_permitted<M: PhysMemory>(kernel: &Kernel<M>, pid: usize)
    requires
        kernel.wf(),
        kernel.processes@.dom().contains(pid),
    ensures
        grants(&kernel.processes@[pid].inner.memory_set, &kernel.pool),
        grants(&kernel.kernel_space, &kernel.pool),
{
    reveal(memory_wf);
    assert(kernel.spaces().dom().contains(pid));
    areas_grant_their_permissions(&kernel.processes@[pid].inner.memory_set, &kernel.pool);
    areas_grant_their_permissions(&kernel.kernel_space, &kernel.pool);
}

/// The tables through which a process sees a page of the kernel are neither its own nor
/// free, so mapping and unmapping pages of the process leaves the page as it is.
pub proof fn kernel_pages_are_shared<M: PhysMemory>(kernel: &Kernel<M>, pid: usize, v: int)
    requires
        kernel.wf(),
        kernel.processes@.dom().contains(pid),
        physmap_slot(kernel.phys_offset) * 0x800_0000 <= v < VPN_LIMIT,
        mapped(kernel.pool.frames(), kernel.kernel_space.root(), v) is Some,
    ensures
        kernel.processes@[pid].inner.memory_set.table().shares(&kernel.pool, v),
{
    let mem = kernel.pool.frames();
    let ms = kernel.processes@[pid].inner.memory_set;
    let ks = kernel.kernel_space;
    let root = ks.root();
    assert(shares_kernel(&kernel.pool, &ks, &ms) && ks.wf(&kernel.pool)
        && ks.table().slots() == 512 && ms.owned().disjoint(ks.owned())) by {
        reveal(memory_wf);
        assert(kernel.spaces().dom().contains(pid));
    }
    assert(ms.table().slots() == physmap_slot(kernel.phys_offset)) by {
        reveal(references_wf);
        assert(user_space(&ms, kernel.phys_offset));
    }
    lemma_shared_entry(mem, root, root, v);
    assert(mem[ms.root()][v / 0x800_0000] == mem[root][v / 0x800_0000]);
    assert forall|k: int| 1 <= k <= 3 implies ((#[trigger] table_at(
        mem,
        ms.root(),
        k,
        prefix(v, k),
    )) matches Some(t) ==> !ms.table().table_frames().union(kernel.pool.free()).contains(t)) by {
        reveal_with_fuel(table_at, 4);
        lemma_prefix(512, v, 1);
        lemma_prefix(512, v, 2);
        lemma_prefix(512, v, 3);
        assert(table_at(mem, ms.root(), 1, prefix(v, 1)) == table_at(mem, root, 1, prefix(v, 1)));
        assert(table_at(mem, ms.root(), 2, prefix(v, 2)) == table_at(mem, root, 2, prefix(v, 2)));
        assert(table_at(mem, ms.root(), 3, prefix(v, 3)) == table_at(mem, root, 3, prefix(v, 3)));
        assert(own(512, k, prefix(v, k)));
        if let Some(t) = table_at(mem, root, k, prefix(v, k)) {
            assert(ks.table().table_frames().contains(t));
            assert(ks.owned().contains(t));
            assert(kernel.pool.allocated(t));
            assert(!ms.owned().contains(t));
        }
    }
}

/// The kernel stack of every thread is mapped in the address space of every process:
/// the kernel can write it, and a user program cannot use it.
pub proof fn stacks_stay_reachable<M: PhysMemory>(
    kernel: &Kernel<M>,
    pid: usize,
    t: usize,
    v: int,
)
    requires
        kernel.wf(),
        kernel.processes@.dom().contains(pid),
        kernel.tasks@.dom().contains(t),
        stack_page(t) <= v < stack_page(t) + 2,
        physmap_slot(kernel.phys_offset) < 512,
    ensures
        mapped(kernel.pool.frames(), kernel.kernel_space.root(), v) is Some,
        mapped(kernel.pool.frames(), kernel.processes@[pid].inner.memory_set.root(), v) == mapped(
            kernel.pool.frames(),
            kernel.kernel_space.root(),
            v,
        ),
        page_rights(kernel.pool.frames(), kernel.processes@[pid].inner.memory_set.root(), v) == Some(
            Rights { user: false, write: true, execute: false },
        ),
{
    let ks = kernel.kernel_space;
    let i = area_index(ks.areas(), stack_page(t), 0);
    assert(kernel.kstack_allocator@.live(t)) by {
        reveal(references_wf);
    }
    assert(ks.wf(&kernel.pool) && 0 <= i < ks.areas().len() && config(ks.areas()[i]) == stack_area(
        t,
    ) && kernel_stack_id_ok(t as int)) by {
        reveal(memory_wf);
    }
    lemma_stack_page(t);
    assert(config(ks.areas()[i]).start == stack_page(t) && config(ks.areas()[i]).end == stack_page(t)
        + 2);
    assert(ks.areas()[i].contains(v));
    assert(ks.table().leaf(&kernel.pool, v) == Some(ks.areas()[i].entry(v)));
    let area = ks.areas()[i];
    lemma_perm_flags(area.perm);
    pte_word_valid(area.frame_of(v), perm_flags(area.perm));
    kernel_stays_reachable(kernel, pid, v);
    pages_are_used_as_permitted(kernel, pid);
    assert(area.perm == MAP_R | MAP_W);
    lemma_permissions();
}

} // verus!
