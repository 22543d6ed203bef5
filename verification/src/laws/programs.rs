//! What a program finds when it starts.
use vstd::prelude::*;
use super::machine::{byte_at, frames_are_bytes, words_are_little_endian};
use super::spaces::{areas_are_reached, lemma_permissions, nothing_else_is_reached, reached};
use crate::config::USER_STACK_SIZE;
use crate::mm::elf::{
    elf_entry, elf_ph_count, image_end, image_segments, image_stack_bottom, load_segment,
    load_segments, loadable, segment_areas, segment_at, segment_perm, stack_segment, Segment,
    SegmentHeader,
};
use crate::mm::frame_allocator::FramePool;
use crate::mm::map_area::initial_byte;
use crate::mm::memory_set::{
    config, configs, filled_as, holds_segments, lemma_image_framed, lemma_owned_allocated,
    MemorySet,
};
use crate::mm::phys::{word_byte, PhysMemory};
use crate::mm::rights::perm_rights;
use crate::task::args::{
    arg_at, args_block, args_block_fills, args_len, args_sp, arguments_are_found, argv_base,
    strings_len, word_bytes,
};
use crate::task::exec::{image_with_args, lemma_stack_place, program_started, stack_with_args};
use crate::task::kernel::{memory_wf, Kernel};

verus! {

/// The byte that a program reads at pointer value `ptr`.
pub open spec fn byte_read<M: PhysMemory>(ms: &MemorySet, pool: &FramePool<M>, ptr: int) -> int {
    byte_at(pool.frames(), reached(ms, pool, ptr)->Some_0.pa)
}

/// The first address of the first page of a segment.
pub open spec fn segment_start(h: SegmentHeader) -> int {
    h.virtual_addr as int / 0x1000 * 0x1000
}

/// The address after the last page of a segment.
pub open spec fn segment_end(h: SegmentHeader) -> int {
    (h.virtual_addr + h.mem_size + 0xfff) / 0x1000 * 0x1000
}

/// Whether `h` is what program header `i` of the file says, and the segment is to be loaded
/// into the lower half of the address space.
pub open spec fn loads(b: Seq<u8>, i: int, h: SegmentHeader) -> bool {
    &&& 0 <= i < elf_ph_count(b)
    &&& segment_at(b, i) == Some(h)
    &&& h.load
    &&& h.virtual_addr + h.mem_size <= 0x7fff_ffff_f000
}

/// What the flags of a program header allow: bit 1 of the flags lets the program write
/// to the segment, and bit 0 execute it.
proof fn lemma_segment_perm(flags: u32)
    ensures
        perm_rights(segment_perm(flags)).user,
        perm_rights(segment_perm(flags)).write == ((flags as int / 2) % 2 == 1),
        perm_rights(segment_perm(flags)).execute == (flags % 2 == 1),
{
    assert({
        let p = 16u8 | (if flags & 4 == 4 {
            2u8
        } else {
            0
        }) | (if flags & 2 == 2 {
            4u8
        } else {
            0
        }) | (if flags & 1 == 1 {
            8u8
        } else {
            0
        });
        &&& p & 16 == 16
        &&& (p & 4 == 4) == ((flags / 2) % 2 == 1)
        &&& (p & 8 == 8) == (flags % 2 == 1)
    }) by (bit_vector);
}

/// The place of a loadable segment among the pieces of the image.
proof fn lemma_position(b: Seq<u8>, n: int, i: int) -> (k: int)
    requires
        0 <= i < n,
        segment_at(b, i) matches Some(h) && h.load,
    ensures
        0 <= k < load_segments(b, n).len(),
        load_segments(b, n)[k] == load_segment(b, segment_at(b, i)->Some_0),
    decreases n,
{
    if i == n - 1 {
        load_segments(b, n).len() - 1
    } else {
        lemma_position(b, n - 1, i)
    }
}

/// Every piece of the image but the stack is a loadable segment.
proof fn lemma_origin(b: Seq<u8>, n: int, k: int) -> (i: int)
    requires
        0 <= k < load_segments(b, n).len(),
    ensures
        0 <= i < n,
        segment_at(b, i) matches Some(h) && h.load,
        load_segments(b, n)[k] == load_segment(b, segment_at(b, i)->Some_0),
    decreases n,
{
    if n <= 0 {
        0
    } else if segment_at(b, n - 1) is Some && segment_at(b, n - 1)->Some_0.load && k
        == load_segments(b, n).len() - 1 {
        n - 1
    } else {
        lemma_origin(b, n - 1, k)
    }
}

/// A page of a piece of the image, as the processor sees it.
proof fn lemma_piece<M: PhysMemory>(
    ms: &MemorySet,
    pool: &FramePool<M>,
    b: Seq<u8>,
    pieces: Seq<Segment>,
    k: int,
    va: int,
)
    requires
        pool.wf(),
        ms.wf(pool),
        configs(ms.areas()) == configs(segment_areas(image_segments(b))),
        holds_segments(ms, pool, pieces),
        0 <= k < pieces.len() == image_segments(b).len(),
        pieces[k].area == image_segments(b)[k].area,
        pieces[k].area.contains(va / 0x1000),
        0 <= va < 0x8000_0000_0000,
    ensures
        ({
            let rights = perm_rights(pieces[k].area.perm);
            &&& reached(ms, pool, va) matches Some(a) && a.user == rights.user && a.write
                == rights.write && a.execute == rights.execute
            &&& byte_read(ms, pool, va) == initial_byte(
                pieces[k].fill,
                va - pieces[k].area.start * 0x1000,
            )
        }),
{
    let area = ms.areas()[k];
    let want = image_segments(b)[k].area;
    assert(configs(ms.areas()).len() == ms.areas().len());
    assert(configs(segment_areas(image_segments(b))).len() == image_segments(b).len());
    assert(configs(ms.areas())[k] == configs(segment_areas(image_segments(b)))[k]);
    assert(config(area).start == config(want).start && config(area).end == config(want).end
        && config(area).perm == config(want).perm && config(area).map_type == config(want).map_type);
    lemma_image_framed(b);
    assert(va % 0x1_0000_0000_0000 == va);
    areas_are_reached(ms, pool, k, va);
    let v = va / 0x1000;
    assert(filled_as(ms, pool, pieces, k, v, va % 0x1000));
    frames_are_bytes(pool.frames(), area.data[v], va % 0x1000);
    assert((v - want.start) * 0x1000 + va % 0x1000 == va - want.start * 0x1000);
}

proof fn lemma_segment_numbers(b: Seq<u8>, h: SegmentHeader, va: int)
    requires
        h.virtual_addr + h.mem_size <= 0x7fff_ffff_f000,
        segment_start(h) <= va < segment_end(h),
    ensures
        load_segment(b, h).area.contains(va / 0x1000),
        load_segment(b, h).area.start * 0x1000 == segment_start(h),
        0 <= va < 0x8000_0000_0000,
{
    let area = load_segment(b, h).area;
    assert(h.virtual_addr as int % 0x1_0000_0000_0000 == h.virtual_addr);
    assert((h.virtual_addr + h.mem_size) % 0x1_0000_0000_0000 == h.virtual_addr + h.mem_size);
    assert(area.start == h.virtual_addr as int / 0x1000);
    assert(area.end == (h.virtual_addr + h.mem_size + 0xfff) / 0x1000);
}

/// A program finds every segment of its file: it can use the pages of the segment, write
/// to them exactly if bit 1 of the flags in the program header is set, and execute them
/// exactly if bit 0 is set. From the start of the first page on they hold the bytes of
/// the file, and then zeros.
pub proof fn loaded_segments_are_found<M: PhysMemory>(
    ms: &MemorySet,
    pool: &FramePool<M>,
    b: Seq<u8>,
    i: int,
    h: SegmentHeader,
    ptr: int,
)
    requires
        pool.wf(),
        ms.wf(pool),
        configs(ms.areas()) == configs(segment_areas(image_segments(b))),
        holds_segments(ms, pool, image_segments(b)),
        loads(b, i, h),
        segment_start(h) <= ptr < segment_end(h),
    ensures
        reached(ms, pool, ptr) matches Some(a) && a.user && a.write == ((h.flags as int / 2) % 2
            == 1) && a.execute == (h.flags % 2 == 1),
        h.offset + h.file_size <= b.len() ==> byte_read(ms, pool, ptr) == (if ptr - segment_start(h)
            < h.file_size {
            b[h.offset + (ptr - segment_start(h))] as int
        } else {
            0
        }),
{
    let k = lemma_position(b, elf_ph_count(b), i);
    assert(image_segments(b)[k] == load_segments(b, elf_ph_count(b))[k]);
    lemma_segment_numbers(b, h, ptr);
    lemma_piece(ms, pool, b, image_segments(b), k, ptr);
    lemma_segment_perm(h.flags);
}

/// The user stack: two pages that can be written and not executed.
proof fn lemma_stack<M: PhysMemory>(
    ms: &MemorySet,
    pool: &FramePool<M>,
    b: Seq<u8>,
    slots: int,
    pieces: Seq<Segment>,
    ptr: int,
)
    requires
        pool.wf(),
        ms.wf(pool),
        configs(ms.areas()) == configs(segment_areas(image_segments(b))),
        holds_segments(ms, pool, pieces),
        pieces.len() == image_segments(b).len(),
        pieces.last().area == stack_segment(b).area,
        loadable(b, slots),
        slots <= 512,
        0 <= image_stack_bottom(b) <= ptr < image_stack_bottom(b) + 0x2000 <= 0x8000_0000_0000,
    ensures
        reached(ms, pool, ptr) matches Some(a) && a.user && a.write && !a.execute,
        byte_read(ms, pool, ptr) == initial_byte(pieces.last().fill, ptr - image_stack_bottom(b)),
{
    lemma_stack_place(b, slots);
    lemma_permissions();
    let area = stack_segment(b).area;
    let bottom = image_stack_bottom(b);
    assert(bottom % 0x1_0000_0000_0000 == bottom);
    assert(area.start * 0x1000 == bottom);
    assert(area.contains(ptr / 0x1000));
    lemma_piece(ms, pool, b, pieces, pieces.len() - 1, ptr);
}

/// The place of the user stack: it begins one page above the last page of the last segment
/// of the file.
proof fn lemma_stack_bottom(b: Seq<u8>, i: int, h: SegmentHeader)
    requires
        loads(b, i, h),
        segment_end(h) + 0x3000 <= 0x8000_0000_0000,
        forall|j: int|
            i < j < elf_ph_count(b) ==> ((#[trigger] segment_at(b, j)) matches Some(g) ==> !g.load),
    ensures
        image_stack_bottom(b) == segment_end(h) + 0x1000,
{
    lemma_last(b, elf_ph_count(b), i);
    assert((h.virtual_addr + h.mem_size) % 0x1_0000_0000_0000 == h.virtual_addr + h.mem_size);
    assert(image_end(b) == (h.virtual_addr + h.mem_size + 0xfff) / 0x1000);
}

proof fn lemma_last(b: Seq<u8>, n: int, i: int)
    requires
        0 <= i < n,
        segment_at(b, i) matches Some(h) && h.load,
        forall|j: int| i < j < n ==> ((#[trigger] segment_at(b, j)) matches Some(g) ==> !g.load),
    ensures
        load_segments(b, n).len() > 0,
        load_segments(b, n).last() == load_segment(b, segment_at(b, i)->Some_0),
    decreases n,
{
    if i < n - 1 {
        lemma_last(b, n - 1, i);
        assert(segment_at(b, n - 1) matches Some(g) ==> !g.load);
    }
}

/// Above its last segment, with a page between that it cannot use, a program finds a
/// stack of two pages of zeros, which it can write and not execute. `top` is the address
/// past the end of the stack, as it is handed out with the address space, and `h` the
/// last program header that is loaded.
pub proof fn user_stack_is_found<M: PhysMemory>(
    ms: &MemorySet,
    pool: &FramePool<M>,
    b: Seq<u8>,
    slots: int,
    i: int,
    h: SegmentHeader,
    top: int,
    ptr: int,
)
    requires
        pool.wf(),
        ms.wf(pool),
        ms.exact(pool),
        ms.table().slots() == slots,
        slots <= 512,
        configs(ms.areas()) == configs(segment_areas(image_segments(b))),
        holds_segments(ms, pool, image_segments(b)),
        loadable(b, slots),
        top == image_stack_bottom(b) + USER_STACK_SIZE,
        loads(b, i, h),
        segment_end(h) + 0x3000 <= 0x8000_0000_0000,
        forall|j: int|
            i < j < elf_ph_count(b) ==> ((#[trigger] segment_at(b, j)) matches Some(g) ==> !g.load),
    ensures
        top == segment_end(h) + 0x3000,
        top - 0x2000 <= ptr < top ==> {
            &&& reached(ms, pool, ptr) matches Some(a) && a.user && a.write && !a.execute
            &&& byte_read(ms, pool, ptr) == 0
        },
        top - 0x3000 <= ptr < top - 0x2000 && (forall|j: int, g: SegmentHeader| #[trigger]
            loads(b, j, g) ==> segment_end(g) <= top - 0x3000) && (forall|j: int|
            0 <= j < elf_ph_count(b) && (#[trigger] segment_at(b, j)) is Some && segment_at(
                b,
                j,
            )->Some_0.load ==> loads(b, j, segment_at(b, j)->Some_0)) ==> reached(ms, pool, ptr) is None,
{
    lemma_stack_bottom(b, i, h);
    lemma_stack_place(b, slots);
    if top - 0x2000 <= ptr < top {
        lemma_stack(ms, pool, b, slots, image_segments(b), ptr);
    }
    let below = (forall|j: int, g: SegmentHeader| #[trigger]
        loads(b, j, g) ==> segment_end(g) <= top - 0x3000) && (forall|j: int|
        0 <= j < elf_ph_count(b) && (#[trigger] segment_at(b, j)) is Some && segment_at(
            b,
            j,
        )->Some_0.load ==> loads(b, j, segment_at(b, j)->Some_0));
    if top - 0x3000 <= ptr < top - 0x2000 && below {
        lemma_guard(ms, pool, b, slots, top, ptr);
    }
}

/// No page is mapped between the last segment and the stack.
proof fn lemma_guard<M: PhysMemory>(
    ms: &MemorySet,
    pool: &FramePool<M>,
    b: Seq<u8>,
    slots: int,
    top: int,
    ptr: int,
)
    requires
        ms.wf(pool),
        ms.exact(pool),
        ms.table().slots() == slots,
        slots <= 512,
        configs(ms.areas()) == configs(segment_areas(image_segments(b))),
        loadable(b, slots),
        top == image_stack_bottom(b) + USER_STACK_SIZE,
        top <= 0x8000_0000_0000,
        0 <= top - 0x3000 <= ptr < top - 0x2000,
        forall|j: int, g: SegmentHeader| #[trigger]
            loads(b, j, g) ==> segment_end(g) <= top - 0x3000,
        forall|j: int|
            0 <= j < elf_ph_count(b) && (#[trigger] segment_at(b, j)) is Some && segment_at(
                b,
                j,
            )->Some_0.load ==> loads(b, j, segment_at(b, j)->Some_0),
    ensures
        reached(ms, pool, ptr) is None,
{
    lemma_stack_place(b, slots);
    let n = elf_ph_count(b);
    let bottom = image_stack_bottom(b);
    let pieces = image_segments(b);
    assert(bottom % 0x1_0000_0000_0000 == bottom);
    assert(ptr % 0x1_0000_0000_0000 == ptr);
    assert(configs(ms.areas()).len() == ms.areas().len());
    assert(configs(segment_areas(pieces)).len() == pieces.len());
    assert forall|k: int| 0 <= k < ms.areas().len() implies !(#[trigger] ms.areas()[k].contains(
        ptr / 0x1000,
    )) by {
        assert(configs(ms.areas())[k] == configs(segment_areas(pieces))[k]);
        assert(config(ms.areas()[k]).start == config(pieces[k].area).start);
        assert(config(ms.areas()[k]).end == config(pieces[k].area).end);
        if k < load_segments(b, n).len() {
            let j = lemma_origin(b, n, k);
            let g = segment_at(b, j)->Some_0;
            assert(loads(b, j, g));
            assert((g.virtual_addr + g.mem_size) % 0x1_0000_0000_0000 == g.virtual_addr
                + g.mem_size);
            assert(pieces[k].area.end * 0x1000 == segment_end(g));
        } else {
            assert(pieces[k] == stack_segment(b));
        }
    }
    assert(pieces[pieces.len() - 1].area.end <= slots * 0x800_0000);
    assert(ptr < stack_segment(b).area.start * 0x1000);
    nothing_else_is_reached(ms, pool, ptr);
}

/// A program that a process goes on with finds the segments of its file, as one that is
/// loaded afresh does.
pub proof fn started_program_finds_its_segments<M: PhysMemory>(
    kernel: &Kernel<M>,
    kernel0: &Kernel<M>,
    pid: usize,
    b: Seq<u8>,
    args: Seq<Seq<u8>>,
    i: int,
    h: SegmentHeader,
    ptr: int,
)
    requires
        kernel.wf(),
        kernel.processes@.dom().contains(pid),
        program_started(kernel, kernel0, pid, b, args),
        loads(b, i, h),
        h.offset + h.file_size <= b.len(),
        segment_start(h) <= ptr < segment_end(h),
    ensures
        ({
            let ms = kernel.processes@[pid].inner.memory_set;
            &&& reached(&ms, &kernel.pool, ptr) matches Some(a) && a.user && a.write == ((
            h.flags as int / 2) % 2 == 1) && a.execute == (h.flags % 2 == 1)
            &&& byte_read(&ms, &kernel.pool, ptr) == (if ptr - segment_start(h) < h.file_size {
                b[h.offset + (ptr - segment_start(h))] as int
            } else {
                0
            })
        }),
{
    let ms = kernel.processes@[pid].inner.memory_set;
    reveal(memory_wf);
    assert(kernel.spaces().dom().contains(pid));
    let k = lemma_position(b, elf_ph_count(b), i);
    let pieces = image_with_args(b, args);
    assert(image_segments(b)[k] == load_segments(b, elf_ph_count(b))[k]);
    assert(pieces[k] == load_segments(b, elf_ph_count(b))[k]);
    lemma_segment_numbers(b, h, ptr);
    lemma_piece(&ms, &kernel.pool, b, pieces, k, ptr);
    lemma_segment_perm(h.flags);
}

/// A program that a process goes on with starts at the entry point of its file, in user
/// mode, with the number of its arguments and an aligned stack pointer inside its stack.
pub proof fn started_program_runs_from_its_entry<M: PhysMemory>(
    kernel: &Kernel<M>,
    kernel0: &Kernel<M>,
    pid: usize,
    t: usize,
    b: Seq<u8>,
    args: Seq<Seq<u8>>,
)
    requires
        kernel0.processes@[pid].inner.tasks@.len() == 1,
        kernel0.processes@[pid].inner.tasks@[0] == Some(t),
        program_started(kernel, kernel0, pid, b, args),
        0 <= elf_entry(b) <= u64::MAX,
        0 <= image_stack_bottom(b) <= u64::MAX,
        args.len() <= u64::MAX,
        0 <= args_sp(args, image_stack_bottom(b) + USER_STACK_SIZE) <= u64::MAX,
    ensures
        ({
            let cx = kernel.tasks@[t].inner.trap_cx;
            &&& kernel.tasks@[t].inner.res matches Some(res) && res.ustack_base
                == image_stack_bottom(b) && res.tid == kernel0.tasks@[t].inner.res->Some_0.tid
            &&& cx.rip == elf_entry(b)
            &&& cx.rdi == args.len()
            &&& cx.cs == 0x1B && cx.ss == 0x23 && cx.rflags == 2
            &&& cx.rsp % 16 == 0
            &&& cx.rsp <= image_stack_bottom(b) + USER_STACK_SIZE - 8 * (args.len() + 1)
            &&& cx.rax == 0 && cx.rbx == 0 && cx.rcx == 0 && cx.rdx == 0 && cx.rbp == 0
            &&& cx.r8 == 0 && cx.r9 == 0 && cx.r10 == 0 && cx.r11 == 0
            &&& cx.r12 == 0 && cx.r13 == 0 && cx.r14 == 0 && cx.r15 == 0
        }),
        forall|u: usize| u != t ==> #[trigger] kernel.tasks@[u] == kernel0.tasks@[u],
        forall|q: usize| q != pid ==> #[trigger] kernel.processes@[q] == kernel0.processes@[q],
        kernel.processes@[pid].inner.fd_table == kernel0.processes@[pid].inner.fd_table,
        kernel.processes@[pid].inner.parent == kernel0.processes@[pid].inner.parent,
        kernel.processes@[pid].inner.children == kernel0.processes@[pid].inner.children,
        kernel.processes@[pid].inner.signals == kernel0.processes@[pid].inner.signals,
        kernel.processes@[pid].pid == kernel0.processes@[pid].pid,
{
    args_block_fills(args, 0);
    lemma_strings_nonneg(args, args.len() as int);
}

/// The word that a program reads at pointer value `ptr`.
#[verifier::opaque]
pub open spec fn word_read<M: PhysMemory>(ms: &MemorySet, pool: &FramePool<M>, ptr: int) -> int {
    byte_read(ms, pool, ptr) + 0x100 * byte_read(ms, pool, ptr + 1) + 0x1_0000 * byte_read(
        ms,
        pool,
        ptr + 2,
    ) + 0x100_0000 * byte_read(ms, pool, ptr + 3) + 0x1_0000_0000 * byte_read(ms, pool, ptr + 4)
        + 0x100_0000_0000 * byte_read(ms, pool, ptr + 5) + 0x1_0000_0000_0000 * byte_read(
        ms,
        pool,
        ptr + 6,
    ) + 0x100_0000_0000_0000 * byte_read(ms, pool, ptr + 7)
}

/// The digits of a word make up the word.
pub proof fn lemma_word_read<M: PhysMemory>(ms: &MemorySet, pool: &FramePool<M>, ptr: int, w: u64)
    requires
        forall|k: int|
            0 <= k < 8 ==> #[trigger] byte_read(ms, pool, ptr + k) == word_byte(w, k as u64),
    ensures
        word_read(ms, pool, ptr) == w,
{
    reveal(word_read);
    words_are_little_endian(w);
    assert(byte_read(ms, pool, ptr + 0) == word_byte(w, 0));
    assert(byte_read(ms, pool, ptr + 1) == word_byte(w, 1));
    assert(byte_read(ms, pool, ptr + 2) == word_byte(w, 2));
    assert(byte_read(ms, pool, ptr + 3) == word_byte(w, 3));
    assert(byte_read(ms, pool, ptr + 4) == word_byte(w, 4));
    assert(byte_read(ms, pool, ptr + 5) == word_byte(w, 5));
    assert(byte_read(ms, pool, ptr + 6) == word_byte(w, 6));
    assert(byte_read(ms, pool, ptr + 7) == word_byte(w, 7));
    lemma_digits(w as int);
}

proof fn lemma_digits(w: int)
    requires
        0 <= w < 0x1_0000_0000_0000_0000,
    ensures
        w % 256 + 0x100 * ((w / 0x100) % 256) + 0x1_0000 * ((w / 0x1_0000) % 256) + 0x100_0000 * ((w
            / 0x100_0000) % 256) + 0x1_0000_0000 * ((w / 0x1_0000_0000) % 256) + 0x100_0000_0000
            * ((w / 0x100_0000_0000) % 256) + 0x1_0000_0000_0000 * ((w / 0x1_0000_0000_0000) % 256)
            + 0x100_0000_0000_0000 * ((w / 0x100_0000_0000_0000) % 256) == w,
{
    let q1 = w / 0x100;
    let q2 = q1 / 0x100;
    let q3 = q2 / 0x100;
    let q4 = q3 / 0x100;
    let q5 = q4 / 0x100;
    let q6 = q5 / 0x100;
    let q7 = q6 / 0x100;
    assert(q2 == w / 0x1_0000);
    assert(q3 == w / 0x100_0000);
    assert(q4 == w / 0x1_0000_0000);
    assert(q5 == w / 0x100_0000_0000);
    assert(q6 == w / 0x1_0000_0000_0000);
    assert(q7 == w / 0x100_0000_0000_0000);
    lemma_digits_sum(w, q1, q2, q3, q4, q5, q6, q7);
}

proof fn lemma_digits_sum(
    w: int,
    q1: int,
    q2: int,
    q3: int,
    q4: int,
    q5: int,
    q6: int,
    q7: int,
)
    requires
        0 <= w < 0x1_0000_0000_0000_0000,
        q1 == w / 0x100,
        q2 == q1 / 0x100,
        q3 == q2 / 0x100,
        q4 == q3 / 0x100,
        q5 == q4 / 0x100,
        q6 == q5 / 0x100,
        q7 == q6 / 0x100,
    ensures
        w % 256 + 0x100 * (q1 % 256) + 0x1_0000 * (q2 % 256) + 0x100_0000 * (q3 % 256)
            + 0x1_0000_0000 * (q4 % 256) + 0x100_0000_0000 * (q5 % 256) + 0x1_0000_0000_0000 * (q6
            % 256) + 0x100_0000_0000_0000 * (q7 % 256) == w,
{
    assert(w == w % 256 + 0x100 * q1);
    assert(q1 == q1 % 256 + 0x100 * q2);
    assert(q2 == q2 % 256 + 0x100 * q3);
    assert(q3 == q3 % 256 + 0x100 * q4);
    assert(q4 == q4 % 256 + 0x100 * q5);
    assert(q5 == q5 % 256 + 0x100 * q6);
    assert(q6 == q6 % 256 + 0x100 * q7);
    assert(q7 < 256);
}

/// The bytes at the upper end of the stack of a program with arguments.
proof fn lemma_args_read<M: PhysMemory>(
    kernel: &Kernel<M>,
    kernel0: &Kernel<M>,
    pid: usize,
    b: Seq<u8>,
    slots: int,
    args: Seq<Seq<u8>>,
    k: int,
)
    requires
        kernel.wf(),
        kernel.processes@.dom().contains(pid),
        program_started(kernel, kernel0, pid, b, args),
        loadable(b, slots),
        slots <= 512,
        args_len(args) <= 0x2000,
        image_stack_bottom(b) + 0x2000 <= 0x8000_0000_0000,
        0 <= k < args_len(args),
    ensures
        ({
            let top = image_stack_bottom(b) + 0x2000;
            byte_read(
                &kernel.processes@[pid].inner.memory_set,
                &kernel.pool,
                top - args_len(args) + k,
            ) == args_block(args, top)[k]
        }),
{
    let ms = kernel.processes@[pid].inner.memory_set;
    let bottom = image_stack_bottom(b);
    let top = bottom + 0x2000;
    let pieces = image_with_args(b, args);
    assert(ms.wf(&kernel.pool) && kernel.pool.wf()) by {
        reveal(memory_wf);
        assert(kernel.spaces().dom().contains(pid));
    }
    args_block_fills(args, top);
    lemma_stack_place(b, slots);
    assert(pieces.len() == image_segments(b).len());
    lemma_stack(&ms, &kernel.pool, b, slots, pieces, top - args_len(args) + k);
    let fill = stack_with_args(args, top);
    assert(pieces.last().fill == Some(fill));
    assert(fill[0x2000 - args_len(args) + k] == args_block(args, top)[k]);
}

/// A program that a process goes on with finds its arguments: the second argument register
/// leads to an array with as many pointers as the first one says, followed by a zero.
/// Pointer `i` leads to the bytes of argument `i`, followed by a zero. All of this lies
/// above the stack pointer.
pub proof fn started_program_finds_its_arguments<M: PhysMemory>(
    kernel: &Kernel<M>,
    kernel0: &Kernel<M>,
    pid: usize,
    t: usize,
    b: Seq<u8>,
    slots: int,
    args: Seq<Seq<u8>>,
    i: int,
)
    requires
        kernel.wf(),
        kernel.processes@.dom().contains(pid),
        kernel0.processes@[pid].inner.tasks@.len() == 1,
        kernel0.processes@[pid].inner.tasks@[0] == Some(t),
        program_started(kernel, kernel0, pid, b, args),
        loadable(b, slots),
        slots <= 512,
        args_len(args) <= 0x2000,
        image_stack_bottom(b) + 0x2000 <= 0x8000_0000_0000,
        0 <= i < args.len(),
    ensures
        ({
            let ms = kernel.processes@[pid].inner.memory_set;
            let cx = kernel.tasks@[t].inner.trap_cx;
            let at = word_read(&ms, &kernel.pool, cx.rsi + 8 * i);
            &&& cx.rdi == args.len()
            &&& word_read(&ms, &kernel.pool, cx.rsi + 8 * args.len()) == 0
            &&& cx.rsp <= at
            &&& at + args[i].len() < cx.rsi
            &&& forall|j: int|
                0 <= j < args[i].len() ==> byte_read(&ms, &kernel.pool, at + j)
                    == #[trigger] args[i][j]
            &&& byte_read(&ms, &kernel.pool, at + args[i].len()) == 0
        }),
{
    let top = image_stack_bottom(b) + 0x2000;
    lemma_arg_words(kernel, kernel0, pid, b, slots, args, i);
    lemma_arg_text(kernel, kernel0, pid, b, slots, args, i);
    lemma_arg_place(b, slots, args, i);
    assert(kernel.tasks@[t].inner.trap_cx.rsi == argv_base(args, top));
    assert(kernel.tasks@[t].inner.trap_cx.rsp == args_sp(args, top));
}

/// Where an argument lies.
proof fn lemma_arg_place(b: Seq<u8>, slots: int, args: Seq<Seq<u8>>, i: int)
    requires
        loadable(b, slots),
        slots <= 512,
        args_len(args) <= 0x2000,
        image_stack_bottom(b) + 0x2000 <= 0x8000_0000_0000,
        0 <= i < args.len(),
    ensures
        ({
            let top = image_stack_bottom(b) + 0x2000;
            let at = arg_at(args, top, i);
            &&& 0 <= args_sp(args, top) <= top - args_len(args) <= at
            &&& at + args[i].len() < argv_base(args, top)
            &&& argv_base(args, top) + 8 * (args.len() + 1) == top
            &&& 0 <= image_stack_bottom(b)
        }),
{
    let top = image_stack_bottom(b) + 0x2000;
    lemma_stack_place(b, slots);
    args_block_fills(args, top);
    lemma_strings_nonneg(args, args.len() as int);
    arguments_are_found(args, top, i);
}

proof fn lemma_arg_words<M: PhysMemory>(
    kernel: &Kernel<M>,
    kernel0: &Kernel<M>,
    pid: usize,
    b: Seq<u8>,
    slots: int,
    args: Seq<Seq<u8>>,
    i: int,
)
    requires
        kernel.wf(),
        kernel.processes@.dom().contains(pid),
        program_started(kernel, kernel0, pid, b, args),
        loadable(b, slots),
        slots <= 512,
        args_len(args) <= 0x2000,
        image_stack_bottom(b) + 0x2000 <= 0x8000_0000_0000,
        0 <= i < args.len(),
    ensures
        ({
            let ms = kernel.processes@[pid].inner.memory_set;
            let top = image_stack_bottom(b) + 0x2000;
            let base = argv_base(args, top);
            &&& word_read(&ms, &kernel.pool, base + 8 * i) == arg_at(args, top, i)
            &&& word_read(&ms, &kernel.pool, base + 8 * args.len()) == 0
        }),
{
    let top = image_stack_bottom(b) + 0x2000;
    let bottom = top - args_len(args);
    let base = argv_base(args, top);
    let n = args.len() as int;
    lemma_arg_place(b, slots, args, i);
    arguments_are_found(args, top, i);
    lemma_block_word(
        kernel,
        kernel0,
        pid,
        b,
        slots,
        args,
        base - bottom + 8 * i,
        arg_at(args, top, i) as u64,
    );
    lemma_block_word(kernel, kernel0, pid, b, slots, args, base - bottom + 8 * n, 0);
    assert(bottom + (base - bottom + 8 * i) == base + 8 * i);
    assert(bottom + (base - bottom + 8 * n) == base + 8 * n);
}

/// A word of the block of arguments, as the program reads it.
#[verifier::spinoff_prover]
proof fn lemma_block_word<M: PhysMemory>(
    kernel: &Kernel<M>,
    kernel0: &Kernel<M>,
    pid: usize,
    b: Seq<u8>,
    slots: int,
    args: Seq<Seq<u8>>,
    at: int,
    w: u64,
)
    requires
        kernel.wf(),
        kernel.processes@.dom().contains(pid),
        program_started(kernel, kernel0, pid, b, args),
        loadable(b, slots),
        slots <= 512,
        args_len(args) <= 0x2000,
        image_stack_bottom(b) + 0x2000 <= 0x8000_0000_0000,
        0 <= at,
        at + 8 <= args_len(args),
        args_block(args, image_stack_bottom(b) + 0x2000).len() == args_len(args),
        args_block(args, image_stack_bottom(b) + 0x2000).subrange(at, at + 8) == word_bytes(w),
    ensures
        word_read(
            &kernel.processes@[pid].inner.memory_set,
            &kernel.pool,
            image_stack_bottom(b) + 0x2000 - args_len(args) + at,
        ) == w,
{
    let ms = kernel.processes@[pid].inner.memory_set;
    let top = image_stack_bottom(b) + 0x2000;
    let block = args_block(args, top);
    let ptr = top - args_len(args) + at;
    let word = block.subrange(at, at + 8);
    assert forall|k: int| 0 <= k < 8 implies #[trigger] byte_read(&ms, &kernel.pool, ptr + k)
        == word_byte(w, k as u64) by {
        lemma_args_read(kernel, kernel0, pid, b, slots, args, at + k);
        assert(word[k] == block[at + k]);
        assert(word[k] == word_bytes(w)[k]);
    }
    lemma_word_read(&ms, &kernel.pool, ptr, w);
}

proof fn lemma_arg_text<M: PhysMemory>(
    kernel: &Kernel<M>,
    kernel0: &Kernel<M>,
    pid: usize,
    b: Seq<u8>,
    slots: int,
    args: Seq<Seq<u8>>,
    i: int,
)
    requires
        kernel.wf(),
        kernel.processes@.dom().contains(pid),
        program_started(kernel, kernel0, pid, b, args),
        loadable(b, slots),
        slots <= 512,
        args_len(args) <= 0x2000,
        image_stack_bottom(b) + 0x2000 <= 0x8000_0000_0000,
        0 <= i < args.len(),
    ensures
        ({
            let ms = kernel.processes@[pid].inner.memory_set;
            let at = arg_at(args, image_stack_bottom(b) + 0x2000, i);
            &&& forall|j: int|
                0 <= j < args[i].len() ==> byte_read(&ms, &kernel.pool, at + j)
                    == #[trigger] args[i][j]
            &&& byte_read(&ms, &kernel.pool, at + args[i].len()) == 0
        }),
{
    let ms = kernel.processes@[pid].inner.memory_set;
    let top = image_stack_bottom(b) + 0x2000;
    let bottom = top - args_len(args);
    let block = args_block(args, top);
    let at = arg_at(args, top, i);
    let m = args[i].len() as int;
    lemma_arg_place(b, slots, args, i);
    arguments_are_found(args, top, i);
    let text = block.subrange(at - bottom, at - bottom + m + 1);
    assert forall|j: int| 0 <= j < m implies byte_read(&ms, &kernel.pool, at + j)
        == #[trigger] args[i][j] by {
        lemma_args_read(kernel, kernel0, pid, b, slots, args, at - bottom + j);
        assert(text[j] == block[at - bottom + j]);
        assert(text[j] == args[i].push(0)[j]);
    }
    lemma_args_read(kernel, kernel0, pid, b, slots, args, at - bottom + m);
    assert(text[m] == block[at - bottom + m]);
    assert(text[m] == args[i].push(0)[m]);
}

proof fn lemma_strings_nonneg(args: Seq<Seq<u8>>, n: int)
    ensures
        strings_len(args, n) >= 0,
    decreases n,
{
    if n > 0 {
        lemma_strings_nonneg(args, n - 1);
    }
}

/// When a process goes on with another program, the memory of the one before is given
/// back: each of its frames can be handed out again. The new program lies in other frames.
pub proof fn replaced_program_gives_back_its_memory<M: PhysMemory>(
    kernel: &Kernel<M>,
    kernel0: &Kernel<M>,
    pid: usize,
    b: Seq<u8>,
    args: Seq<Seq<u8>>,
    f: u64,
)
    requires
        kernel.wf(),
        kernel.processes@.dom().contains(pid),
        program_started(kernel, kernel0, pid, b, args),
        kernel0.processes@[pid].inner.memory_set.owned().contains(f),
    ensures
        kernel.pool.free().contains(f),
        !kernel.processes@[pid].inner.memory_set.owned().contains(f),
{
    let ms = kernel.processes@[pid].inner.memory_set;
    assert(ms.wf(&kernel.pool) && kernel.pool.wf()) by {
        reveal(memory_wf);
        assert(kernel.spaces().dom().contains(pid));
    }
    if ms.owned().contains(f) {
        lemma_owned_allocated(&ms, &kernel.pool, f);
    }
}

} // verus!
