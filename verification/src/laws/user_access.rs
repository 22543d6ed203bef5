//! How the kernel reaches the memory of a program: it finds what the program finds.
use vstd::prelude::*;
use super::machine::{
    access, byte_at, frames_are_bytes, rights_are_enforced, words_are_little_endian,
};
use super::programs::{byte_read, lemma_word_read, word_read};
use super::spaces::{areas_are_reached, reached};
use crate::mm::address::PhysAddr;
use crate::mm::frame_allocator::FramePool;
use crate::mm::memory_set::MemorySet;
use crate::mm::page_table::{pte_ppn_bound, translated};
use crate::mm::phys::{word_byte, Frames, PhysMemory};
use crate::mm::rights::page_rights;
use crate::mm::table_tree::mapped;
use crate::mm::user_memory::{
    byte_handed_out, piece_end, reachable, string_at, total_len, user_byte, user_chars, user_frame,
    user_slices, user_slices_cover, user_word, BytePlace, PageSlice, UserBufferIterator,
};
use crate::mm::user_write::{
    area_byte, lemma_user_frame, overwritten, page_of, user_mapped, user_page, user_range,
    user_written,
};
use crate::syscall::process::{action_bytes, action_set, half_bytes};
use crate::task::action::SignalAction;
use crate::task::args::word_bytes;
use crate::task::kernel::{memory_wf, Kernel};
use crate::task::signals::running_process;

verus! {

/// Whether pointer value `ptr` can be used under the tables of `root`, by pages of the
/// usual size.
pub open spec fn usable(mem: Frames, root: u64, ptr: int) -> bool {
    page_rights(mem, root, (ptr % 0x1_0000_0000_0000) / 0x1000) is Some
}

/// Where the processor finds pointer value `ptr`.
pub open spec fn place(mem: Frames, root: u64, ptr: int) -> int {
    access(mem, root, ptr % 0x1_0000_0000_0000)->Some_0.pa
}

/// The place of a byte of a program, as the kernel computes it, is the one where the
/// processor finds it.
pub proof fn user_places_are_those_of_the_processor(mem: Frames, root: u64, ptr: int)
    requires
        usable(mem, root, ptr),
    ensures
        user_frame(mem, root, ptr) * 0x1000 + ptr % 0x1000 == place(mem, root, ptr),
        user_byte(mem, root, ptr) == byte_at(mem, place(mem, root, ptr)),
{
    let va = ptr % 0x1_0000_0000_0000;
    rights_are_enforced(mem, root, va);
    assert(va % 0x1000 == ptr % 0x1000);
    assert(mapped(mem, root, va / 0x1000) is Some);
    frames_are_bytes(mem, user_frame(mem, root, ptr), ptr % 0x1000);
}

/// A word of a program, as the kernel reads it, has the bytes that the processor finds.
pub proof fn user_words_are_those_of_the_processor(mem: Frames, root: u64, ptr: int)
    requires
        usable(mem, root, ptr),
        ptr % 8 == 0,
    ensures
        ({
            let pa = place(mem, root, ptr);
            let w = user_word(mem, root, ptr) as int;
            &&& byte_at(mem, pa) == w % 256
            &&& byte_at(mem, pa + 1) == (w / 0x100) % 256
            &&& byte_at(mem, pa + 2) == (w / 0x1_0000) % 256
            &&& byte_at(mem, pa + 3) == (w / 0x100_0000) % 256
            &&& byte_at(mem, pa + 4) == (w / 0x1_0000_0000) % 256
            &&& byte_at(mem, pa + 5) == (w / 0x100_0000_0000) % 256
            &&& byte_at(mem, pa + 6) == (w / 0x1_0000_0000_0000) % 256
            &&& byte_at(mem, pa + 7) == (w / 0x100_0000_0000_0000) % 256
        }),
{
    user_places_are_those_of_the_processor(mem, root, ptr);
    let f = user_frame(mem, root, ptr);
    let o = ptr % 0x1000;
    assert(o % 8 == 0);
    lemma_byte_of_frame(mem, f, o, 0);
    lemma_byte_of_frame(mem, f, o, 1);
    lemma_byte_of_frame(mem, f, o, 2);
    lemma_byte_of_frame(mem, f, o, 3);
    lemma_byte_of_frame(mem, f, o, 4);
    lemma_byte_of_frame(mem, f, o, 5);
    lemma_byte_of_frame(mem, f, o, 6);
    lemma_byte_of_frame(mem, f, o, 7);
    words_are_little_endian(mem[f][o / 8]);
}

/// A byte of a word in a frame.
proof fn lemma_byte_of_frame(mem: Frames, f: u64, o: int, k: int)
    requires
        0 <= o < 0x1000,
        o % 8 == 0,
        0 <= k < 8,
    ensures
        byte_at(mem, f * 0x1000 + o + k) == word_byte(mem[f][o / 8], k as u64),
{
    assert(o + k < 0x1000 && (o + k) / 8 == o / 8 && (o + k) % 8 == k);
    frames_are_bytes(mem, f, o + k);
}

/// A string that the kernel reads from a program has the characters that the program finds
/// there, up to the first zero.
pub proof fn user_strings_are_those_of_the_processor(
    mem: Frames,
    root: u64,
    ptr: int,
    n: int,
    i: int,
)
    requires
        string_at(mem, root, ptr, n),
        0 <= i <= n,
        usable(mem, root, ptr + i),
    ensures
        i < n ==> byte_at(mem, place(mem, root, ptr + i)) != 0,
        i < n ==> user_chars(mem, root, ptr, n)[i] as int == byte_at(
            mem,
            place(mem, root, ptr + i),
        ),
        i == n ==> byte_at(mem, place(mem, root, ptr + i)) == 0,
        user_chars(mem, root, ptr, n).len() == n,
{
    user_places_are_those_of_the_processor(mem, root, ptr + i);
    assert(reachable(mem, root, ptr + i));
}

proof fn lemma_total_len(first: PageSlice, rest: Seq<PageSlice>, n: int)
    requires
        0 <= n <= rest.len(),
    ensures
        total_len(seq![first] + rest, n + 1) == first.spec_len() + total_len(rest, n),
    decreases n,
{
    let all = seq![first] + rest;
    if n == 0 {
        assert(total_len(all, 1) == total_len(all, 0) + all[0].spec_len());
    } else {
        lemma_total_len(first, rest, n - 1);
        assert(all[n] == rest[n - 1]);
    }
}

/// The pieces of frames that the kernel takes for a buffer of a program hold the bytes of
/// the buffer in their order: byte `k` of the buffer is in piece `r`, at the place where
/// the processor finds it.
pub proof fn user_buffers_are_those_of_the_processor(
    mem: Frames,
    root: u64,
    start: int,
    end: int,
    k: int,
) -> (r: int)
    requires
        0 <= start,
        0 <= k < end - start,
        forall|a: int| start <= a < end ==> #[trigger] usable(mem, root, a),
    ensures
        ({
            let slices = user_slices(mem, root, start, end);
            &&& 0 <= r < slices.len()
            &&& total_len(slices, r) <= k < total_len(slices, r + 1)
            &&& slices[r].ppn * 0x1000 + slices[r].start + (k - total_len(slices, r)) == place(
                mem,
                root,
                start + k,
            )
            &&& total_len(slices, slices.len() as int) == end - start
        }),
    decreases end - start,
{
    let slices = user_slices(mem, root, start, end);
    let next = piece_end(start, end);
    let rest = user_slices(mem, root, next, end);
    let first = slices[0];
    assert(slices == seq![first] + rest);
    assert(start < next <= end);
    user_slices_cover(mem, root, start, end);
    assert(first.spec_len() == next - start);
    assert(total_len(slices, 1) == total_len(slices, 0) + first.spec_len());
    if k < next - start {
        assert(usable(mem, root, start + k));
        assert(usable(mem, root, start));
        user_places_are_those_of_the_processor(mem, root, start + k);
        lemma_same_page(start, start + k);
        0
    } else {
        let s = user_buffers_are_those_of_the_processor(mem, root, next, end, k - (next - start));
        lemma_total_len(first, rest, s);
        lemma_total_len(first, rest, s + 1);
        assert(slices[s + 1] == rest[s]);
        s + 1
    }
}

proof fn lemma_same_page(a: int, b: int)
    requires
        0 <= a <= b < (a / 0x1000 + 1) * 0x1000,
    ensures
        (a % 0x1_0000_0000_0000) / 0x1000 == (b % 0x1_0000_0000_0000) / 0x1000,
        b % 0x1000 == a % 0x1000 + (b - a),
{
    assert(a / 0x1000 == b / 0x1000);
    assert((a % 0x1_0000_0000_0000) / 0x1000 == (a / 0x1000) % 0x10_0000_0000);
    assert((b % 0x1_0000_0000_0000) / 0x1000 == (b / 0x1000) % 0x10_0000_0000);
}

/// What the kernel writes to the memory of a program, the program reads there; all other
/// bytes of the program are as they were.
pub proof fn written_bytes_are_read<M: PhysMemory>(
    ms: &MemorySet,
    pool: &FramePool<M>,
    pool0: &FramePool<M>,
    ptr: int,
    bytes: Seq<u8>,
    k: int,
    at: int,
)
    requires
        pool.wf(),
        pool0.wf(),
        ms.wf(pool),
        ms.wf(pool0),
        user_written(ms, pool, pool0, ptr, bytes),
        0 <= ptr,
        ptr + bytes.len() <= 0x8000_0000_0000,
        0 <= at < 0x8000_0000_0000,
        page_of(ms, k, at / 0x1000),
    ensures
        byte_read(ms, pool, at) == (if ptr <= at < ptr + bytes.len() {
            bytes[at - ptr] as int
        } else {
            byte_read(ms, pool0, at)
        }),
        reached(ms, pool, at) == reached(ms, pool0, at),
{
    let v = at / 0x1000;
    let j = at % 0x1000;
    assert(at % 0x1_0000_0000_0000 == at);
    assert(ptr % 0x1_0000_0000_0000 == ptr);
    areas_are_reached(ms, pool, k, at);
    areas_are_reached(ms, pool0, k, at);
    let f = ms.areas()[k].data[v];
    frames_are_bytes(pool.frames(), f, j);
    frames_are_bytes(pool0.frames(), f, j);
    assert(area_byte(ms, pool, k, v, j) == overwritten(ptr, bytes, v, j, area_byte(ms, pool0, k, v, j)));
    assert(v * 0x1000 + j == at);
}

/// A process that sets the action for a signal finds the action that it had before at the
/// one address, and the action for the signal is the one at the other address: the
/// address of the handler, and then the signals that it holds back. The actions for other
/// signals stay.
pub proof fn action_is_taken_from_memory<M: PhysMemory>(
    kernel: &Kernel<M>,
    kernel0: &Kernel<M>,
    cpu: usize,
    signum: int,
    action: u64,
    old_action: u64,
)
    requires
        kernel.wf(),
        kernel0.wf(),
        kernel0.processes@.dom().contains(running_process(kernel0, cpu)),
        kernel.processes@.dom().contains(running_process(kernel0, cpu)),
        0 <= signum < 32,
        action_set(kernel, kernel0, cpu, signum, action, old_action),
        action % 16 == 0,
        old_action + 12 <= 0x8000_0000_0000,
        action + 16 <= 0x8000_0000_0000,
        user_range(
            &kernel0.processes@[running_process(kernel0, cpu)].inner.memory_set,
            old_action as int,
            12,
        ),
        user_range(
            &kernel0.processes@[running_process(kernel0, cpu)].inner.memory_set,
            action as int,
            12,
        ),
    ensures
        ({
            let pid = running_process(kernel0, cpu);
            let ms = kernel.processes@[pid].inner.memory_set;
            let table0 = kernel0.processes@[pid].inner.signal_actions.table@;
            let table = kernel.processes@[pid].inner.signal_actions.table@;
            let mask = table0[signum].mask.bits as int;
            &&& word_read(&ms, &kernel.pool, old_action as int) == table0[signum].handler
            &&& byte_read(&ms, &kernel.pool, old_action + 8) == mask % 256
            &&& byte_read(&ms, &kernel.pool, old_action + 9) == (mask / 0x100) % 256
            &&& byte_read(&ms, &kernel.pool, old_action + 10) == (mask / 0x1_0000) % 256
            &&& byte_read(&ms, &kernel.pool, old_action + 11) == mask / 0x100_0000
            &&& table[signum].handler == word_read(&ms, &kernel.pool, action as int)
            &&& table[signum].mask.bits % 256 == byte_read(&ms, &kernel.pool, action + 8)
            &&& (table[signum].mask.bits as int / 0x100) % 256 == byte_read(
                &ms,
                &kernel.pool,
                action + 9,
            )
            &&& (table[signum].mask.bits as int / 0x1_0000) % 256 == byte_read(
                &ms,
                &kernel.pool,
                action + 10,
            )
            &&& table[signum].mask.bits as int / 0x100_0000 == byte_read(
                &ms,
                &kernel.pool,
                action + 11,
            )
            &&& forall|s: int| 0 <= s < 32 && s != signum ==> #[trigger] table[s] == table0[s]
        }),
{
    let pid = running_process(kernel0, cpu);
    let ms = kernel0.processes@[pid].inner.memory_set;
    assert(kernel.pool.wf() && kernel0.pool.wf() && ms.wf(&kernel.pool) && ms.wf(&kernel0.pool)) by {
        reveal(memory_wf);
        assert(kernel.spaces().dom().contains(pid));
        assert(kernel0.spaces().dom().contains(pid));
    }
    let table0 = kernel0.processes@[pid].inner.signal_actions.table@;
    assert(table0.len() == 32);
    lemma_action_written(
        &ms,
        &kernel.pool,
        &kernel0.pool,
        old_action as int,
        table0[signum],
    );
    lemma_word_seen(&ms, &kernel.pool, action as int, 0);
    lemma_word_seen(&ms, &kernel.pool, action as int, 8);
    lemma_half(user_word(kernel.pool.frames(), ms.root(), action + 8));
}

/// An action that was written to user memory, as the program reads it.
proof fn lemma_action_written<M: PhysMemory>(
    ms: &MemorySet,
    pool: &FramePool<M>,
    pool0: &FramePool<M>,
    ptr: int,
    action: SignalAction,
)
    requires
        pool.wf(),
        pool0.wf(),
        ms.wf(pool),
        ms.wf(pool0),
        user_range(ms, ptr, 12),
        0 <= ptr,
        ptr + 12 <= 0x8000_0000_0000,
        user_written(ms, pool, pool0, ptr, action_bytes(action)),
    ensures
        ({
            let mask = action.mask.bits as int;
            &&& word_read(ms, pool, ptr) == action.handler
            &&& byte_read(ms, pool, ptr + 8) == mask % 256
            &&& byte_read(ms, pool, ptr + 9) == (mask / 0x100) % 256
            &&& byte_read(ms, pool, ptr + 10) == (mask / 0x1_0000) % 256
            &&& byte_read(ms, pool, ptr + 11) == mask / 0x100_0000
        }),
{
    lemma_action_bytes(ms, pool, pool0, ptr, action);
    lemma_word_read(ms, pool, ptr, action.handler);
    lemma_half_bytes(action.mask.bits);
}

/// The bytes of a half word are its digits to base 256.
pub proof fn lemma_half_bytes(w: u32)
    ensures
        ({
            let b = half_bytes(w);
            &&& b[0] == w % 256
            &&& b[1] == (w as int / 0x100) % 256
            &&& b[2] == (w as int / 0x1_0000) % 256
            &&& b[3] == w as int / 0x100_0000
        }),
{
    words_are_little_endian(w as u64);
}

proof fn lemma_action_bytes<M: PhysMemory>(
    ms: &MemorySet,
    pool: &FramePool<M>,
    pool0: &FramePool<M>,
    ptr: int,
    action: SignalAction,
)
    requires
        pool.wf(),
        pool0.wf(),
        ms.wf(pool),
        ms.wf(pool0),
        user_range(ms, ptr, 12),
        0 <= ptr,
        ptr + 12 <= 0x8000_0000_0000,
        user_written(ms, pool, pool0, ptr, action_bytes(action)),
    ensures
        forall|k: int|
            0 <= k < 8 ==> #[trigger] byte_read(ms, pool, ptr + k) == word_byte(
                action.handler,
                k as u64,
            ),
        byte_read(ms, pool, ptr + 8) == half_bytes(action.mask.bits)[0],
        byte_read(ms, pool, ptr + 9) == half_bytes(action.mask.bits)[1],
        byte_read(ms, pool, ptr + 10) == half_bytes(action.mask.bits)[2],
        byte_read(ms, pool, ptr + 11) == half_bytes(action.mask.bits)[3],
{
    let bytes = action_bytes(action);
    assert forall|k: int| 0 <= k < 12 implies #[trigger] byte_read(ms, pool, ptr + k) == bytes[k] by {
        assert(user_mapped(ms, user_page(ptr, k)));
        let a = choose|a: int| page_of(ms, a, user_page(ptr, k));
        assert((ptr + k) % 0x1_0000_0000_0000 == ptr + k);
        written_bytes_are_read(ms, pool, pool0, ptr, bytes, a, ptr + k);
    }
    assert forall|k: int| 0 <= k < 8 implies #[trigger] byte_read(ms, pool, ptr + k) == word_byte(
        action.handler,
        k as u64,
    ) by {
        assert(bytes[k] == word_bytes(action.handler)[k]);
    }
    let half = half_bytes(action.mask.bits);
    assert(bytes[8] == half[0] && bytes[9] == half[1] && bytes[10] == half[2] && bytes[11] == half[3]);
    assert(byte_read(ms, pool, ptr + 8) == bytes[8]);
    assert(byte_read(ms, pool, ptr + 9) == bytes[9]);
    assert(byte_read(ms, pool, ptr + 10) == bytes[10]);
    assert(byte_read(ms, pool, ptr + 11) == bytes[11]);
}

/// The low half of a word.
proof fn lemma_half(w: u64)
    ensures
        ({
            let h = (w & 0xffff_ffff) as u32;
            &&& h % 256 == w % 256
            &&& (h as int / 0x100) % 256 == (w as int / 0x100) % 256
            &&& (h as int / 0x1_0000) % 256 == (w as int / 0x1_0000) % 256
            &&& h as int / 0x100_0000 == (w as int / 0x100_0000) % 256
        }),
{
    assert({
        let h = w & 0xffff_ffff;
        &&& h < 0x1_0000_0000
        &&& h % 256 == w % 256
        &&& (h / 0x100) % 256 == (w / 0x100) % 256
        &&& (h / 0x1_0000) % 256 == (w / 0x1_0000) % 256
        &&& h / 0x100_0000 == (w / 0x100_0000) % 256
    }) by (bit_vector);
}

/// A word in user memory, as the kernel and as the processor read it.
proof fn lemma_word_seen<M: PhysMemory>(
    ms: &MemorySet,
    pool: &FramePool<M>,
    ptr: int,
    at: int,
)
    requires
        pool.wf(),
        ms.wf(pool),
        user_range(ms, ptr, 12),
        0 <= ptr,
        ptr % 16 == 0,
        ptr + 16 <= 0x8000_0000_0000,
        at == 0 || at == 8,
    ensures
        word_read(ms, pool, ptr + at) == user_word(pool.frames(), ms.root(), ptr + at),
        ({
            let w = user_word(pool.frames(), ms.root(), ptr + at) as int;
            &&& byte_read(ms, pool, ptr + at) == w % 256
            &&& byte_read(ms, pool, ptr + at + 1) == (w / 0x100) % 256
            &&& byte_read(ms, pool, ptr + at + 2) == (w / 0x1_0000) % 256
            &&& byte_read(ms, pool, ptr + at + 3) == (w / 0x100_0000) % 256
        }),
{
    let p = ptr + at;
    let w = user_word(pool.frames(), ms.root(), p);
    lemma_bytes_of_word(ms, pool, ptr, at);
    lemma_word_read(ms, pool, p, w);
    words_are_little_endian(w);
}

#[verifier::spinoff_prover]
proof fn lemma_bytes_of_word<M: PhysMemory>(
    ms: &MemorySet,
    pool: &FramePool<M>,
    ptr: int,
    at: int,
)
    requires
        pool.wf(),
        ms.wf(pool),
        user_range(ms, ptr, 12),
        0 <= ptr,
        ptr % 16 == 0,
        ptr + 16 <= 0x8000_0000_0000,
        at == 0 || at == 8,
    ensures
        ({
            let p = ptr + at;
            let w = user_word(pool.frames(), ms.root(), p);
            &&& forall|k: int|
                0 <= k < 8 ==> #[trigger] byte_read(ms, pool, p + k) == word_byte(w, k as u64)
            &&& byte_read(ms, pool, p) == word_byte(w, 0)
            &&& byte_read(ms, pool, p + 1) == word_byte(w, 1)
            &&& byte_read(ms, pool, p + 2) == word_byte(w, 2)
            &&& byte_read(ms, pool, p + 3) == word_byte(w, 3)
        }),
{
    let p = ptr + at;
    let a = lemma_area_of(ms, ptr, at);
    lemma_word_place(ms, pool, a, p);
    let w = user_word(pool.frames(), ms.root(), p);
    assert forall|k: int| 0 <= k < 8 implies #[trigger] byte_read(ms, pool, p + k) == word_byte(
        w,
        k as u64,
    ) by {
        lemma_byte_of_word(ms, pool, a, p, k);
    }
    assert(byte_read(ms, pool, p + 0) == word_byte(w, 0));
    assert(byte_read(ms, pool, p + 1) == word_byte(w, 1));
    assert(byte_read(ms, pool, p + 2) == word_byte(w, 2));
    assert(byte_read(ms, pool, p + 3) == word_byte(w, 3));
}

proof fn lemma_area_of(ms: &MemorySet, ptr: int, at: int) -> (a: int)
    requires
        user_range(ms, ptr, 12),
        0 <= ptr,
        ptr % 16 == 0,
        ptr + 16 <= 0x8000_0000_0000,
        at == 0 || at == 8,
    ensures
        page_of(ms, a, (ptr + at) / 0x1000),
        (ptr + at) % 8 == 0,
{
    let p = ptr + at;
    assert(p % 0x1_0000_0000_0000 == p);
    assert(user_mapped(ms, user_page(ptr, at)));
    choose|a: int| page_of(ms, a, user_page(ptr, at))
}

proof fn lemma_word_place<M: PhysMemory>(ms: &MemorySet, pool: &FramePool<M>, a: int, p: int)
    requires
        pool.wf(),
        ms.wf(pool),
        page_of(ms, a, p / 0x1000),
        0 <= p < 0x8000_0000_0000,
    ensures
        user_word(pool.frames(), ms.root(), p) == pool.frames()[ms.areas()[a].data[p / 0x1000]][(p
            % 0x1000) / 8],
{
    assert(p % 0x1_0000_0000_0000 == p);
    lemma_user_frame(ms, pool, a, p);
}

proof fn lemma_byte_of_word<M: PhysMemory>(
    ms: &MemorySet,
    pool: &FramePool<M>,
    a: int,
    p: int,
    k: int,
)
    requires
        pool.wf(),
        ms.wf(pool),
        page_of(ms, a, p / 0x1000),
        0 <= p,
        p % 8 == 0,
        p + 8 <= 0x8000_0000_0000,
        0 <= k < 8,
    ensures
        byte_read(ms, pool, p + k) == word_byte(
            pool.frames()[ms.areas()[a].data[p / 0x1000]][(p % 0x1000) / 8],
            k as u64,
        ),
{
    lemma_word_offset(p, k);
    areas_are_reached(ms, pool, a, p + k);
    frames_are_bytes(pool.frames(), ms.areas()[a].data[p / 0x1000], (p + k) % 0x1000);
}

proof fn lemma_word_offset(p: int, k: int)
    requires
        0 <= p,
        p % 8 == 0,
        p + 8 <= 0x8000_0000_0000,
        0 <= k < 8,
    ensures
        (p + k) / 0x1000 == p / 0x1000,
        (p + k) % 0x1000 == p % 0x1000 + k,
        ((p + k) % 0x1000) / 8 == (p % 0x1000) / 8,
        ((p + k) % 0x1000) % 8 == k,
        (p + k) % 0x1_0000_0000_0000 == p + k,
{
    assert(p % 0x1000 + 7 < 0x1000);
}

/// An address that the kernel translates leads where the processor leads it.
pub proof fn translation_is_that_of_the_processor(mem: Frames, root: u64, va: int)
    requires
        0 <= va < 0x1_0000_0000_0000,
        usable(mem, root, va),
    ensures
        translated(mem, root, va) == Some(PhysAddr(place(mem, root, va) as u64)),
        0 <= place(mem, root, va) < 0x10_0000_0000_0000,
{
    assert(va % 0x1_0000_0000_0000 == va);
    rights_are_enforced(mem, root, va);
    pte_ppn_bound(mapped(mem, root, va / 0x1000)->Some_0);
}

/// The bytes of a buffer of a program are handed out in their order, each at the place
/// where the processor finds it, and no more than there are.
pub proof fn buffer_bytes_are_handed_out_in_order(
    mem: Frames,
    root: u64,
    start: int,
    end: int,
    before: &UserBufferIterator,
    after: &UserBufferIterator,
    r: Option<BytePlace>,
)
    requires
        0 <= start <= end,
        forall|a: int| start <= a < end ==> #[trigger] usable(mem, root, a),
        before.wf(),
        before.slices() == user_slices(mem, root, start, end),
        byte_handed_out(before, after, r),
    ensures
        before.position() < end - start ==> (r matches Some(at) && at.ppn * 0x1000 + at.offset
            == place(mem, root, start + before.position())) && after.position()
            == before.position() + 1,
        before.position() >= end - start ==> r is None && after.position() == before.position(),
{
    let slices = before.slices();
    let i = before.buffer_index();
    user_slices_cover(mem, root, start, end);
    lemma_slices_grow(slices, i, slices.len() as int);
    if i < slices.len() {
        let k = before.position();
        lemma_slices_grow(slices, i + 1, slices.len() as int);
        assert(total_len(slices, i + 1) == total_len(slices, i) + slices[i].spec_len());
        assert(0 <= total_len(slices, i)) by {
            lemma_slices_grow(slices, 0, i);
        }
        let s = user_buffers_are_those_of_the_processor(mem, root, start, end, k);
        if s < i {
            lemma_slices_grow(slices, s + 1, i);
        }
        if s > i {
            lemma_slices_grow(slices, i + 1, s);
        }
        assert(s == i);
    }
}

proof fn lemma_slices_grow(s: Seq<PageSlice>, a: int, b: int)
    requires
        0 <= a <= b <= s.len(),
        forall|i: int| 0 <= i < s.len() ==> (#[trigger] s[i]).wf(),
    ensures
        total_len(s, a) <= total_len(s, b),
    decreases b - a,
{
    if a < b {
        lemma_slices_grow(s, a, b - 1);
        assert(s[b - 1].wf());
    }
}

} // verus!
