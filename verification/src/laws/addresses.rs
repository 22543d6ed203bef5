//! Addresses, frames and system calls, by their numbers.
use vstd::prelude::*;
use crate::config::{kernel_stack_bottom_spec, kernel_stack_id_ok};
use crate::mm::address::{canonical, PhysPageNum};
use crate::mm::frame_allocator::AllocatorView;
use crate::mm::map_area::page_addresses;
use crate::mm::page_table::page_address;
use crate::mm::phys::{cleared_frame, Frames, PhysMemory};
use crate::mm::user_memory::user_word;
use crate::syscall::dispatch::{syscall_done, SysOutcome};
use crate::syscall::exec::argv_count;
use crate::task::exit::stack_addresses;
use crate::task::kernel::{stack_area, stack_page, Kernel};
use crate::task::schedule::suspended;
use crate::task::signals::running;
use crate::task::terminate::exited;
use crate::user::{write_request, SyscallRequest};

verus! {

/// The canonical form of an address has the same low 48 bits, and its upper 17 bits are
/// all alike.
pub proof fn canonical_form_extends_the_sign(v: u64)
    requires
        v < 0x1_0000_0000_0000,
    ensures
        canonical(v) % 0x1_0000_0000_0000 == v,
        canonical(v) < 0x8000_0000_0000 || 0xffff_8000_0000_0000 <= canonical(v)
            <= 0xffff_ffff_ffff_ffff,
{
}

/// The address that is flushed from the TLB when a page is unmapped is the first address
/// of the page, in its canonical form.
pub proof fn flushed_address_is_that_of_the_page(vpn: int)
    requires
        0 <= vpn < 0x10_0000_0000,
    ensures
        page_address(vpn) as int % 0x1_0000_0000_0000 == vpn * 0x1000,
        page_address(vpn) < 0x8000_0000_0000 || page_address(vpn) >= 0xffff_8000_0000_0000,
{
}

/// Kernel stacks lie one above the other from a fixed address on, two pages each with a
/// page between that belongs to none.
pub proof fn kernel_stacks_lie_in_a_row(id: int)
    requires
        kernel_stack_id_ok(id),
    ensures
        kernel_stack_bottom_spec(id) == 0xffff_ffff_c000_0000 + id * 0x3000,
        kernel_stack_bottom_spec(id) + 0x2000 <= 0xffff_ffff_ffff_ffff,
{
}

/// Frames that were never used are handed out in the order of their numbers: a frame is
/// followed by its neighbour, as long as that belongs to the same range of memory.
pub proof fn fresh_frames_come_in_order(a: AllocatorView)
    requires
        a.wf(),
        a.recycled.len() == 0,
        a.active < a.start.len(),
    ensures
        ({
            let p = a.current[a.active].0;
            &&& a.next_frame() == Some(PhysPageNum(p))
            &&& p + 1 < a.end[a.active].0 ==> a.after_alloc().next_frame() == Some(
                PhysPageNum((p + 1) as u64),
            )
            &&& p + 1 == a.end[a.active].0 && a.active + 1 < a.start.len()
                ==> a.after_alloc().next_frame() == Some(a.start[a.active + 1])
        }),
{
    assert(a.start[a.active].0 < a.end[a.active].0);
    if a.active + 1 < a.start.len() {
        assert(a.start[a.active + 1].0 < a.end[a.active + 1].0);
    }
}

/// A frame is cleared when every word of it is zero.
pub proof fn cleared_frames_hold_zeros(i: int)
    requires
        0 <= i < 512,
    ensures
        cleared_frame().len() == 512,
        cleared_frame()[i] == 0,
{
}

/// A program that is started gets the arguments up to the first null pointer in the array
/// that was given, but 32 at most.
pub proof fn arguments_end_with_a_null_pointer(mem: Frames, root: u64, args: int, i: int)
    requires
        0 <= i <= 32,
    ensures
        ({
            let n = argv_count(mem, root, args, i);
            &&& i <= n <= 32
            &&& n < 32 ==> user_word(mem, root, args + 8 * n) == 0
            &&& forall|k: int|
                i <= k < n ==> #[trigger] user_word(mem, root, args + 8 * k) != 0
        }),
    decreases 32 - i,
{
    if i < 32 && user_word(mem, root, args + 8 * i) != 0 {
        arguments_end_with_a_null_pointer(mem, root, args, i + 1);
    }
}

/// What the system calls do, by their numbers: 1 hands a buffer to be written, 24 lets
/// other threads run, 60 ends the thread with the low half of the first argument as its
/// exit code, 201 tells the time, and 214 asks for memory.
pub proof fn system_calls_go_by_their_numbers<M: PhysMemory>(
    kernel: &Kernel<M>,
    kernel0: &Kernel<M>,
    cpu: usize,
    id: u64,
    args: Seq<u64>,
    r: SysOutcome,
)
    requires
        syscall_done(kernel, kernel0, cpu, id, args, r),
    ensures
        id == 1 ==> r == (SysOutcome::Write { fd: args[0], buf: args[1], len: args[2] })
            && *kernel == *kernel0,
        id == 24 ==> r == (SysOutcome::Yielded { task: running(kernel0, cpu) }) && suspended(
            kernel,
            kernel0,
            cpu,
            running(kernel0, cpu),
        ),
        id == 60 ==> (r matches SysOutcome::Exited(outcome) && exited(
            kernel,
            kernel0,
            cpu as int,
            args[0] as i32,
            outcome,
        )),
        id == 201 ==> r == SysOutcome::Return(kernel0.timers.ticks() as isize) && *kernel
            == *kernel0,
        id == 214 ==> r == (SysOutcome::Sbrk { size: args[0] as i32 }) && *kernel == *kernel0,
{
}

/// What a program asks to be written reaches the kernel as it was asked.
pub proof fn write_request_arrives<M: PhysMemory>(
    kernel: &Kernel<M>,
    kernel0: &Kernel<M>,
    cpu: usize,
    request: SyscallRequest,
    fd: u64,
    buffer: u64,
    len: u64,
    r: SysOutcome,
)
    requires
        write_request(request, fd, buffer, len),
        syscall_done(kernel, kernel0, cpu, request.id, request.args@, r),
    ensures
        r == (SysOutcome::Write { fd, buf: buffer, len }),
        request.id == 1,
{
}

/// When kernel stacks are given back, both pages of each of them are listed to be flushed.
pub proof fn stacks_are_flushed(ids: Seq<usize>, i: int)
    requires
        0 <= i < ids.len(),
        kernel_stack_id_ok(ids[i] as int),
    ensures
        stack_addresses(ids).contains((0xffff_ffff_c000_0000 + ids[i] * 0x3000) as u64),
        stack_addresses(ids).contains((0xffff_ffff_c000_1000 + ids[i] * 0x3000) as u64),
    decreases ids.len(),
{
    let rest = stack_addresses(ids.drop_last());
    let more = page_addresses(stack_page(ids.last()), stack_area(ids.last()).end);
    let all = stack_addresses(ids);
    assert(all == rest + more);
    if i == ids.len() - 1 {
        lemma_stack_pages(ids[i]);
        assert(all[rest.len() as int] == more[0]);
        assert(all[rest.len() as int + 1] == more[1]);
    } else {
        stacks_are_flushed(ids.drop_last(), i);
        let low = (0xffff_ffff_c000_0000 + ids[i] * 0x3000) as u64;
        let high = (0xffff_ffff_c000_1000 + ids[i] * 0x3000) as u64;
        let a = choose|a: int| 0 <= a < rest.len() && rest[a] == low;
        let b = choose|b: int| 0 <= b < rest.len() && rest[b] == high;
        assert(all[a] == low);
        assert(all[b] == high);
    }
}

proof fn lemma_stack_pages(id: usize)
    requires
        kernel_stack_id_ok(id as int),
    ensures
        ({
            let more = page_addresses(stack_page(id), stack_area(id).end);
            &&& more.len() == 2
            &&& more[0] == 0xffff_ffff_c000_0000 + id * 0x3000
            &&& more[1] == 0xffff_ffff_c000_1000 + id * 0x3000
        }),
{
    let bottom = 0xffff_c000_0000 + id * 0x3000;
    assert((0xffff_ffff_c000_0000 + id * 0x3000) % 0x1_0000_0000_0000 == bottom);
    assert((0xffff_ffff_c000_0000 + id * 0x3000 + 0x2000) % 0x1_0000_0000_0000 == bottom + 0x2000);
    assert(stack_page(id) == bottom / 0x1000);
    assert(stack_area(id).end == bottom / 0x1000 + 2);
    assert(bottom / 0x1000 * 0x1000 == bottom);
}

} // verus!
