//! Constants of the kernel.
use vstd::prelude::*;

verus! {

/// Size of a user stack in bytes.
pub const USER_STACK_SIZE: u64 = 0x2000;

/// Size of a kernel stack in bytes.
pub const KERNEL_STACK_SIZE: u64 = 0x2000;

/// Size of the kernel heap in bytes.
pub const KERNEL_HEAP_SIZE: u64 = 0x30_0000;

/// Size of a page in bytes.
pub const PAGE_SIZE: u64 = 0x1000;

/// Number of bits of an offset into a page.
pub const PAGE_SIZE_BITS: u64 = 0xc;

/// The virtual address where the kernel image is linked.
pub const KERNEL_BASE: u64 = 0xffff_ffff_8000_0000;

/// Fallback physical memory size, used if the boot loader's memory map reports
/// no usable region.
pub const MEMORY_END: u64 = 0x1000_0000;

/// The physical base of the local APIC MMIO window.
pub const LAPIC_BASE: u64 = 0xFEE0_0000;

/// Start of the kernel stack region: the start of `PML4[511]`/`PDPT[511]`, one
/// PDPT entry above the kernel image (`PDPT[510]`).
pub const KERNEL_STACK_BASE: u64 = 0xffff_ffff_c000_0000;

/// Maximum number of processors.
pub const NCPU: usize = 8;

/// Number of applications that can be linked into the kernel image.
pub const MAX_APP_NUM: usize = 16;

/// The distance between two neighbouring kernel stacks: one stack and its
/// guard page.
pub const KERNEL_STACK_STRIDE: u64 = 0x3000;

/// The lowest address of kernel stack `id`.
pub open spec fn kernel_stack_bottom_spec(id: int) -> int {
    KERNEL_STACK_BASE + id * KERNEL_STACK_STRIDE
}

/// The number of kernel stacks that there is room for.
pub const KERNEL_STACK_COUNT: usize = 0x1_5555;

/// Whether the kernel stack with this id lies inside `PDPT[511]`, the last
/// GiB of the address space.
pub open spec fn kernel_stack_id_ok(id: int) -> bool {
    0 <= id < KERNEL_STACK_COUNT
}

/// Return (bottom, top) of the kernel stack with `id`.
///
/// The layout ascends from `KERNEL_STACK_BASE` with one guard page between
/// stacks, so it stays entirely within `PDPT[511]`.
pub fn kernel_stack_position(id: u64) -> (r: (u64, u64))
    requires
        kernel_stack_id_ok(id as int),
    ensures
        r.0 == kernel_stack_bottom_spec(id as int),
        r.1 == r.0 + KERNEL_STACK_SIZE,
{
    let bottom: u64 = KERNEL_STACK_BASE + id * KERNEL_STACK_STRIDE;
    (bottom, bottom + KERNEL_STACK_SIZE)
}

/// Every kernel stack lies between `KERNEL_STACK_BASE` and the end of the
/// address space, and two different stacks are at least a guard page apart.
pub proof fn kernel_stacks_are_separate(a: int, b: int)
    requires
        kernel_stack_id_ok(a),
        kernel_stack_id_ok(b),
        a < b,
    ensures
        KERNEL_STACK_BASE <= kernel_stack_bottom_spec(a),
        kernel_stack_bottom_spec(a) + KERNEL_STACK_SIZE + PAGE_SIZE <= kernel_stack_bottom_spec(b),
        kernel_stack_bottom_spec(b) + KERNEL_STACK_SIZE <= u64::MAX,
{
}

} // verus!
