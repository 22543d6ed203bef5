//! What the page tables used at boot mean for the processor.
use vstd::prelude::*;
use super::machine::{
    access, bit_large, entries_mean_what_the_processor_reads, passed, Access,
};
use crate::mm::page_table::pte_ppn;
use crate::mm::phys::Frames;
use crate::trap::paging::{
    boot_entry, entry_at, holds_boot_tables, lemma_entry_bits, lemma_kernel_indexes, walk,
    KERNEL_BASE,
};

verus! {

/// The walk through page tables that the kernel does itself at boot finds what the
/// processor finds, also on large pages. (An entry of the root cannot stand for a large
/// page.)
pub proof fn boot_walk_is_that_of_the_processor(mem: Frames, root: u64, virt: int)
    requires
        0 <= virt,
        !bit_large(passed(mem, root as int, virt % 0x1_0000_0000_0000, 0x80_0000_0000)),
    ensures
        match walk(mem, root, virt) {
            Some(pa) => access(mem, root, virt % 0x1_0000_0000_0000) matches Some(a) && a.pa == pa,
            None => access(mem, root, virt % 0x1_0000_0000_0000) is None,
        },
{
    reveal(access);
    let va = virt % 0x1_0000_0000_0000;
    lemma_low_bits(virt);
    let e0 = entry_at(mem, root, (virt / 0x80_0000_0000) % 512);
    entries_mean_what_the_processor_reads(e0);
    let e1 = entry_at(mem, pte_ppn(e0), (virt / 0x4000_0000) % 512);
    entries_mean_what_the_processor_reads(e1);
    let e2 = entry_at(mem, pte_ppn(e1), (virt / 0x20_0000) % 512);
    entries_mean_what_the_processor_reads(e2);
    let e3 = entry_at(mem, pte_ppn(e2), (virt / 0x1000) % 512);
    entries_mean_what_the_processor_reads(e3);
}

proof fn lemma_low_bits(virt: int)
    requires
        0 <= virt,
    ensures
        ({
            let va = virt % 0x1_0000_0000_0000;
            &&& (va / 0x80_0000_0000) % 512 == (virt / 0x80_0000_0000) % 512
            &&& (va / 0x4000_0000) % 512 == (virt / 0x4000_0000) % 512
            &&& (va / 0x20_0000) % 512 == (virt / 0x20_0000) % 512
            &&& (va / 0x1000) % 512 == (virt / 0x1000) % 512
            &&& va % 0x4000_0000 == virt % 0x4000_0000
            &&& va % 0x20_0000 == virt % 0x20_0000
            &&& va % 0x1000 == virt % 0x1000
        }),
{
    let q = virt / 0x1_0000_0000_0000;
    let va = virt % 0x1_0000_0000_0000;
    assert(virt == q * 0x1_0000_0000_0000 + va);
    assert(virt / 0x80_0000_0000 == q * 512 + va / 0x80_0000_0000);
    assert(virt / 0x4000_0000 == q * 0x4_0000 + va / 0x4000_0000);
    assert(virt / 0x20_0000 == q * 0x800_0000 + va / 0x20_0000);
    assert(virt / 0x1000 == q * 0x10_0000_0000 + va / 0x1000);
}

/// With the first page tables every address from 2 MiB to 4 GiB leads to itself, and can
/// be used in every way; below 2 MiB the processor raises a page fault.
pub proof fn boot_tables_reach_low_memory(
    mem: Frames,
    f: Seq<u64>,
    kernel_phys: int,
    kernel_size: int,
    virt: int,
)
    requires
        holds_boot_tables(mem, f, kernel_phys, kernel_size),
        f.len() == 12,
        forall|i: int| 0 <= i < 12 ==> #[trigger] f[i] < 0x100_0000_0000,
        0 <= virt < 0x1_0000_0000,
    ensures
        virt < 0x20_0000 ==> access(mem, f[0], virt) is None,
        0x20_0000 <= virt ==> access(mem, f[0], virt) == Some(
            Access { pa: virt, user: true, write: true, execute: true },
        ),
{
    reveal(access);
    let i = virt / 0x4000_0000;
    let j = (virt / 0x20_0000) % 512;
    let e0 = entry_at(mem, f[0], 0);
    let e1 = entry_at(mem, f[1], i);
    let e2 = entry_at(mem, f[3 + i], j);
    assert(f[1] < 0x100_0000_0000 && f[3 + i] < 0x100_0000_0000);
    lemma_entry_bits((f[1] * 0x1000) as u64, 7);
    lemma_entry_bits((f[3 + i] * 0x1000) as u64, 7);
    assert(e0 == boot_entry(f, kernel_phys, kernel_size, 0, 0));
    assert(e1 == boot_entry(f, kernel_phys, kernel_size, 1, i));
    assert(e2 == boot_entry(f, kernel_phys, kernel_size, 3 + i, j));
    entries_mean_what_the_processor_reads(e0);
    entries_mean_what_the_processor_reads(e1);
    entries_mean_what_the_processor_reads(e2);
    assert((virt / 0x4000_0000) % 512 == i);
    assert((virt / 0x80_0000_0000) % 512 == 0);
    assert(passed(mem, f[0] as int, virt, 0x80_0000_0000) == e0);
    assert(passed(mem, f[1] as int, virt, 0x4000_0000) == e1);
    assert(passed(mem, f[3 + i] as int, virt, 0x20_0000) == e2);
    if virt >= 0x20_0000 {
        let a = (i * 0x4000_0000 + j * 0x20_0000) as u64;
        lemma_entry_bits(a, 0x87);
        assert(a == virt / 0x20_0000 * 0x20_0000);
    }
}

/// With the first page tables every address of the kernel image leads to where the image
/// was loaded, and only the kernel can use it.
pub proof fn boot_tables_reach_the_kernel(
    mem: Frames,
    f: Seq<u64>,
    kernel_phys: int,
    kernel_size: int,
    at: int,
)
    requires
        holds_boot_tables(mem, f, kernel_phys, kernel_size),
        f.len() == 12,
        forall|i: int| 0 <= i < 12 ==> #[trigger] f[i] < 0x100_0000_0000,
        0 <= kernel_phys,
        kernel_phys % 0x1000 == 0,
        kernel_phys + 0x80_0000 <= 0x10_0000_0000_0000,
        kernel_size <= 0x80_0000,
        0 <= at < kernel_size,
    ensures
        access(mem, f[0], 0xffff_8000_0000 + at) == Some(
            Access { pa: kernel_phys + at, user: false, write: true, execute: true },
        ),
{
    reveal(access);
    let virt = 0xffff_8000_0000 + at;
    let page = at / 0x1000;
    let k = page / 512;
    let j = page % 512;
    let e0 = entry_at(mem, f[0], 511);
    let e1 = entry_at(mem, f[2], 510);
    let e2 = entry_at(mem, f[7], k);
    let e3 = entry_at(mem, f[8 + k], j);
    assert(f[2] < 0x100_0000_0000 && f[7] < 0x100_0000_0000 && f[8 + k] < 0x100_0000_0000);
    lemma_entry_bits((f[2] * 0x1000) as u64, 3);
    lemma_entry_bits((f[7] * 0x1000) as u64, 3);
    lemma_entry_bits((f[8 + k] * 0x1000) as u64, 3);
    assert(e0 == boot_entry(f, kernel_phys, kernel_size, 0, 511));
    assert(e1 == boot_entry(f, kernel_phys, kernel_size, 2, 510));
    assert(e2 == boot_entry(f, kernel_phys, kernel_size, 7, k));
    assert(e3 == boot_entry(f, kernel_phys, kernel_size, 8 + k, j));
    entries_mean_what_the_processor_reads(e0);
    entries_mean_what_the_processor_reads(e1);
    entries_mean_what_the_processor_reads(e2);
    entries_mean_what_the_processor_reads(e3);
    lemma_kernel_indexes(at);
    lemma_low_bits(KERNEL_BASE + at);
    assert((KERNEL_BASE + at) % 0x1_0000_0000_0000 == virt);
    assert(passed(mem, f[0] as int, virt, 0x80_0000_0000) == e0);
    assert(passed(mem, f[2] as int, virt, 0x4000_0000) == e1);
    assert(passed(mem, f[7] as int, virt, 0x20_0000) == e2);
    assert(passed(mem, f[8 + k] as int, virt, 0x1000) == e3);
    let a = (kernel_phys + page * 0x1000) as u64;
    lemma_entry_bits(a, 3);
}

} // verus!
