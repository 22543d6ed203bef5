//! The processor's own view of page tables: how it gets from an address to a byte of
//! physical memory, and what it allows on the way.
//!
//! Everything here is arithmetic on the words in memory, as the manual of the processor
//! describes a walk. It says what page tables mean, whoever wrote them.
use vstd::prelude::*;
use crate::mm::page_table::{pte_ppn, pte_valid, PTE_NX, PTE_PS, PTE_U, PTE_W};
use crate::mm::phys::{frame_byte, word_byte, Frames};
use crate::mm::rights::{page_rights, walk_entry};
use crate::mm::table_tree::{
    lemma_prefix, link, mapped, open_link, own, own_page, prefix, table_at, tree_wf,
};

verus! {

/// What the processor makes of an address: where it leads, and what can be done there.
pub struct Access {
    /// the physical address
    pub pa: int,
    /// it can be used from user mode
    pub user: bool,
    /// it can be written
    pub write: bool,
    /// code can be fetched from it
    pub execute: bool,
}

/// Whether bit 0 of an entry is set: it is present.
pub open spec fn bit_present(e: u64) -> bool {
    e % 2 == 1
}

/// Whether bit 1 of an entry is set: it allows writes.
pub open spec fn bit_write(e: u64) -> bool {
    (e as int / 2) % 2 == 1
}

/// Whether bit 2 of an entry is set: it allows access from user mode.
pub open spec fn bit_user(e: u64) -> bool {
    (e as int / 4) % 2 == 1
}

/// Whether bit 7 of an entry is set: above the last level it stands for a large page.
pub open spec fn bit_large(e: u64) -> bool {
    (e as int / 128) % 2 == 1
}

/// Whether bit 63 of an entry is set: it forbids execution.
pub open spec fn bit_no_execute(e: u64) -> bool {
    e >= 0x8000_0000_0000_0000
}

/// The number in bits 12 to 51 of an entry: the frame that it leads to.
pub open spec fn bits_frame(e: u64) -> int {
    (e as int / 4096) % 0x100_0000_0000
}

/// The entry that a walk to `va` passes in the table in `frame`, whose entries stand for
/// `size` bytes each.
pub open spec fn passed(mem: Frames, frame: int, va: int, size: int) -> u64 {
    mem[frame as u64][(va / size) % 512]
}

/// What the entries passed so far allow, and one more.
pub open spec fn narrowed(a: Access, e: u64) -> Access {
    Access {
        pa: a.pa,
        user: a.user && bit_user(e),
        write: a.write && bit_write(e),
        execute: a.execute && !bit_no_execute(e),
    }
}

/// What the processor makes of virtual address `va` under the tables of `root`, or `None`
/// if it raises a page fault. Addresses are given by their low 48 bits.
#[verifier::opaque]
pub open spec fn access(mem: Frames, root: u64, va: int) -> Option<Access> {
    let all = Access { pa: 0, user: true, write: true, execute: true };
    let e0 = passed(mem, root as int, va, 0x80_0000_0000);
    let e1 = passed(mem, bits_frame(e0), va, 0x4000_0000);
    let e2 = passed(mem, bits_frame(e1), va, 0x20_0000);
    let e3 = passed(mem, bits_frame(e2), va, 0x1000);
    let a1 = narrowed(narrowed(all, e0), e1);
    let a2 = narrowed(a1, e2);
    if !bit_present(e0) || bit_large(e0) || !bit_present(e1) {
        None
    } else if bit_large(e1) {
        Some(
            Access {
                pa: bits_frame(e1) * 0x1000 / 0x4000_0000 * 0x4000_0000 + va % 0x4000_0000,
                ..a1
            },
        )
    } else if !bit_present(e2) {
        None
    } else if bit_large(e2) {
        Some(
            Access {
                pa: bits_frame(e2) * 0x1000 / 0x20_0000 * 0x20_0000 + va % 0x20_0000,
                ..a2
            },
        )
    } else if !bit_present(e3) {
        None
    } else {
        Some(Access { pa: bits_frame(e3) * 0x1000 + va % 0x1000, ..narrowed(a2, e3) })
    }
}

/// The byte at physical address `pa`. The lowest byte of a word comes first.
#[verifier::opaque]
pub open spec fn byte_at(mem: Frames, pa: int) -> int {
    let w = mem[(pa / 0x1000) as u64][(pa % 0x1000) / 8] as int;
    let k = pa % 8;
    if k == 0 {
        w % 256
    } else if k == 1 {
        (w / 0x100) % 256
    } else if k == 2 {
        (w / 0x1_0000) % 256
    } else if k == 3 {
        (w / 0x100_0000) % 256
    } else if k == 4 {
        (w / 0x1_0000_0000) % 256
    } else if k == 5 {
        (w / 0x100_0000_0000) % 256
    } else if k == 6 {
        (w / 0x1_0000_0000_0000) % 256
    } else {
        (w / 0x100_0000_0000_0000) % 256
    }
}

/// The flags and the frame of an entry are the bits that the processor looks at.
pub proof fn entries_mean_what_the_processor_reads(e: u64)
    ensures
        pte_valid(e) == bit_present(e),
        (e & PTE_W != 0) == bit_write(e),
        (e & PTE_U != 0) == bit_user(e),
        (e & PTE_PS != 0) == bit_large(e),
        (e & PTE_NX != 0) == bit_no_execute(e),
        pte_ppn(e) == bits_frame(e),
{
    assert({
        &&& (e & 1 != 0) == (e % 2 == 1)
        &&& (e & 2 != 0) == ((e / 2) % 2 == 1)
        &&& (e & 4 != 0) == ((e / 4) % 2 == 1)
        &&& (e & 0x80 != 0) == ((e / 128) % 2 == 1)
        &&& (e & 0x8000_0000_0000_0000 != 0) == (e >= 0x8000_0000_0000_0000)
        &&& (e & 0x000F_FFFF_FFFF_F000u64) >> 12 == (e / 4096) % 0x100_0000_0000
    }) by (bit_vector);
}

/// The bytes of a word are its digits to base 256.
pub proof fn words_are_little_endian(w: u64)
    ensures
        word_byte(w, 0) == w % 256,
        word_byte(w, 1) == (w as int / 0x100) % 256,
        word_byte(w, 2) == (w as int / 0x1_0000) % 256,
        word_byte(w, 3) == (w as int / 0x100_0000) % 256,
        word_byte(w, 4) == (w as int / 0x1_0000_0000) % 256,
        word_byte(w, 5) == (w as int / 0x100_0000_0000) % 256,
        word_byte(w, 6) == (w as int / 0x1_0000_0000_0000) % 256,
        word_byte(w, 7) == (w as int / 0x100_0000_0000_0000) % 256,
{
    assert({
        &&& ((w >> 0) & 0xff) == w % 256
        &&& ((w >> 8) & 0xff) == (w / 0x100) % 256
        &&& ((w >> 16) & 0xff) == (w / 0x1_0000) % 256
        &&& ((w >> 24) & 0xff) == (w / 0x100_0000) % 256
        &&& ((w >> 32) & 0xff) == (w / 0x1_0000_0000) % 256
        &&& ((w >> 40) & 0xff) == (w / 0x100_0000_0000) % 256
        &&& ((w >> 48) & 0xff) == (w / 0x1_0000_0000_0000) % 256
        &&& ((w >> 56) & 0xff) == (w / 0x100_0000_0000_0000) % 256
    }) by (bit_vector);
}

/// A byte of a frame is the byte at its physical address.
pub proof fn frames_are_bytes(mem: Frames, frame: u64, j: int)
    requires
        0 <= j < 0x1000,
    ensures
        frame_byte(mem[frame], j) == byte_at(mem, frame * 0x1000 + j),
{
    reveal(byte_at);
    let pa = frame * 0x1000 + j;
    assert(pa / 0x1000 == frame && pa % 0x1000 == j && pa % 8 == j % 8);
    words_are_little_endian(mem[frame][j / 8]);
}

/// The entries that a walk passes, where no large page ends it early.
proof fn lemma_passed(mem: Frames, root: u64, va: int)
    requires
        0 <= va < 0x1_0000_0000_0000,
        mapped(mem, root, va / 0x1000) is Some,
    ensures
        ({
            let v = va / 0x1000;
            let e0 = passed(mem, root as int, va, 0x80_0000_0000);
            let e1 = passed(mem, bits_frame(e0), va, 0x4000_0000);
            let e2 = passed(mem, bits_frame(e1), va, 0x20_0000);
            let e3 = passed(mem, bits_frame(e2), va, 0x1000);
            &&& walk_entry(mem, root, v, 0) == e0 && bit_present(e0)
            &&& walk_entry(mem, root, v, 1) == e1 && bit_present(e1)
            &&& walk_entry(mem, root, v, 2) == e2 && bit_present(e2)
            &&& walk_entry(mem, root, v, 3) == e3 && bit_present(e3)
            &&& mapped(mem, root, v) == Some(e3)
        }),
{
    let v = va / 0x1000;
    reveal_with_fuel(table_at, 4);
    lemma_prefix(512, v, 0);
    lemma_prefix(512, v, 1);
    lemma_prefix(512, v, 2);
    lemma_prefix(512, v, 3);
    assert(v / 0x800_0000 == va / 0x80_0000_0000);
    assert(v / 0x4_0000 == va / 0x4000_0000);
    assert(v / 512 == va / 0x20_0000);
    let e0 = walk_entry(mem, root, v, 0);
    let e1 = walk_entry(mem, root, v, 1);
    let e2 = walk_entry(mem, root, v, 2);
    let e3 = walk_entry(mem, root, v, 3);
    entries_mean_what_the_processor_reads(e0);
    entries_mean_what_the_processor_reads(e1);
    entries_mean_what_the_processor_reads(e2);
    entries_mean_what_the_processor_reads(e3);
}

/// The rights on a page are what the processor allows, and a mapped page lies where its
/// leaf entry says.
pub proof fn rights_are_enforced(mem: Frames, root: u64, va: int)
    requires
        0 <= va < 0x1_0000_0000_0000,
        page_rights(mem, root, va / 0x1000) is Some,
    ensures
        ({
            let rights = page_rights(mem, root, va / 0x1000)->Some_0;
            let frame = pte_ppn(mapped(mem, root, va / 0x1000)->Some_0);
            access(mem, root, va) == Some(
                Access {
                    pa: frame * 0x1000 + va % 0x1000,
                    user: rights.user,
                    write: rights.write,
                    execute: rights.execute,
                },
            )
        }),
{
    reveal(access);
    let v = va / 0x1000;
    lemma_passed(mem, root, va);
    let e0 = walk_entry(mem, root, v, 0);
    let e1 = walk_entry(mem, root, v, 1);
    let e2 = walk_entry(mem, root, v, 2);
    let e3 = walk_entry(mem, root, v, 3);
    entries_mean_what_the_processor_reads(e0);
    entries_mean_what_the_processor_reads(e1);
    entries_mean_what_the_processor_reads(e2);
    entries_mean_what_the_processor_reads(e3);
    assert(e0 & PTE_PS == 0 && e1 & PTE_PS == 0 && e2 & PTE_PS == 0);
    let rights = page_rights(mem, root, v)->Some_0;
    let user = bit_user(e0) && bit_user(e1) && bit_user(e2) && bit_user(e3);
    let write = bit_write(e0) && bit_write(e1) && bit_write(e2) && bit_write(e3);
    let execute = !(bit_no_execute(e0) || bit_no_execute(e1) || bit_no_execute(e2)
        || bit_no_execute(e3));
    assert forall|k: int| 0 <= k <= 3 implies {
        let e = #[trigger] walk_entry(mem, root, v, k);
        e == e0 || e == e1 || e == e2 || e == e3
    } by {
        assert(k == 0 || k == 1 || k == 2 || k == 3);
    }
    assert(rights.user == user);
    assert(rights.write == write);
    assert(rights.execute == execute);
}

/// On an address whose page is not mapped the processor raises a page fault.
pub proof fn unmapped_pages_fault(mem: Frames, root: u64, slots: int, frames: Set<u64>, va: int)
    requires
        tree_wf(mem, root, slots, frames),
        0 <= va < 0x1_0000_0000_0000,
        own_page(slots, va / 0x1000),
        mapped(mem, root, va / 0x1000) is None,
    ensures
        access(mem, root, va) is None,
{
    reveal(access);
    let v = va / 0x1000;
    reveal_with_fuel(table_at, 4);
    lemma_prefix(slots, v, 0);
    lemma_prefix(slots, v, 1);
    lemma_prefix(slots, v, 2);
    lemma_prefix(slots, v, 3);
    assert(v / 0x800_0000 == va / 0x80_0000_0000);
    assert(v / 0x4_0000 == va / 0x4000_0000);
    assert(v / 512 == va / 0x20_0000);
    let e0 = walk_entry(mem, root, v, 0);
    let e1 = walk_entry(mem, root, v, 1);
    let e2 = walk_entry(mem, root, v, 2);
    let e3 = walk_entry(mem, root, v, 3);
    entries_mean_what_the_processor_reads(e0);
    entries_mean_what_the_processor_reads(e1);
    entries_mean_what_the_processor_reads(e2);
    entries_mean_what_the_processor_reads(e3);
    if table_at(mem, root, 1, prefix(v, 1)) is Some && table_at(mem, root, 2, prefix(v, 2)) is Some {
        assert(e1 == link(mem, root, 2, prefix(v, 2)));
        assert(own(slots, 2, prefix(v, 2)));
        assert(open_link(e1));
        if table_at(mem, root, 3, prefix(v, 3)) is Some {
            assert(e2 == link(mem, root, 3, prefix(v, 3)));
            assert(own(slots, 3, prefix(v, 3)));
            assert(open_link(e2));
            lemma_open(e2);
        }
        lemma_open(e1);
    }
}

/// An entry above the leaf stands for no large page.
proof fn lemma_open(w: u64)
    requires
        open_link(w),
    ensures
        w & PTE_PS == 0,
{
    assert(w & 0x8000_0000_0000_0087 == 1u64 | 2u64 | 4u64 ==> w & 0x80 == 0) by (bit_vector);
}

} // verus!
