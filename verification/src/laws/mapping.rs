//! What mapping and unmapping pages changes for the processor.
use vstd::prelude::*;
use super::addresses::flushed_address_is_that_of_the_page;
use super::machine::{
    access, bit_no_execute, bit_user, bit_write, byte_at, entries_mean_what_the_processor_reads,
    frames_are_bytes, rights_are_enforced, unmapped_pages_fault, Access,
};
use super::spaces::areas_are_reached;
use crate::mm::address::PPN_LIMIT;
use crate::mm::frame_allocator::FramePool;
use crate::mm::map_area::{initial_byte, page_addresses, AreaView};
use crate::mm::memory_set::{
    area_appended, area_index, area_removed, area_shrunk, config, framed_area, pushed, MemorySet,
};
use crate::mm::page_table::{
    page_address, page_mapped, page_unmapped, pte_reads_back, pte_word, pte_word_valid, PageTable,
    PTE_ALL, PTE_V,
};
use crate::mm::phys::{cleared_frame_bytes, PhysMemory};
use crate::mm::rights::{leaf_entry_decides, perm_rights};
use crate::mm::table_tree::{mapped, own_page};

verus! {

/// What the processor makes of an address does not change as long as the leaf entry of
/// its page does not.
proof fn lemma_same_access<M: PhysMemory>(
    table: &PageTable,
    pool: &FramePool<M>,
    table0: &PageTable,
    pool0: &FramePool<M>,
    va: int,
)
    requires
        table.wf(pool),
        table0.wf(pool0),
        0 <= va < 0x1_0000_0000_0000,
        own_page(table.slots(), va / 0x1000),
        own_page(table0.slots(), va / 0x1000),
        table.mapped(pool, va / 0x1000) == table0.mapped(pool0, va / 0x1000),
    ensures
        access(pool.frames(), table.root(), va) == access(pool0.frames(), table0.root(), va),
{
    let v = va / 0x1000;
    if table.mapped(pool, v) is Some {
        leaf_entry_decides(pool.frames(), table.root(), table.slots(), table.table_frames(), v);
        leaf_entry_decides(pool0.frames(), table0.root(), table0.slots(), table0.table_frames(), v);
        rights_are_enforced(pool.frames(), table.root(), va);
        rights_are_enforced(pool0.frames(), table0.root(), va);
    } else {
        unmapped_pages_fault(pool.frames(), table.root(), table.slots(), table.table_frames(), va);
        unmapped_pages_fault(
            pool0.frames(),
            table0.root(),
            table0.slots(),
            table0.table_frames(),
            va,
        );
    }
}

/// The flags of an entry that was made of a frame and flags.
proof fn lemma_flags(ppn: u64, flags: u64)
    requires
        ppn < PPN_LIMIT,
        flags & !PTE_ALL == 0,
    ensures
        bit_user(pte_word(ppn, flags | PTE_V)) == bit_user(flags),
        bit_write(pte_word(ppn, flags | PTE_V)) == bit_write(flags),
        bit_no_execute(pte_word(ppn, flags | PTE_V)) == bit_no_execute(flags),
        (flags | PTE_V) & !PTE_ALL == 0,
{
    let w = pte_word(ppn, flags | PTE_V);
    assert({
        let w = (ppn << 12) | (flags | 1);
        &&& (w & 4 != 0) == (flags & 4 != 0)
        &&& (w & 2 != 0) == (flags & 2 != 0)
        &&& (w & 0x8000_0000_0000_0000 != 0) == (flags & 0x8000_0000_0000_0000 != 0)
        &&& (flags | 1) & !0x8000_0000_0000_0087u64 == 0
    }) by (bit_vector)
        requires
            ppn < 0x100_0000_0000,
            flags & !0x8000_0000_0000_0087u64 == 0,
    ;
    entries_mean_what_the_processor_reads(w);
    entries_mean_what_the_processor_reads(flags);
}

/// An address of a page that was mapped leads to the frame that was given, and the flags
/// that were given decide what can be done there: bit 2 allows access from user mode, bit
/// 1 writes, and bit 63 forbids execution.
pub proof fn mapped_page_is_reached<M: PhysMemory>(
    table: &PageTable,
    pool: &FramePool<M>,
    table0: &PageTable,
    pool0: &FramePool<M>,
    vpn: u64,
    ppn: u64,
    flags: u64,
    va: int,
)
    requires
        page_mapped(table, pool, table0, pool0, vpn, ppn, flags),
        0 <= va < 0x1_0000_0000_0000,
        va / 0x1000 == vpn,
        ppn < PPN_LIMIT,
        flags & !PTE_ALL == 0,
    ensures
        access(pool.frames(), table.root(), va) == Some(
            Access {
                pa: ppn * 0x1000 + va % 0x1000,
                user: (flags as int / 4) % 2 == 1,
                write: (flags as int / 2) % 2 == 1,
                execute: flags < 0x8000_0000_0000_0000,
            },
        ),
{
    rights_are_enforced(pool.frames(), table.root(), va);
    lemma_flags(ppn, flags);
    pte_reads_back(ppn, flags | PTE_V);
    entries_mean_what_the_processor_reads(pte_word(ppn, flags | PTE_V));
}

/// Mapping a page changes nothing for addresses of other pages.
pub proof fn mapping_leaves_other_pages<M: PhysMemory>(
    table: &PageTable,
    pool: &FramePool<M>,
    table0: &PageTable,
    pool0: &FramePool<M>,
    vpn: u64,
    ppn: u64,
    flags: u64,
    va: int,
)
    requires
        table.wf(pool),
        table0.wf(pool0),
        table.slots() == table0.slots(),
        page_mapped(table, pool, table0, pool0, vpn, ppn, flags),
        0 <= va < 0x1_0000_0000_0000,
        own_page(table0.slots(), va / 0x1000),
        va / 0x1000 != vpn,
    ensures
        access(pool.frames(), table.root(), va) == access(pool0.frames(), table0.root(), va),
{
    lemma_same_access(table, pool, table0, pool0, va);
}

/// On an address of a page that was unmapped the processor raises a page fault, and for
/// other pages nothing changes.
pub proof fn unmapped_page_is_not_reached<M: PhysMemory>(
    table: &PageTable,
    pool: &FramePool<M>,
    table0: &PageTable,
    pool0: &FramePool<M>,
    vpn: u64,
    va: int,
)
    requires
        table.wf(pool),
        table0.wf(pool0),
        table.slots() == table0.slots(),
        page_unmapped(table, pool, table0, pool0, vpn),
        0 <= va < 0x1_0000_0000_0000,
        own_page(table0.slots(), va / 0x1000),
    ensures
        va / 0x1000 == vpn ==> access(pool.frames(), table.root(), va) is None,
        va / 0x1000 != vpn ==> access(pool.frames(), table.root(), va) == access(
            pool0.frames(),
            table0.root(),
            va,
        ),
{
    if va / 0x1000 == vpn {
        unmapped_pages_fault(pool.frames(), table.root(), table.slots(), table.table_frames(), va);
    } else {
        lemma_same_access(table, pool, table0, pool0, va);
    }
}

/// What permissions allow, by their bits: bit 2 allows writes, bit 3 execution, and bit 4
/// access from user mode.
pub proof fn permissions_allow_what_they_say(perm: u8)
    ensures
        perm_rights(perm).write == ((perm as int / 4) % 2 == 1),
        perm_rights(perm).execute == ((perm as int / 8) % 2 == 1),
        perm_rights(perm).user == ((perm as int / 16) % 2 == 1),
{
    assert({
        &&& (perm & 4 == 4) == ((perm / 4) % 2 == 1)
        &&& (perm & 8 == 8) == ((perm / 8) % 2 == 1)
        &&& (perm & 16 == 16) == ((perm / 16) % 2 == 1)
    }) by (bit_vector);
}

/// After an area was mapped from `start` to `end`, every address on its pages leads to a
/// zero, and the permissions decide what can be done there.
pub proof fn inserted_area_is_reached<M: PhysMemory>(
    ms: &MemorySet,
    pool: &FramePool<M>,
    ms0: &MemorySet,
    pool0: &FramePool<M>,
    start: int,
    end: int,
    perm: u8,
    va: int,
)
    requires
        pool.wf(),
        ms.wf(pool),
        pushed(ms, pool, ms0, pool0, framed_area(start, end, perm), None),
        0 <= start,
        start / 0x1000 * 0x1000 <= va < (end + 0xfff) / 0x1000 * 0x1000,
        va < 0x1_0000_0000_0000,
    ensures
        access(pool.frames(), ms.root(), va) matches Some(a) && {
            &&& a.write == ((perm as int / 4) % 2 == 1)
            &&& a.execute == ((perm as int / 8) % 2 == 1)
            &&& a.user == ((perm as int / 16) % 2 == 1)
            &&& byte_at(pool.frames(), a.pa) == 0
        },
{
    let n = ms0.areas().len() as int;
    let area = framed_area(start, end, perm);
    let new = ms.areas()[n];
    assert(ms.areas()[n] == ms0.areas().push(new)[n]);
    assert(config(new) == area);
    assert(config(new).start == new.start && config(new).end == new.end && config(new).perm
        == new.perm && config(new).map_type == new.map_type);
    let v = va / 0x1000;
    assert(new.contains(v));
    areas_are_reached(ms, pool, n, va);
    permissions_allow_what_they_say(perm);
    frames_are_bytes(pool.frames(), new.data[v], va % 0x1000);
    assert(initial_byte(None, (v - new.start) * 0x1000 + va % 0x1000) == 0);
}

/// Mapping an area changes nothing for addresses outside of it.
pub proof fn inserting_leaves_other_addresses<M: PhysMemory>(
    ms: &MemorySet,
    pool: &FramePool<M>,
    ms0: &MemorySet,
    pool0: &FramePool<M>,
    area: AreaView,
    data: Option<Seq<u8>>,
    va: int,
)
    requires
        ms.wf(pool),
        ms0.wf(pool0),
        pushed(ms, pool, ms0, pool0, area, data),
        0 <= va < 0x1_0000_0000_0000,
        own_page(ms0.table().slots(), va / 0x1000),
        !(area.start * 0x1000 <= va < area.end * 0x1000),
    ensures
        access(pool.frames(), ms.root(), va) == access(pool0.frames(), ms0.root(), va),
{
    let v = va / 0x1000;
    assert(!area.contains(v));
    assert(ms.table().leaf(pool, v) is Some || ms.table().leaf(pool, v) is None);
    pte_word_valid(0, 0);
    lemma_same_access(&ms.table(), pool, &ms0.table(), pool0, va);
}

/// The first area with this start.
pub proof fn lemma_index(areas: Seq<AreaView>, start: int, from: int)
    requires
        0 <= from <= areas.len(),
    ensures
        ({
            let i = area_index(areas, start, from);
            &&& from <= i <= areas.len()
            &&& i < areas.len() ==> areas[i].start == start
            &&& forall|j: int| from <= j < i ==> (#[trigger] areas[j]).start != start
        }),
    decreases areas.len() - from,
{
    if from < areas.len() {
        lemma_index(areas, start, from + 1);
    }
}

/// After the area that starts at page `start` was taken out, the processor raises a page
/// fault on each of its addresses, and for all others nothing changes. If there is no
/// such area, nothing changes at all.
pub proof fn removed_area_is_not_reached<M: PhysMemory>(
    ms: &MemorySet,
    pool: &FramePool<M>,
    ms0: &MemorySet,
    pool0: &FramePool<M>,
    start: int,
    k: int,
    va: int,
)
    requires
        ms.wf(pool),
        ms0.wf(pool0),
        area_removed(ms, pool, ms0, pool0, start),
        0 <= va < 0x1_0000_0000_0000,
        own_page(ms0.table().slots(), va / 0x1000),
        0 <= k <= ms0.areas().len(),
        k < ms0.areas().len() ==> ms0.areas()[k].start == start,
        forall|j: int| 0 <= j < k ==> (#[trigger] ms0.areas()[j]).start != start,
    ensures
        k < ms0.areas().len() && ms0.areas()[k].contains(va / 0x1000) ==> access(
            pool.frames(),
            ms.root(),
            va,
        ) is None,
        k == ms0.areas().len() || !ms0.areas()[k].contains(va / 0x1000) ==> access(
            pool.frames(),
            ms.root(),
            va,
        ) == access(pool0.frames(), ms0.root(), va),
{
    let v = va / 0x1000;
    lemma_index(ms0.areas(), start, 0);
    pte_word_valid(0, 0);
    if k < ms0.areas().len() {
        assert(area_index(ms0.areas(), start, 0) == k);
        assert(ms.table().leaf(pool, v) == (if ms0.areas()[k].start <= v < ms0.areas()[k].end {
            Some(0u64)
        } else {
            ms0.table().leaf(pool0, v)
        }));
        if ms0.areas()[k].contains(v) {
            unmapped_pages_fault(
                pool.frames(),
                ms.root(),
                ms.table().slots(),
                ms.table().table_frames(),
                va,
            );
        } else {
            lemma_same_access(&ms.table(), pool, &ms0.table(), pool0, va);
        }
    }
}

/// After the area that starts in the page of `start` was cut off at `new_end`, the
/// processor raises a page fault on the addresses of its pages from there on, and for all
/// others nothing changes.
pub proof fn shrunk_area_ends_earlier<M: PhysMemory>(
    ms: &MemorySet,
    pool: &FramePool<M>,
    ms0: &MemorySet,
    pool0: &FramePool<M>,
    start: int,
    new_end: int,
    r: bool,
    k: int,
    va: int,
)
    requires
        ms.wf(pool),
        ms0.wf(pool0),
        area_shrunk(ms, pool, ms0, pool0, start, new_end, r),
        0 <= va < 0x1_0000_0000_0000,
        own_page(ms0.table().slots(), va / 0x1000),
        0 <= k < ms0.areas().len(),
        ms0.areas()[k].start == start / 0x1000,
        forall|j: int| 0 <= j < k ==> (#[trigger] ms0.areas()[j]).start != start / 0x1000,
    ensures
        r,
        (new_end + 0xfff) / 0x1000 * 0x1000 <= va < ms0.areas()[k].end * 0x1000 ==> access(
            pool.frames(),
            ms.root(),
            va,
        ) is None,
        !((new_end + 0xfff) / 0x1000 * 0x1000 <= va < ms0.areas()[k].end * 0x1000) ==> access(
            pool.frames(),
            ms.root(),
            va,
        ) == access(pool0.frames(), ms0.root(), va),
{
    let v = va / 0x1000;
    let e = (new_end + 0xfff) / 0x1000;
    lemma_index(ms0.areas(), start / 0x1000, 0);
    pte_word_valid(0, 0);
    assert(area_index(ms0.areas(), start / 0x1000, 0) == k);
    assert(ms.table().leaf(pool, v) == (if e <= v < ms0.areas()[k].end {
        Some(0u64)
    } else {
        ms0.table().leaf(pool0, v)
    }));
    if e <= v < ms0.areas()[k].end {
        unmapped_pages_fault(
            pool.frames(),
            ms.root(),
            ms.table().slots(),
            ms.table().table_frames(),
            va,
        );
    } else {
        lemma_same_access(&ms.table(), pool, &ms0.table(), pool0, va);
    }
}

/// After the area that starts in the page of `start` was let go up to `new_end`, the
/// addresses that it gained lead to zeros and can be used as its permissions say. For all
/// other addresses nothing changes.
pub proof fn grown_area_ends_later<M: PhysMemory>(
    ms: &MemorySet,
    pool: &FramePool<M>,
    ms0: &MemorySet,
    pool0: &FramePool<M>,
    start: int,
    new_end: int,
    r: bool,
    k: int,
    va: int,
)
    requires
        pool.wf(),
        ms.wf(pool),
        ms0.wf(pool0),
        area_appended(ms, pool, ms0, pool0, start, new_end, r),
        0 <= va < 0x1_0000_0000_0000,
        own_page(ms0.table().slots(), va / 0x1000),
        0 <= k < ms0.areas().len(),
        ms0.areas()[k].framed(),
        ms0.areas()[k].start == start / 0x1000,
        forall|j: int| 0 <= j < k ==> (#[trigger] ms0.areas()[j]).start != start / 0x1000,
    ensures
        r,
        ({
            let perm = ms0.areas()[k].perm as int;
            let gained = ms0.areas()[k].end * 0x1000 <= va < (new_end + 0xfff) / 0x1000 * 0x1000;
            &&& gained ==> (access(pool.frames(), ms.root(), va) matches Some(a) && {
                &&& a.write == ((perm / 4) % 2 == 1)
                &&& a.execute == ((perm / 8) % 2 == 1)
                &&& a.user == ((perm / 16) % 2 == 1)
                &&& byte_at(pool.frames(), a.pa) == 0
            })
            &&& !gained ==> access(pool.frames(), ms.root(), va) == access(
                pool0.frames(),
                ms0.root(),
                va,
            )
        }),
{
    let v = va / 0x1000;
    let e = (new_end + 0xfff) / 0x1000;
    lemma_index(ms0.areas(), start / 0x1000, 0);
    assert(area_index(ms0.areas(), start / 0x1000, 0) == k);
    let area0 = ms0.areas()[k];
    let area = ms.areas()[k];
    assert(ms0.areas()[k].wf());
    if area0.end <= v < e {
        assert(area.contains(v));
        areas_are_reached(ms, pool, k, va);
        permissions_allow_what_they_say(area.perm);
        frames_are_bytes(pool.frames(), area.data[v], va % 0x1000);
        cleared_frame_bytes(va % 0x1000);
    } else {
        pte_word_valid(0, 0);
        assert(ms.table().leaf(pool, v) is Some || ms.table().leaf(pool, v) is None);
        lemma_same_access(&ms.table(), pool, &ms0.table(), pool0, va);
    }
}

/// The address of every page of an area that was taken out is listed to be flushed, after
/// those that were listed before.
pub proof fn removed_pages_are_flushed<M: PhysMemory>(
    ms: &MemorySet,
    pool: &FramePool<M>,
    ms0: &MemorySet,
    pool0: &FramePool<M>,
    start: int,
    k: int,
    v: int,
)
    requires
        area_removed(ms, pool, ms0, pool0, start),
        ms0.wf(pool0),
        0 <= k < ms0.areas().len(),
        ms0.areas()[k].start == start,
        forall|j: int| 0 <= j < k ==> (#[trigger] ms0.areas()[j]).start != start,
        ms0.areas()[k].contains(v),
    ensures
        ({
            let stale = ms.table().stale();
            let n = ms0.table().stale().len() as int;
            &&& 0 <= n + v - start < stale.len()
            &&& stale[n + v - start] as int % 0x1_0000_0000_0000 == v * 0x1000
            &&& stale[n + v - start] < 0x8000_0000_0000 || stale[n + v - start]
                >= 0xffff_8000_0000_0000
            &&& forall|i: int| 0 <= i < n ==> #[trigger] stale[i] == ms0.table().stale()[i]
        }),
{
    lemma_index(ms0.areas(), start, 0);
    assert(area_index(ms0.areas(), start, 0) == k);
    assert(ms0.areas()[k].wf());
    let n = ms0.table().stale().len() as int;
    let flushed = page_addresses(start, ms0.areas()[k].end);
    assert(ms.table().stale() == ms0.table().stale() + flushed);
    assert(ms.table().stale()[n + v - start] == flushed[v - start]);
    assert(flushed[v - start] == page_address(v));
    flushed_address_is_that_of_the_page(v);
}

} // verus!
