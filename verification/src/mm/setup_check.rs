//! Telling whether memory can be set up when the machine starts.
use vstd::prelude::*;
use super::address::{PhysAddr, VirtAddr, PA_LIMIT, VA_LIMIT};
use super::budget::{pages_of_areas, spend_areas};
use super::elf::Segment;
use super::elf_check::{check_apart, lemma_apart, pages_apart, pages_of};
use super::frame_allocator::{
    allocatable_ranges, allocator_manages_its_ranges, allocator_over, in_ranges,
    init_frame_allocator, kernel_end_page, kernel_first_page, memmap_ok, FrameDequeAllocator,
    MEMMAP_USABLE,
};
use super::map_area::{AreaView, MapType};
use super::memory_set::{
    areas_mappable, areas_needed, bare_tables, kernel_areas, kernel_offset, KernelLayout,
};
use super::phys::PhysMemory;
use crate::config::{KERNEL_BASE, LAPIC_BASE, MEMORY_END, PAGE_SIZE};
use crate::limine_reqs::LimineMemmapEntry;

verus! {

/// Whether memory can be set up: the memory map is proper, the kernel image lies where it
/// can, the frames beside it exist, and they suffice for the kernel's address space.
pub open spec fn can_set_up<M: PhysMemory>(
    mem: &M,
    entries: Seq<LimineMemmapEntry>,
    kernel_phys: u64,
    kernel_size: u64,
    layout: KernelLayout,
    phys_offset: u64,
) -> bool {
    let ranges = allocatable_ranges(entries, kernel_phys, kernel_size);
    let areas = kernel_areas(layout, kernel_phys, phys_offset);
    &&& memmap_ok(entries)
    &&& kernel_phys + kernel_size <= u64::MAX
    &&& kernel_phys <= KERNEL_BASE % VA_LIMIT
    &&& kernel_first_page(kernel_phys).0 <= kernel_end_page(kernel_phys, kernel_size).0
    &&& forall|p: u64| #[trigger] in_ranges(ranges, p) ==> mem.frames().dom().contains(p)
    &&& areas_mappable(areas, 512)
    &&& allocator_over(ranges).free_count() >= 1 + areas_needed(bare_tables(), areas, 6)
}

/// Whether the usable entries lie below the limit of physical addresses and do not
/// overlap.
fn check_memmap(entries: &[LimineMemmapEntry]) -> (r: bool)
    ensures
        r == memmap_ok(entries@),
{
    let mut i: usize = 0;
    while i < entries.len()
        invariant
            i <= entries@.len(),
            memmap_ok(entries@.take(i as int)),
        decreases entries@.len() - i,
    {
        let ghost head = entries@.take(i as int);
        let ghost more = entries@.take(i + 1);
        let e: LimineMemmapEntry = entries[i];
        if e.typ == MEMMAP_USABLE {
            if e.base >= PA_LIMIT || e.length >= PA_LIMIT - e.base {
                assert(entries@[i as int] == e);
                return false;
            }
            let mut k: usize = 0;
            while k < i
                invariant
                    k <= i < entries@.len(),
                    e == entries@[i as int],
                    e.typ == MEMMAP_USABLE,
                    e.base + e.length < PA_LIMIT,
                    memmap_ok(entries@.take(i as int)),
                    forall|j: int|
                        0 <= j < k && (#[trigger] entries@[j]).typ == MEMMAP_USABLE
                            ==> entries@[j].base + entries@[j].length <= e.base || e.base + e.length
                            <= entries@[j].base,
                decreases i - k,
            {
                let d: LimineMemmapEntry = entries[k];
                if d.typ == MEMMAP_USABLE {
                    assert(entries@.take(i as int)[k as int] == d);
                    if d.base + d.length > e.base && e.base + e.length > d.base {
                        assert(entries@[k as int] == d && entries@[i as int] == e);
                        return false;
                    }
                }
                k = k + 1;
            }
        }
        proof {
            assert forall|j: int|
                0 <= j < more.len() && (#[trigger] more[j]).typ == MEMMAP_USABLE implies more[j].base
                + more[j].length < PA_LIMIT by {
                if j < i {
                    assert(head[j] == more[j]);
                }
            }
            assert forall|a: int, b: int|
                0 <= a < b < more.len() && (#[trigger] more[a]).typ == MEMMAP_USABLE && (
                #[trigger] more[b]).typ == MEMMAP_USABLE implies more[a].base + more[a].length
                <= more[b].base || more[b].base + more[b].length <= more[a].base by {
                assert(head[a] == more[a] && entries@[a] == more[a]);
                if b < i {
                    assert(head[b] == more[b]);
                }
            }
        }
        i = i + 1;
    }
    assert(entries@.take(entries@.len() as int) =~= entries@);
    true
}

/// The pages that hold the pointer values from `start` to `end`.
fn pages_between(start: u64, end: u64) -> (r: (u64, u64))
    ensures
        r.0 == (start as int % (VA_LIMIT as int)) / 0x1000,
        r.1 == (end as int % (VA_LIMIT as int) + 0xfff) / 0x1000,
{
    (VirtAddr::new(start).floor().0, VirtAddr::new(end).ceil().0)
}

/// The pages of the areas of the kernel's address space.
fn kernel_pages(layout: KernelLayout, phys_base: u64, Ghost(areas): Ghost<Seq<AreaView>>) -> (r: Vec<
    (u64, u64),
>)
    requires
        phys_base < VA_LIMIT,
        exists|kernel_phys: u64, phys_offset: u64|
            areas == #[trigger] kernel_areas(layout, kernel_phys, phys_offset) && phys_base
                == phys_offset % VA_LIMIT,
    ensures
        pages_of_areas(areas, r@, 0),
{
    let mut r: Vec<(u64, u64)> = Vec::new();
    r.push(pages_between(layout.stext, layout.etext));
    r.push(pages_between(layout.srodata, layout.erodata));
    r.push(pages_between(layout.sdata, layout.egot));
    r.push(pages_between(layout.sbss_with_stack, layout.ebss));
    r.push(pages_between(phys_base, phys_base + MEMORY_END));
    r.push(pages_between(phys_base + LAPIC_BASE, phys_base + LAPIC_BASE + PAGE_SIZE));
    r
}

/// Whether the range is empty or starts at `offset` or above.
fn starts_above(range: (u64, u64), offset: u64) -> (r: bool)
    requires
        range.0 <= 0x10_0000_0000,
    ensures
        r == (range.0 < range.1 ==> range.0 * 0x1000 >= offset),
{
    range.0 >= range.1 || range.0 * 0x1000 >= offset
}

/// A linear area lies high enough exactly if its first page does.
proof fn lemma_linear_ok(area: AreaView, pa_offset: u64)
    requires
        area.map_type == (MapType::Linear { pa_offset }),
    ensures
        (forall|v: int| area.contains(v) ==> #[trigger] area.linear_ok(v)) == (area.start < area.end
            ==> area.start * 0x1000 >= pa_offset),
{
    if area.start < area.end && area.start * 0x1000 < pa_offset {
        assert(area.contains(area.start) && !area.linear_ok(area.start));
    }
}

/// Whether areas that have no frames can be mapped, by their pages.
proof fn lemma_mappable(areas: Seq<AreaView>, pages: Seq<(u64, u64)>, apart: bool)
    requires
        pages_of_areas(areas, pages, 0),
        forall|i: int|
            0 <= i < areas.len() ==> (#[trigger] areas[i]).data == Map::<int, u64>::empty(),
        apart == pages_apart(pages, 512int * 0x800_0000),
    ensures
        areas_mappable(areas, 512) == (apart && forall|i: int, v: int|
            0 <= i < areas.len() && areas[i].contains(v) ==> #[trigger] areas[i].linear_ok(v)),
{
    let s = Seq::new(areas.len(), |i: int| Segment { area: areas[i], fill: None });
    assert(pages_of(s, pages));
    lemma_apart(s, pages, 512);
    if apart {
        assert forall|i: int| 0 <= i < areas.len() implies 0 <= (#[trigger] areas[i]).start
            <= areas[i].end <= 512 * 0x800_0000 by {
            assert(s[i].area.start <= s[i].area.end);
        }
        assert forall|i: int, j: int, v: int|
            0 <= i < areas.len() && 0 <= j < areas.len() && #[trigger] areas[i].contains(v)
                && #[trigger] areas[j].contains(v) implies i == j by {
            assert(s[i].area.contains(v) && s[j].area.contains(v));
        }
    }
    if areas_mappable(areas, 512) {
        assert forall|i: int| 0 <= i < s.len() implies 0 <= (#[trigger] s[i]).area.start
            <= s[i].area.end <= 512 * 0x800_0000 by {
            assert(areas[i].start <= areas[i].end);
        }
        assert forall|i: int, j: int, v: int|
            0 <= i < s.len() && 0 <= j < s.len() && #[trigger] s[i].area.contains(v)
                && #[trigger] s[j].area.contains(v) implies i == j by {
            assert(areas[i].contains(v) && areas[j].contains(v));
        }
    }
}

/// Whether all pages of the area lie high enough.
spec fn area_high(area: AreaView) -> bool {
    forall|v: int| area.contains(v) ==> #[trigger] area.linear_ok(v)
}

/// All six areas lie high enough exactly if each of them does.
proof fn lemma_all_high(areas: Seq<AreaView>)
    requires
        areas.len() == 6,
    ensures
        (forall|i: int, v: int|
            0 <= i < areas.len() && areas[i].contains(v) ==> #[trigger] areas[i].linear_ok(v)) == (
        area_high(areas[0]) && area_high(areas[1]) && area_high(areas[2]) && area_high(areas[3])
            && area_high(areas[4]) && area_high(areas[5])),
{
    if area_high(areas[0]) && area_high(areas[1]) && area_high(areas[2]) && area_high(areas[3])
        && area_high(areas[4]) && area_high(areas[5]) {
        assert forall|i: int, v: int|
            0 <= i < areas.len() && areas[i].contains(v) implies #[trigger] areas[i].linear_ok(v) by {
            assert(i == 0 || i == 1 || i == 2 || i == 3 || i == 4 || i == 5);
        }
    }
}

/// Whether memory can be set up.
pub fn set_up_possible<M: PhysMemory>(
    mem: &M,
    entries: &[LimineMemmapEntry],
    kernel_phys: u64,
    kernel_size: u64,
    layout: KernelLayout,
    phys_offset: u64,
) -> (r: bool)
    ensures
        r == can_set_up(mem, entries@, kernel_phys, kernel_size, layout, phys_offset),
{
    let ghost ranges = allocatable_ranges(entries@, kernel_phys, kernel_size);
    let ghost areas = kernel_areas(layout, kernel_phys, phys_offset);
    let kernel_base: u64 = VirtAddr::new(KERNEL_BASE).0;
    if !check_memmap(entries) || kernel_size > u64::MAX - kernel_phys || kernel_phys
        > kernel_base {
        return false;
    }
    if PhysAddr::new(kernel_phys).floor().0 > PhysAddr::new(kernel_phys + kernel_size).ceil().0 {
        return false;
    }
    let phys_base: u64 = VirtAddr::new(phys_offset).0;
    let pages: Vec<(u64, u64)> = kernel_pages(layout, phys_base, Ghost(areas));
    let offset: u64 = kernel_base - kernel_phys;
    let apart: bool = check_apart(&pages, 512 * 0x800_0000);
    proof {
        assert(offset == kernel_offset(kernel_phys));
        assert(pages@.len() == 6);
        lemma_mappable(areas, pages@, apart);
        lemma_linear_ok(areas[0], offset);
        lemma_linear_ok(areas[1], offset);
        lemma_linear_ok(areas[2], offset);
        lemma_linear_ok(areas[3], offset);
        lemma_linear_ok(areas[4], phys_base);
        lemma_linear_ok(areas[5], phys_base);
    }
    let high: bool = starts_above(pages[0], offset) && starts_above(pages[1], offset)
        && starts_above(pages[2], offset) && starts_above(pages[3], offset) && starts_above(
        pages[4],
        phys_base,
    ) && starts_above(pages[5], phys_base);
    proof {
        assert(high == forall|i: int, v: int|
            0 <= i < areas.len() && areas[i].contains(v) ==> #[trigger] areas[i].linear_ok(v)) by {
            lemma_all_high(areas);
        }
    }
    if !apart || !high {
        return false;
    }
    let mut allocator = FrameDequeAllocator::new();
    init_frame_allocator(&mut allocator, entries, kernel_phys, kernel_size);
    let exist: bool = allocator.lies_in(mem);
    proof {
        assert(allocator@ == allocator_over(ranges));
        let all = forall|p: u64| #[trigger]
            in_ranges(ranges, p) ==> mem.frames().dom().contains(p);
        if all {
            assert forall|p: u64| #[trigger] allocator@.managed(p) implies mem.frames().dom().contains(
                p,
            ) by {
                allocator_manages_its_ranges(ranges, p);
                assert(in_ranges(ranges, p));
            }
        }
        if exist {
            assert forall|p: u64| #[trigger] in_ranges(ranges, p) implies mem.frames().dom().contains(
                p,
            ) by {
                allocator_manages_its_ranges(ranges, p);
                assert(allocator@.managed(p));
            }
        }
    }
    exist && spend_areas(&pages, 0, allocator.free_count(), Ghost(areas)).is_some()
}

} // verus!
