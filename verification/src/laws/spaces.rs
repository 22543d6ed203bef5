//! What the processor makes of the addresses in the kernel's address space.
use vstd::prelude::*;
use super::machine::{access, rights_are_enforced, unmapped_pages_fault, Access};
use crate::config::MEMORY_END;
use crate::ioapic::IOAPIC_BASE;
use crate::mm::frame_allocator::FramePool;
use crate::mm::map_area::{
    lemma_perm_flags, linear_ppn, perm_flags, MAP_R, MAP_U, MAP_W, MAP_X,
};
use crate::mm::memory_set::{
    config, kernel_areas, kernel_offset, linear_area, pushed, window_area, KernelLayout, MemorySet,
};
use crate::mm::page_table::pte_reads_back;
use crate::mm::phys::PhysMemory;
use crate::mm::rights::{areas_grant_their_permissions, perm_rights};

verus! {

/// What the processor makes of pointer value `ptr` in an address space.
pub open spec fn reached<M: PhysMemory>(
    ms: &MemorySet,
    pool: &FramePool<M>,
    ptr: int,
) -> Option<Access> {
    access(pool.frames(), ms.root(), ptr % 0x1_0000_0000_0000)
}

/// An address in an area leads to the frame of its page, and the permissions of the area
/// decide what can be done there.
pub proof fn areas_are_reached<M: PhysMemory>(
    ms: &MemorySet,
    pool: &FramePool<M>,
    i: int,
    va: int,
)
    requires
        pool.wf(),
        ms.wf(pool),
        0 <= i < ms.areas().len(),
        0 <= va < 0x1_0000_0000_0000,
        ms.areas()[i].contains(va / 0x1000),
    ensures
        ({
            let area = ms.areas()[i];
            let rights = perm_rights(area.perm);
            access(pool.frames(), ms.root(), va) == Some(
                Access {
                    pa: area.frame_of(va / 0x1000) * 0x1000 + va % 0x1000,
                    user: rights.user,
                    write: rights.write,
                    execute: rights.execute,
                },
            )
        }),
{
    let area = ms.areas()[i];
    let v = va / 0x1000;
    areas_grant_their_permissions(ms, pool);
    rights_are_enforced(pool.frames(), ms.root(), va);
    assert(area.wf());
    assert(ms.table().leaf(pool, v) == Some(area.entry(v)));
    assert(area.linear_ok(v));
    if area.framed() {
        assert(area.data.dom().contains(v));
        assert(area.data_set().contains(area.data[v]));
        assert(pool.allocated(area.data[v]));
        pool.mem.frames_wf();
    }
    lemma_perm_flags(area.perm);
    pte_reads_back(area.frame_of(v), perm_flags(area.perm));
}

/// Outside of the areas of an address space the processor raises a page fault.
pub proof fn nothing_else_is_reached<M: PhysMemory>(ms: &MemorySet, pool: &FramePool<M>, va: int)
    requires
        ms.wf(pool),
        ms.exact(pool),
        0 <= va < ms.table().slots() * 0x80_0000_0000,
        ms.table().slots() <= 512,
        forall|i: int| 0 <= i < ms.areas().len() ==> !(#[trigger] ms.areas()[i].contains(va / 0x1000)),
    ensures
        access(pool.frames(), ms.root(), va) is None,
{
    assert(ms.table().mapped(pool, va / 0x1000) is None);
    unmapped_pages_fault(
        pool.frames(),
        ms.root(),
        ms.table().slots(),
        ms.table().table_frames(),
        va,
    );
}

/// What the permissions that the kernel gives allow.
pub proof fn lemma_permissions()
    ensures
        ({
            let r = perm_rights(MAP_R);
            !r.user && !r.write && !r.execute
        }),
        ({
            let r = perm_rights(MAP_R | MAP_W);
            !r.user && r.write && !r.execute
        }),
        ({
            let r = perm_rights(MAP_R | MAP_X);
            !r.user && !r.write && r.execute
        }),
        ({
            let r = perm_rights(MAP_R | MAP_W | MAP_U);
            r.user && r.write && !r.execute
        }),
{
    assert({
        &&& 2u8 & 16 != 16 && 2u8 & 4 != 4 && 2u8 & 8 != 8
        &&& (2u8 | 4) & 16 != 16 && (2u8 | 4) & 4 == 4 && (2u8 | 4) & 8 != 8
        &&& (2u8 | 8) & 16 != 16 && (2u8 | 8) & 4 != 4 && (2u8 | 8) & 8 == 8
        &&& (2u8 | 4 | 16) & 16 == 16 && (2u8 | 4 | 16) & 4 == 4 && (2u8 | 4 | 16) & 8 != 8
    }) by (bit_vector);
}

/// An address in a section of the kernel's image leads to its place in the image.
proof fn lemma_section<M: PhysMemory>(
    ms: &MemorySet,
    pool: &FramePool<M>,
    i: int,
    start: u64,
    end: u64,
    perm: u8,
    kernel_phys: u64,
    ptr: int,
)
    requires
        pool.wf(),
        ms.wf(pool),
        0 <= i < ms.areas().len(),
        kernel_phys % 0x1000 == 0,
        kernel_phys <= 0xffff_8000_0000,
        ms.areas()[i] == linear_area(start as int, end as int, perm, kernel_offset(kernel_phys)),
        0xffff_ffff_8000_0000 <= start <= ptr < end,
    ensures
        reached(ms, pool, ptr) == Some(
            Access {
                pa: ptr - 0xffff_ffff_8000_0000 + kernel_phys,
                user: perm_rights(perm).user,
                write: perm_rights(perm).write,
                execute: perm_rights(perm).execute,
            },
        ),
{
    let va = ptr - 0xffff_0000_0000_0000;
    lemma_section_numbers(start as int, end as int, kernel_phys, ptr);
    assert(ms.areas()[i].contains(va / 0x1000));
    areas_are_reached(ms, pool, i, va);
    assert(ms.areas()[i].frame_of(va / 0x1000) == linear_ppn(
        va / 0x1000,
        kernel_offset(kernel_phys),
    ));
}

/// The low 48 bits of an address in the upper half.
proof fn lemma_high(x: int)
    requires
        0xffff_0000_0000_0000 <= x <= 0xffff_ffff_ffff_ffff,
    ensures
        x % 0x1_0000_0000_0000 == x - 0xffff_0000_0000_0000,
{
}

/// The numbers of a section.
proof fn lemma_section_numbers(start: int, end: int, kernel_phys: u64, ptr: int)
    requires
        kernel_phys % 0x1000 == 0,
        kernel_phys <= 0xffff_8000_0000,
        0xffff_ffff_8000_0000 <= start <= ptr < end <= 0xffff_ffff_ffff_ffff,
    ensures
        ({
            let va = ptr - 0xffff_0000_0000_0000;
            &&& ptr % 0x1_0000_0000_0000 == va
            &&& 0 <= va < 0x1_0000_0000_0000
            &&& (start % 0x1_0000_0000_0000) / 0x1000 <= va / 0x1000 < (end % 0x1_0000_0000_0000
                + 0xfff) / 0x1000
            &&& linear_ppn(va / 0x1000, kernel_offset(kernel_phys)) * 0x1000 + va % 0x1000 == ptr
                - 0xffff_ffff_8000_0000 + kernel_phys
        }),
{
    let va = ptr - 0xffff_0000_0000_0000;
    lemma_high(ptr);
    lemma_high(start);
    lemma_high(end);
    lemma_image_frame(va, kernel_phys);
}

proof fn lemma_image_frame(va: int, kernel_phys: u64)
    requires
        kernel_phys % 0x1000 == 0,
        kernel_phys <= 0xffff_8000_0000,
        0xffff_8000_0000 <= va < 0x1_0000_0000_0000,
    ensures
        linear_ppn(va / 0x1000, kernel_offset(kernel_phys)) * 0x1000 + va % 0x1000 == va
            - 0xffff_8000_0000 + kernel_phys,
{
    let v = va / 0x1000;
    let x = v * 0x1000 - (0xffff_8000_0000 - kernel_phys);
    assert(kernel_offset(kernel_phys) == 0xffff_8000_0000 - kernel_phys);
    assert(0 <= x < 0x10_0000_0000_0000);
    assert(x % 0x1000 == 0);
    assert(x % 0x10_0000_0000_0000 == x);
    assert(linear_ppn(v, kernel_offset(kernel_phys)) == x / 0x1000);
}

/// In the kernel's address space every address of the image leads to its place in the
/// image. Code can be executed and not written, constants neither, and data and the BSS
/// segment with the boot stack can be written and not executed. None of it can be used
/// from user mode.
pub proof fn kernel_sections_are_protected<M: PhysMemory>(
    ms: &MemorySet,
    pool: &FramePool<M>,
    layout: KernelLayout,
    kernel_phys: u64,
    phys_offset: u64,
    ptr: int,
)
    requires
        pool.wf(),
        ms.wf(pool),
        ms.areas() == kernel_areas(layout, kernel_phys, phys_offset),
        kernel_phys % 0x1000 == 0,
        kernel_phys <= 0xffff_8000_0000,
    ensures
        ({
            let pa = ptr - 0xffff_ffff_8000_0000 + kernel_phys;
            &&& 0xffff_ffff_8000_0000 <= layout.stext <= ptr < layout.etext ==> reached(
                ms,
                pool,
                ptr,
            ) == Some(Access { pa, user: false, write: false, execute: true })
            &&& 0xffff_ffff_8000_0000 <= layout.srodata <= ptr < layout.erodata ==> reached(
                ms,
                pool,
                ptr,
            ) == Some(Access { pa, user: false, write: false, execute: false })
            &&& 0xffff_ffff_8000_0000 <= layout.sdata <= ptr < layout.egot ==> reached(
                ms,
                pool,
                ptr,
            ) == Some(Access { pa, user: false, write: true, execute: false })
            &&& 0xffff_ffff_8000_0000 <= layout.sbss_with_stack <= ptr < layout.ebss ==> reached(
                ms,
                pool,
                ptr,
            ) == Some(Access { pa, user: false, write: true, execute: false })
        }),
{
    lemma_permissions();
    let l = layout;
    assert(ms.areas().len() == 6);
    if 0xffff_ffff_8000_0000 <= l.stext <= ptr < l.etext {
        lemma_section(ms, pool, 0, l.stext, l.etext, MAP_R | MAP_X, kernel_phys, ptr);
    }
    if 0xffff_ffff_8000_0000 <= l.srodata <= ptr < l.erodata {
        lemma_section(ms, pool, 1, l.srodata, l.erodata, MAP_R, kernel_phys, ptr);
    }
    if 0xffff_ffff_8000_0000 <= l.sdata <= ptr < l.egot {
        lemma_section(ms, pool, 2, l.sdata, l.egot, MAP_R | MAP_W, kernel_phys, ptr);
    }
    if 0xffff_ffff_8000_0000 <= l.sbss_with_stack <= ptr < l.ebss {
        lemma_section(ms, pool, 3, l.sbss_with_stack, l.ebss, MAP_R | MAP_W, kernel_phys, ptr);
    }
}

/// The numbers of a window.
proof fn lemma_window_numbers(phys_offset: u64, start: int, end: int, pa: int)
    requires
        phys_offset % 0x1000 == 0,
        (phys_offset % 0x1_0000_0000_0000) + end < 0x1_0000_0000_0000,
        0 <= start <= pa < end,
    ensures
        ({
            let base = phys_offset % 0x1_0000_0000_0000;
            let va = base + pa;
            &&& (phys_offset + pa) % 0x1_0000_0000_0000 == va
            &&& ((base + start) % 0x1_0000_0000_0000) / 0x1000 <= va / 0x1000 < ((base + end)
                % 0x1_0000_0000_0000 + 0xfff) / 0x1000
            &&& linear_ppn(va / 0x1000, base) == pa / 0x1000
            &&& va % 0x1000 == pa % 0x1000
        }),
{
    let base = phys_offset % 0x1_0000_0000_0000;
    let va = base + pa;
    assert(base % 0x1000 == 0);
    assert(va / 0x1000 == base as int / 0x1000 + pa / 0x1000);
    assert(va / 0x1000 * 0x1000 - base == pa / 0x1000 * 0x1000);
    assert((pa / 0x1000 * 0x1000) % 0x10_0000_0000_0000 == pa / 0x1000 * 0x1000);
}

/// An address in a window leads to the physical address at its distance from the start
/// of the physmap, and can be written by the kernel alone.
proof fn lemma_window<M: PhysMemory>(
    ms: &MemorySet,
    pool: &FramePool<M>,
    i: int,
    phys_offset: u64,
    start: int,
    end: int,
    pa: int,
)
    requires
        pool.wf(),
        ms.wf(pool),
        0 <= i < ms.areas().len(),
        phys_offset % 0x1000 == 0,
        (phys_offset % 0x1_0000_0000_0000) + end < 0x1_0000_0000_0000,
        ({
            let base = phys_offset % 0x1_0000_0000_0000;
            let area = linear_area(base + start, base + end, MAP_R | MAP_W, base);
            &&& ms.areas()[i].start == area.start
            &&& ms.areas()[i].end == area.end
            &&& ms.areas()[i].map_type == area.map_type
            &&& ms.areas()[i].perm == area.perm
        }),
        0 <= start <= pa < end,
    ensures
        reached(ms, pool, phys_offset + pa) == Some(
            Access { pa, user: false, write: true, execute: false },
        ),
{
    let base = phys_offset % 0x1_0000_0000_0000;
    let va = base + pa;
    lemma_window_numbers(phys_offset, start, end, pa);
    assert(ms.areas()[i].contains(va / 0x1000));
    areas_are_reached(ms, pool, i, va);
    lemma_permissions();
    assert(ms.areas()[i].frame_of(va / 0x1000) == linear_ppn(va / 0x1000, base));
}

/// In the kernel's address space the physmap shows physical memory and the registers of
/// the local APIC, which only the kernel can read and write.
pub proof fn physmap_is_reached<M: PhysMemory>(
    ms: &MemorySet,
    pool: &FramePool<M>,
    layout: KernelLayout,
    kernel_phys: u64,
    phys_offset: u64,
    pa: int,
)
    requires
        pool.wf(),
        ms.wf(pool),
        ms.areas() == kernel_areas(layout, kernel_phys, phys_offset),
        phys_offset % 0x1000 == 0,
        (phys_offset % 0x1_0000_0000_0000) + 0xFEE0_1000 < 0x1_0000_0000_0000,
        0 <= pa < MEMORY_END || 0xFEE0_0000 <= pa < 0xFEE0_1000,
    ensures
        reached(ms, pool, phys_offset + pa) == Some(
            Access { pa, user: false, write: true, execute: false },
        ),
{
    assert(ms.areas().len() == 6);
    if pa < MEMORY_END {
        lemma_window(ms, pool, 4, phys_offset, 0, MEMORY_END as int, pa);
    } else {
        lemma_window(ms, pool, 5, phys_offset, 0xFEE0_0000, 0xFEE0_1000, pa);
    }
}

/// Whether pointer value `ptr` lies on a page that holds pointer values from `start` to
/// `end`.
pub open spec fn on_pages_of(ptr: int, start: int, end: int) -> bool {
    start / 0x1000 * 0x1000 <= ptr < (end + 0xfff) / 0x1000 * 0x1000
}

/// In the kernel's address space nothing but the pages of the image's sections, the
/// physmap and the local APIC is mapped.
pub proof fn kernel_space_holds_nothing_else<M: PhysMemory>(
    ms: &MemorySet,
    pool: &FramePool<M>,
    layout: KernelLayout,
    kernel_phys: u64,
    phys_offset: u64,
    ptr: int,
)
    requires
        pool.wf(),
        ms.wf(pool),
        ms.exact(pool),
        ms.table().slots() == 512,
        ms.areas() == kernel_areas(layout, kernel_phys, phys_offset),
        phys_offset % 0x1000 == 0,
        0xffff_8000_0000_0000 <= phys_offset,
        phys_offset + 0xFEE0_1000 < 0xffff_ffff_8000_0000,
        0xffff_ffff_8000_0000 <= layout.stext <= layout.etext,
        0xffff_ffff_8000_0000 <= layout.srodata <= layout.erodata,
        0xffff_ffff_8000_0000 <= layout.sdata <= layout.egot,
        0xffff_ffff_8000_0000 <= layout.sbss_with_stack <= layout.ebss,
        0xffff_0000_0000_0000 <= ptr <= 0xffff_ffff_ffff_ffff,
        reached(ms, pool, ptr) is Some,
    ensures
        ({
            ||| on_pages_of(ptr, layout.stext as int, layout.etext as int)
            ||| on_pages_of(ptr, layout.srodata as int, layout.erodata as int)
            ||| on_pages_of(ptr, layout.sdata as int, layout.egot as int)
            ||| on_pages_of(ptr, layout.sbss_with_stack as int, layout.ebss as int)
            ||| on_pages_of(ptr, phys_offset as int, phys_offset + MEMORY_END)
            ||| on_pages_of(ptr, phys_offset + 0xFEE0_0000, phys_offset + 0xFEE0_1000)
        }),
{
    let i = lemma_high_address(ms, pool, ptr);
    lemma_kernel_pages(layout, kernel_phys, phys_offset, i, ptr);
}

proof fn lemma_high_address<M: PhysMemory>(ms: &MemorySet, pool: &FramePool<M>, ptr: int) -> (i: int)
    requires
        ms.wf(pool),
        ms.exact(pool),
        ms.table().slots() == 512,
        0xffff_0000_0000_0000 <= ptr <= 0xffff_ffff_ffff_ffff,
        reached(ms, pool, ptr) is Some,
    ensures
        0 <= i < ms.areas().len(),
        ms.areas()[i].contains((ptr - 0xffff_0000_0000_0000) / 0x1000),
{
    let va = ptr - 0xffff_0000_0000_0000;
    lemma_high(ptr);
    if forall|i: int| 0 <= i < ms.areas().len() ==> !(#[trigger] ms.areas()[i].contains(va / 0x1000)) {
        nothing_else_is_reached(ms, pool, va);
    }
    choose|i: int| 0 <= i < ms.areas().len() && #[trigger] ms.areas()[i].contains(va / 0x1000)
}

proof fn lemma_kernel_pages(
    layout: KernelLayout,
    kernel_phys: u64,
    phys_offset: u64,
    i: int,
    ptr: int,
)
    requires
        0 <= i < 6,
        kernel_areas(layout, kernel_phys, phys_offset)[i].contains(
            (ptr - 0xffff_0000_0000_0000) / 0x1000,
        ),
        0xffff_8000_0000_0000 <= phys_offset,
        phys_offset + 0xFEE0_1000 < 0xffff_ffff_8000_0000,
        0xffff_ffff_8000_0000 <= layout.stext <= layout.etext,
        0xffff_ffff_8000_0000 <= layout.srodata <= layout.erodata,
        0xffff_ffff_8000_0000 <= layout.sdata <= layout.egot,
        0xffff_ffff_8000_0000 <= layout.sbss_with_stack <= layout.ebss,
        0xffff_0000_0000_0000 <= ptr <= 0xffff_ffff_ffff_ffff,
    ensures
        ({
            ||| on_pages_of(ptr, layout.stext as int, layout.etext as int)
            ||| on_pages_of(ptr, layout.srodata as int, layout.erodata as int)
            ||| on_pages_of(ptr, layout.sdata as int, layout.egot as int)
            ||| on_pages_of(ptr, layout.sbss_with_stack as int, layout.ebss as int)
            ||| on_pages_of(ptr, phys_offset as int, phys_offset + MEMORY_END)
            ||| on_pages_of(ptr, phys_offset + 0xFEE0_0000, phys_offset + 0xFEE0_1000)
        }),
{
    let base = phys_offset - 0xffff_0000_0000_0000;
    lemma_high(phys_offset as int);
    if i == 0 {
        lemma_on_pages(ptr, layout.stext as int, layout.etext as int);
    } else if i == 1 {
        lemma_on_pages(ptr, layout.srodata as int, layout.erodata as int);
    } else if i == 2 {
        lemma_on_pages(ptr, layout.sdata as int, layout.egot as int);
    } else if i == 3 {
        lemma_on_pages(ptr, layout.sbss_with_stack as int, layout.ebss as int);
    } else if i == 4 {
        lemma_on_low_pages(ptr, base, base + MEMORY_END);
    } else {
        lemma_on_low_pages(ptr, base + 0xFEE0_0000, base + 0xFEE0_1000);
    }
}

proof fn lemma_on_low_pages(ptr: int, start: int, end: int)
    requires
        0xffff_0000_0000_0000 <= ptr <= 0xffff_ffff_ffff_ffff,
        0 <= start <= end < 0x1_0000_0000_0000,
    ensures
        (start % 0x1_0000_0000_0000) / 0x1000 <= (ptr - 0xffff_0000_0000_0000) / 0x1000 < (end
            % 0x1_0000_0000_0000 + 0xfff) / 0x1000 ==> on_pages_of(
            ptr,
            0xffff_0000_0000_0000 + start,
            0xffff_0000_0000_0000 + end,
        ),
{
    lemma_rounded(ptr - 0xffff_0000_0000_0000, start, end);
}

proof fn lemma_on_pages(ptr: int, start: int, end: int)
    requires
        0xffff_0000_0000_0000 <= ptr <= 0xffff_ffff_ffff_ffff,
        0xffff_0000_0000_0000 <= start <= end <= 0xffff_ffff_ffff_ffff,
    ensures
        (start % 0x1_0000_0000_0000) / 0x1000 <= (ptr - 0xffff_0000_0000_0000) / 0x1000 < (end
            % 0x1_0000_0000_0000 + 0xfff) / 0x1000 ==> on_pages_of(ptr, start, end),
{
    lemma_high(start);
    lemma_high(end);
    lemma_rounded(ptr - 0xffff_0000_0000_0000, start - 0xffff_0000_0000_0000, end
        - 0xffff_0000_0000_0000);
}

/// Pages and addresses, both in the low and in the upper half.
proof fn lemma_rounded(va: int, start: int, end: int)
    requires
        0 <= va,
        0 <= start <= end,
    ensures
        start / 0x1000 <= va / 0x1000 < (end + 0xfff) / 0x1000 ==> on_pages_of(
            va + 0xffff_0000_0000_0000,
            start + 0xffff_0000_0000_0000,
            end + 0xffff_0000_0000_0000,
        ),
{
    assert((start + 0xffff_0000_0000_0000) / 0x1000 == start / 0x1000 + 0xf_fff0_0000_0000);
    assert((end + 0xffff_0000_0000_0000 + 0xfff) / 0x1000 == (end + 0xfff) / 0x1000
        + 0xf_fff0_0000_0000);
}

/// After a window of physical memory was mapped for a device, its addresses lead to the
/// device, and can be read and written by the kernel alone.
pub proof fn device_window_is_reached<M: PhysMemory>(
    ms: &MemorySet,
    pool: &FramePool<M>,
    ms0: &MemorySet,
    pool0: &FramePool<M>,
    phys_offset: u64,
    pa: u64,
    len: u64,
    at: int,
)
    requires
        pool.wf(),
        ms.wf(pool),
        pushed(ms, pool, ms0, pool0, window_area(phys_offset, pa as int, len as int), None),
        phys_offset % 0x1000 == 0,
        (phys_offset % 0x1_0000_0000_0000) + pa + len < 0x1_0000_0000_0000,
        pa <= at < pa + len,
    ensures
        reached(ms, pool, phys_offset + at) == Some(
            Access { pa: at, user: false, write: true, execute: false },
        ),
{
    let n = ms0.areas().len() as int;
    let area = window_area(phys_offset, pa as int, len as int);
    assert(ms.areas()[n] == ms0.areas().push(ms.areas()[n])[n]);
    assert(config(ms.areas()[n]) == area);
    lemma_window(ms, pool, n, phys_offset, pa as int, pa + len, at);
}

/// The registers of the IO-APIC are found from the address on that is handed out when they
/// are mapped.
pub proof fn io_apic_is_reached<M: PhysMemory>(
    ms: &MemorySet,
    pool: &FramePool<M>,
    ms0: &MemorySet,
    pool0: &FramePool<M>,
    phys_offset: u64,
    base: u64,
    i: int,
)
    requires
        pool.wf(),
        ms.wf(pool),
        pushed(ms, pool, ms0, pool0, window_area(phys_offset, IOAPIC_BASE as int, 0x1000), None),
        base == phys_offset + IOAPIC_BASE,
        phys_offset % 0x1000 == 0,
        (phys_offset % 0x1_0000_0000_0000) + 0xFEC0_1000 < 0x1_0000_0000_0000,
        0 <= i < 0x1000,
    ensures
        reached(ms, pool, base + i) == Some(
            Access { pa: 0xFEC0_0000 + i, user: false, write: true, execute: false },
        ),
{
    device_window_is_reached(
        ms,
        pool,
        ms0,
        pool0,
        phys_offset,
        0xFEC0_0000,
        0x1000,
        0xFEC0_0000 + i,
    );
}

} // verus!
