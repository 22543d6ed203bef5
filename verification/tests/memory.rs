use rcore::limine_reqs::{
    hhdm_offset, kernel_physical_base, memmap_entries, LimineExecutableAddressRequest,
    LimineExecutableAddressResponse, LimineHhdmRequest, LimineHhdmResponse, LimineMemmapEntry,
    LimineMemmapRequest, LimineMemmapResponse,
};
use rcore::mm::address::{phys_to_virt, PhysAddr, PhysPageNum, VPNRange, VirtAddr, VirtPageNum};
use rcore::mm::frame_allocator::{
    frame_alloc, frame_dealloc, init_frame_allocator, FrameDequeAllocator, FramePool,
};
use rcore::mm::map_area::{
    pte_flags_from_perm, MapArea, MapPermission, MapType, MAP_R, MAP_U, MAP_W, MAP_X,
};
use rcore::mm::memory_set::{ioremap, window_possible, KernelLayout, MemorySet};
use rcore::mm::page_table::{
    PTEFlags, PageTable, PageTableEntry, PTE_NX, PTE_PS, PTE_U, PTE_V, PTE_W,
};
use rcore::mm::phys::{clear_frame, copy_frame, read_byte, write_byte, FrameBlock, PhysMemory};
use rcore::mm::setup::{init, init_early, kernel_token};
use rcore::mm::setup_check::set_up_possible;
use rcore::mm::user_check::{check_range, find_frame, find_string};
use rcore::mm::user_memory::{
    read_user_word, translated_byte_buffer, translated_ref, translated_refmut, translated_str,
    BytePlace, PageSlice, UserBuffer,
};
use rcore::mm::user_write::write_user;
use rcore::trap::msr::EFER_MSR;

fn pool(count: usize) -> FramePool<FrameBlock> {
    let mem = FrameBlock::new(0x100, count);
    let mut allocator = FrameDequeAllocator::new();
    allocator.init(&[(PhysPageNum(0x100), PhysPageNum(0x100 + count as u64))]);
    FramePool { mem, allocator }
}

fn perm(bits: u8) -> MapPermission {
    MapPermission { bits }
}

#[test]
fn addresses_round_and_split() {
    assert_eq!(VirtAddr::new(0xffff_ffff_8000_1234), VirtAddr(0xffff_8000_1234));
    assert_eq!(VirtAddr(0xffff_8000_1234).to_ptr(), 0xffff_ffff_8000_1234);
    assert_eq!(VirtAddr(0x7fff_ffff_f000).to_ptr(), 0x7fff_ffff_f000);
    assert_eq!(VirtAddr(0x1fff).floor(), VirtPageNum(1));
    assert_eq!(VirtAddr(0x1001).ceil(), VirtPageNum(2));
    assert_eq!(VirtAddr(0x1000).ceil(), VirtPageNum(1));
    assert_eq!(VirtAddr(0x1abc).page_offset(), 0xabc);
    assert_eq!(PhysAddr::new(0xfff0_0000_0000_1000), PhysAddr(0x1000));
    assert_eq!(PhysAddr(0x1fff).floor(), PhysPageNum(1));
    assert_eq!(PhysAddr(0x1001).ceil(), PhysPageNum(2));
    assert_eq!(PhysAddr(0x1fff).page_offset(), 0xfff);
    assert_eq!(PhysPageNum(3).addr(), PhysAddr(0x3000));
    assert_eq!(VirtPageNum(3).addr(), VirtAddr(0x3000));
    assert_eq!(VirtPageNum(0xf_fff8_0001).indexes(), [511, 510, 0, 1]);
    let mut p = PhysPageNum(7);
    p.step();
    assert_eq!(p, PhysPageNum(8));
    let r = VPNRange::new(VirtPageNum(1), VirtPageNum(4));
    assert_eq!((r.get_start(), r.get_end()), (VirtPageNum(1), VirtPageNum(4)));
    assert_eq!(phys_to_virt(0x1000, 0xffff_8000_0000_0000), 0xffff_8000_0000_1000);
}

#[test]
fn frames_are_words_and_bytes() {
    let mut mem = FrameBlock::new(5, 2);
    mem.write_word(5, 511, 0x1122_3344_5566_7788);
    assert_eq!(mem.read_word(5, 511), 0x1122_3344_5566_7788);
    assert_eq!(read_byte(&mem, 5, 511 * 8), 0x88);
    assert_eq!(read_byte(&mem, 5, 511 * 8 + 7), 0x11);
    write_byte(&mut mem, 5, 511 * 8 + 1, 0xff);
    assert_eq!(mem.read_word(5, 511), 0x1122_3344_5566_ff88);
    copy_frame(&mut mem, 6, 5);
    assert_eq!(mem.read_word(6, 511), 0x1122_3344_5566_ff88);
    clear_frame(&mut mem, 5);
    assert_eq!(mem.read_word(5, 511), 0);
    assert_eq!(mem.read_word(6, 511), 0x1122_3344_5566_ff88);
}

#[test]
fn freed_frame_comes_next() {
    let mut p = pool(3);
    assert_eq!(p.allocator.free_count(), 3);
    let a = frame_alloc(&mut p).unwrap();
    let b = frame_alloc(&mut p).unwrap();
    assert_eq!((a.ppn, b.ppn), (PhysPageNum(0x100), PhysPageNum(0x101)));
    frame_dealloc(&mut p, a.ppn);
    assert_eq!(p.allocator.free_count(), 2);
    assert_eq!(frame_alloc(&mut p).unwrap().ppn, a.ppn);
    assert_eq!(frame_alloc(&mut p).unwrap().ppn, PhysPageNum(0x102));
    assert!(frame_alloc(&mut p).is_none());
}

#[test]
fn new_frames_are_cleared() {
    let mut p = pool(1);
    p.mem.write_word(0x100, 3, 7);
    let f = frame_alloc(&mut p).unwrap();
    assert_eq!(p.mem.read_word(f.ppn.0, 3), 0);
}

#[test]
fn boot_allocator_spares_the_kernel() {
    let entries = [
        LimineMemmapEntry { base: 0, length: 0x3000, typ: 0 },
        LimineMemmapEntry { base: 0x10_0000, length: 0x10_0000, typ: 0 },
        LimineMemmapEntry { base: 0x40_0000, length: 0x10_0000, typ: 1 },
    ];
    let mut a = FrameDequeAllocator::new();
    init_frame_allocator(&mut a, &entries, 0x14_0000, 0x2_0000);
    let mut seen = Vec::new();
    while let Some(p) = a.alloc_frame() {
        seen.push(p.0);
    }
    assert!(!seen.contains(&0));
    assert!(seen.contains(&1) && seen.contains(&2) && !seen.contains(&3));
    assert!(seen.contains(&0x13f) && !seen.contains(&0x140) && !seen.contains(&0x15f));
    assert!(seen.contains(&0x160) && seen.contains(&0x1ff) && !seen.contains(&0x400));
}

#[test]
fn pages_partly_in_the_kernel_are_spared() {
    let entries = [LimineMemmapEntry { base: 0x10_0000, length: 0x30_0000, typ: 0 }];
    let mut a = FrameDequeAllocator::new();
    init_frame_allocator(&mut a, &entries, 0x20_0800, 0x8_0000);
    let mut seen = Vec::new();
    while let Some(p) = a.alloc_frame() {
        seen.push(p.0);
    }
    assert!(seen.contains(&0x1ff) && !seen.contains(&0x200));
    assert!(!seen.contains(&0x280) && seen.contains(&0x281));
    let mut b = FrameDequeAllocator::new();
    init_frame_allocator(&mut b, &entries, 0x20_0000, 0x8_0800);
    while let Some(p) = b.alloc_frame() {
        assert!(p.0 < 0x200 || p.0 > 0x280);
    }
}

#[test]
fn page_table_entries_read_back() {
    let flags = PTEFlags { bits: PTE_V }.union(PTEFlags { bits: PTE_W });
    let e = PageTableEntry::new(PhysPageNum(0x123), flags);
    assert_eq!(e.bits, 0x12_3003);
    assert_eq!(e.ppn(), PhysPageNum(0x123));
    assert_eq!(e.flags(), flags);
    assert!(e.is_valid() && e.writable() && e.executable());
    assert!(!PageTableEntry::empty().is_valid());
    assert_eq!(PTEFlags::from_bits_truncate(u64::MAX).bits, PTE_V | PTE_W | PTE_U | PTE_PS | PTE_NX);
    let rw = pte_flags_from_perm(perm(MAP_R | MAP_W));
    assert_eq!(rw.bits, PTE_V | PTE_W | PTE_NX);
    let rxu = pte_flags_from_perm(perm(MAP_R | MAP_X | MAP_U));
    assert_eq!(rxu.bits, PTE_V | PTE_U);
    assert!(rxu.contains(PTEFlags { bits: PTE_U }));
    let code = PageTableEntry::new(PhysPageNum(9), rxu);
    assert!(code.executable() && !code.writable());
    let data = PageTableEntry::new(PhysPageNum(9), rw);
    assert!(!data.executable() && data.writable());
}

#[test]
fn map_translate_unmap() {
    let mut p = pool(16);
    let mut t = PageTable::new(&mut p);
    let vpn = VirtPageNum(0x12345);
    assert!(t.translate(&p.mem, vpn).is_none());
    t.map(&mut p, vpn, PhysPageNum(0x777), PTEFlags { bits: PTE_W });
    let e = t.translate(&p.mem, vpn).unwrap();
    assert_eq!(e.ppn(), PhysPageNum(0x777));
    assert!(e.is_valid() && e.writable());
    assert_eq!(t.translate_va(&p.mem, VirtAddr(0x1234_5678)), Some(PhysAddr(0x77_7678)));
    assert_eq!(p.allocator.free_count(), 12);
    let seen = PageTable::from_token(t.token());
    assert_eq!(seen.root_ppn(), t.root_ppn());
    assert_eq!(seen.translate_va(&p.mem, VirtAddr(0x1234_5678)), Some(PhysAddr(0x77_7678)));
    t.unmap(&mut p, vpn);
    assert!(!t.translate(&p.mem, vpn).unwrap().is_valid());
    assert_eq!(t.take_stale(), vec![0x1234_5000]);
    assert!(t.take_stale().is_empty());
    let other = VirtPageNum(0x12346);
    t.map(&mut p, other, PhysPageNum(0x555), PTEFlags { bits: PTE_W });
    t.map(&mut p, vpn, PhysPageNum(0x778), PTEFlags { bits: PTE_W });
    assert_eq!(t.translate(&p.mem, vpn).unwrap().ppn(), PhysPageNum(0x778));
    assert_eq!(t.translate(&p.mem, other).unwrap().ppn(), PhysPageNum(0x555));
    t.release(&mut p);
    assert_eq!(p.allocator.free_count(), 16);
}

#[test]
fn shared_pages_stay_when_others_change() {
    let mut p = pool(16);
    let mut kernel = PageTable::new(&mut p);
    let high = VirtPageNum(256 * 0x800_0000 + 9);
    kernel.map(&mut p, high, PhysPageNum(0x777), PTEFlags { bits: PTE_W });
    let mut t = PageTable::new(&mut p);
    t.share_root(&mut p, kernel.root_ppn().0, 256);
    let vpn = VirtPageNum(9);
    t.map(&mut p, vpn, PhysPageNum(0x555), PTEFlags { bits: PTE_W });
    assert_eq!(t.translate(&p.mem, high).unwrap().ppn(), PhysPageNum(0x777));
    t.unmap(&mut p, vpn);
    assert_eq!(t.translate(&p.mem, high).unwrap().ppn(), PhysPageNum(0x777));
    assert!(!t.translate(&p.mem, vpn).unwrap().is_valid());
}

#[test]
fn user_pointers_are_tested() {
    let mut p = pool(32);
    let mut ms = MemorySet::new_bare(&mut p);
    ms.insert_framed_area(&mut p, VirtAddr(0x5000), VirtAddr(0x7000), perm(MAP_R | MAP_W | MAP_U));
    write_user(&mut p, &ms, 0x5ffd, b"hello\0");
    write_user(&mut p, &ms, 0x6000, &[1; 0x1000]);
    let token = ms.token();
    assert!(check_range(&p.mem, token, 0x5000, 0x2000));
    assert!(check_range(&p.mem, token, 0x6fff, 1) && check_range(&p.mem, token, 0x9000, 0));
    assert!(!check_range(&p.mem, token, 0x6fff, 2) && !check_range(&p.mem, token, 0x4fff, 2));
    assert!(!check_range(&p.mem, token, 0x4000_0000, 1));
    assert!(!check_range(&p.mem, token, u64::MAX, 2));
    assert!(!check_range(&p.mem, token, 0x7fff_ffff_f000, 0x2000));
    let f6 = ms.translate(&p.mem, VirtPageNum(6)).unwrap().ppn().0;
    assert_eq!(find_frame(&p.mem, token, 0x6123), Some(f6));
    assert_eq!(find_frame(&p.mem, token, 0x7000), None);
    assert_eq!(find_string(&p.mem, token, 0x5000), Some(0));
    assert_eq!(find_string(&p.mem, token, 0x5ffd), None);
    write_user(&mut p, &ms, 0x6003, &[0]);
    assert_eq!(find_string(&p.mem, token, 0x5ffd), Some(6));
}

#[test]
fn removing_an_area_undoes_mapping_it() {
    let mut p = pool(32);
    let mut ms = MemorySet::new_bare(&mut p);
    ms.insert_framed_area(&mut p, VirtAddr(0x1_0000), VirtAddr(0x1_2000), perm(MAP_R | MAP_U));
    let free = p.allocator.free_count();
    ms.insert_framed_area(&mut p, VirtAddr(0x1_4000), VirtAddr(0x1_7000), perm(MAP_R | MAP_W));
    assert_eq!(p.allocator.free_count(), free - 3);
    assert!(ms.translate(&p.mem, VirtPageNum(0x15)).unwrap().is_valid());
    ms.remove_area_with_start_vpn(&mut p, VirtPageNum(0x14));
    assert_eq!(p.allocator.free_count(), free);
    assert!(!ms.translate(&p.mem, VirtPageNum(0x15)).unwrap().is_valid());
    assert!(ms.translate(&p.mem, VirtPageNum(0x11)).unwrap().is_valid());
    assert_eq!(ms.take_stale(), vec![0x1_4000, 0x1_5000, 0x1_6000]);
    ms.remove_area_with_start_vpn(&mut p, VirtPageNum(0x99));
    assert_eq!(p.allocator.free_count(), free);
    ms.release(&mut p);
    assert_eq!(p.allocator.free_count(), 32);
}

#[test]
fn areas_shrink_and_grow() {
    let mut p = pool(32);
    let mut ms = MemorySet::new_bare(&mut p);
    ms.insert_framed_area(&mut p, VirtAddr(0x1_0000), VirtAddr(0x1_2000), perm(MAP_R | MAP_W));
    let free = p.allocator.free_count();
    assert!(ms.append_to(&mut p, VirtAddr(0x1_0000), VirtAddr(0x1_4000)));
    assert_eq!(p.allocator.free_count(), free - 2);
    assert!(ms.translate(&p.mem, VirtPageNum(0x13)).unwrap().is_valid());
    assert!(ms.shrink_to(&mut p, VirtAddr(0x1_0000), VirtAddr(0x1_1000)));
    assert_eq!(p.allocator.free_count(), free + 1);
    assert!(!ms.translate(&p.mem, VirtPageNum(0x11)).unwrap().is_valid());
    assert!(!ms.append_to(&mut p, VirtAddr(0x9_0000), VirtAddr(0x9_4000)));
    ms.recycle_data_pages(&mut p);
    assert_eq!(p.allocator.free_count(), free + 2);
}

#[test]
fn linear_areas_map_at_an_offset() {
    let mut p = pool(16);
    let mut t = PageTable::new(&mut p);
    let mut area = MapArea::new_linear(
        VirtAddr(0x20_0000),
        VirtAddr(0x20_2000),
        perm(MAP_R),
        0x10_0000,
    );
    area.map(&mut t, &mut p);
    assert_eq!(t.translate(&p.mem, VirtPageNum(0x201)).unwrap().ppn(), PhysPageNum(0x101));
    area.unmap(&mut t, &mut p);
    assert!(!t.translate(&p.mem, VirtPageNum(0x201)).unwrap().is_valid());
}

#[test]
fn copy_data_fills_pages() {
    let mut p = pool(16);
    let mut t = PageTable::new(&mut p);
    let mut area =
        MapArea::new(VirtAddr(0x5000), VirtAddr(0x7000), MapType::Framed, perm(MAP_R | MAP_W));
    area.map(&mut t, &mut p);
    let mut data = vec![0u8; 0x1003];
    data[0] = 1;
    data[0x1002] = 9;
    area.copy_data(&t, &mut p, &data);
    let first = t.translate(&p.mem, VirtPageNum(5)).unwrap().ppn().0;
    let second = t.translate(&p.mem, VirtPageNum(6)).unwrap().ppn().0;
    assert_eq!(read_byte(&p.mem, first, 0), 1);
    assert_eq!(read_byte(&p.mem, second, 2), 9);
    assert_eq!(read_byte(&p.mem, second, 3), 0);
    assert_eq!((area.start(), area.end()), (VirtPageNum(5), VirtPageNum(7)));
}

#[test]
fn user_memory_is_read_and_written() {
    let mut p = pool(32);
    let mut ms = MemorySet::new_bare(&mut p);
    ms.insert_framed_area(&mut p, VirtAddr(0x5000), VirtAddr(0x7000), perm(MAP_R | MAP_W | MAP_U));
    write_user(&mut p, &ms, 0x5ffd, b"hello\0");
    let token = ms.token();
    assert_eq!(translated_str(&p.mem, token, 0x5ffd), "hello");
    let slices = translated_byte_buffer(&p.mem, token, 0x5ffd, 5);
    let f5 = ms.translate(&p.mem, VirtPageNum(5)).unwrap().ppn().0;
    let f6 = ms.translate(&p.mem, VirtPageNum(6)).unwrap().ppn().0;
    assert_eq!(
        slices,
        vec![
            PageSlice { ppn: f5, start: 0xffd, end: 0x1000 },
            PageSlice { ppn: f6, start: 0, end: 2 },
        ]
    );
    assert_eq!(translated_ref(&p.mem, token, 0x6001), PhysAddr(f6 * 0x1000 + 1));
    assert_eq!(translated_refmut(&p.mem, token, 0x5008), PhysAddr(f5 * 0x1000 + 8));
    let buffer = UserBuffer::new(slices);
    assert_eq!(buffer.len(), 5);
    let mut it = buffer.into_iter();
    let mut n = 0;
    let mut last = None;
    while let Some(place) = it.next() {
        n += 1;
        last = Some(place);
    }
    assert_eq!(n, 5);
    assert_eq!(last, Some(BytePlace { ppn: f6, offset: 1 }));
    write_user(&mut p, &ms, 0x5010, &[1, 2, 3, 4, 5, 6, 7, 8]);
    assert_eq!(read_user_word(&p.mem, token, 0x5010), 0x0807_0605_0403_0201);
}

fn hhdm() -> LimineHhdmRequest {
    LimineHhdmRequest {
        id: [0; 4],
        revision: 0,
        response: Some(LimineHhdmResponse { revision: 0, offset: 0xffff_8000_0000_0000 }),
    }
}

#[test]
fn boot_loader_responses() {
    assert_eq!(hhdm_offset(&hhdm()), 0xffff_8000_0000_0000);
    assert_eq!(init_early(&hhdm()), 0xffff_8000_0000_0000);
    let e = LimineExecutableAddressRequest {
        id: [0; 4],
        revision: 0,
        response: Some(LimineExecutableAddressResponse {
            revision: 0,
            physical_base: 0x20_0000,
            virtual_base: 0xffff_ffff_8000_0000,
        }),
    };
    assert_eq!(kernel_physical_base(&e), 0x20_0000);
    let entry = LimineMemmapEntry { base: 1, length: 2, typ: 3 };
    let m = LimineMemmapRequest {
        id: [0; 4],
        revision: 0,
        response: Some(LimineMemmapResponse {
            revision: 0,
            entry_count: 1,
            entries: vec![entry, LimineMemmapEntry { base: 9, length: 9, typ: 9 }],
        }),
    };
    assert_eq!(memmap_entries(&m), &[entry]);
}

#[test]
fn kernel_space_is_set_up() {
    let mem = FrameBlock::new(0x1000, 0x200);
    let entries = [LimineMemmapEntry { base: 0x100_0000, length: 0x20_0000, typ: 0 }];
    let base = 0xffff_ffff_8000_0000u64;
    let layout = KernelLayout {
        stext: base,
        etext: base + 0x2000,
        srodata: base + 0x2000,
        erodata: base + 0x3000,
        sdata: base + 0x3000,
        egot: base + 0x4000,
        sbss_with_stack: base + 0x4000,
        ebss: base + 0x6000,
    };
    let offset = 0xffff_8000_0000_0000u64;
    let mut s = init(mem, &entries, 0x20_0000, 0x6000, layout, offset, 0x501);
    assert_eq!((s.nxe.msr, s.nxe.value), (EFER_MSR, 0xd01));
    assert_eq!(s.token, s.kernel_space.root_ppn().0 * 0x1000);
    assert_eq!(kernel_token(&s.kernel_space), s.token);
    let e = s.kernel_space.translate(&s.pool.mem, VirtPageNum(0xf_fff8_0000)).unwrap();
    assert_eq!(e.ppn(), PhysPageNum(0x200));
    assert!(e.executable() && !e.writable());
    let d = s.kernel_space.translate(&s.pool.mem, VirtPageNum(0xf_fff8_0003)).unwrap();
    assert_eq!(d.ppn(), PhysPageNum(0x203));
    assert!(!d.executable() && d.writable());
    let phys = s.kernel_space.translate(&s.pool.mem, VirtPageNum(0x8_0000_0123)).unwrap();
    assert_eq!(phys.ppn(), PhysPageNum(0x123));
    assert!(!phys.flags().contains(PTEFlags { bits: PTE_U }));
    assert!(window_possible(&s.kernel_space, &s.pool, offset, 0xFEC0_0000, 0x1000));
    ioremap(&mut s.kernel_space, &mut s.pool, offset, 0xFEC0_0000, 0x1000);
    assert!(!window_possible(&s.kernel_space, &s.pool, offset, 0xFEC0_0000, 0x1000));
    assert!(window_possible(&s.kernel_space, &s.pool, offset, 0xFEC0_1000, 0x1000));
    assert!(!window_possible(&s.kernel_space, &s.pool, offset, 0xFEC0_1800, 0x1000));
    assert!(!window_possible(&s.kernel_space, &s.pool, offset, 0xFEC0_1000, 0x1001));
    assert!(!window_possible(&s.kernel_space, &s.pool, offset, 0, 0x1000));
    let io = s.kernel_space.translate(&s.pool.mem, VirtPageNum(0x8_000F_EC00)).unwrap();
    assert_eq!(io.ppn(), PhysPageNum(0xF_EC00));
}

#[test]
fn windows_need_frames() {
    let mut p = pool(4);
    let ms = MemorySet::new_bare(&mut p);
    let offset = 0xffff_8000_0000_0000;
    assert!(window_possible(&ms, &p, offset, 0x20_0000, 0x20_0000));
    // the last page lies below another table
    assert!(!window_possible(&ms, &p, offset, 0x20_0000, 0x20_1000));
    assert!(window_possible(&ms, &p, offset, 0x20_0000, 0));
}

#[test]
fn memory_is_set_up_only_where_it_can_be() {
    let base = 0xffff_ffff_8000_0000u64;
    let layout = KernelLayout {
        stext: base,
        etext: base + 0x2000,
        srodata: base + 0x2000,
        erodata: base + 0x3000,
        sdata: base + 0x3000,
        egot: base + 0x4000,
        sbss_with_stack: base + 0x4000,
        ebss: base + 0x6000,
    };
    let offset = 0xffff_8000_0000_0000u64;
    let mem = FrameBlock::new(0x1000, 0x200);
    let entry = LimineMemmapEntry { base: 0x100_0000, length: 0x20_0000, typ: 0 };
    let whole = [entry];
    assert!(set_up_possible(&mem, &whole, 0x20_0000, 0x6000, layout, offset));
    // an entry that is not usable may overlap others
    let reserved = [entry, LimineMemmapEntry { base: 0x100_0000, length: 0x1000, typ: 1 }];
    assert!(set_up_possible(&mem, &reserved, 0x20_0000, 0x6000, layout, offset));
    let overlapping = [entry, LimineMemmapEntry { base: 0x100_0000, length: 0x1000, typ: 0 }];
    assert!(!set_up_possible(&mem, &overlapping, 0x20_0000, 0x6000, layout, offset));
    let beyond = [LimineMemmapEntry { base: 0x100_0000, length: 0x20_1000, typ: 0 }];
    assert!(!set_up_possible(&mem, &beyond, 0x20_0000, 0x6000, layout, offset));
    let little = [LimineMemmapEntry { base: 0x100_0000, length: 0x8000, typ: 0 }];
    assert!(!set_up_possible(&mem, &little, 0x20_0000, 0x6000, layout, offset));
    assert!(!set_up_possible(&mem, &whole, u64::MAX, 1, layout, offset));
    assert!(!set_up_possible(&mem, &whole, 0xffff_8000_1000, 0x6000, layout, offset));
    let twice = KernelLayout { srodata: base, ..layout };
    assert!(!set_up_possible(&mem, &whole, 0x20_0000, 0x6000, twice, offset));
}

#[test]
fn tables_above_a_page_permit_what_it_permits() {
    let mut p = pool(16);
    let mut ms = MemorySet::new_bare(&mut p);
    let page = VirtPageNum(0x1_2345_6789 % 0x8_0000_0000);
    ms.insert_framed_area(
        &mut p,
        page.addr(),
        VirtAddr(page.addr().0 + 0x1000),
        perm(MAP_R | MAP_U),
    );
    let mut table = ms.root_ppn().0;
    let indexes = page.indexes();
    for level in 0..3 {
        let word = p.mem.read_word(table, indexes[level]);
        let flags = PageTableEntry { bits: word };
        assert_eq!(word & 0x8000_0000_0000_0fff, PTE_V | PTE_W | PTE_U);
        table = flags.ppn().0;
    }
    let leaf = p.mem.read_word(table, indexes[3]);
    assert_eq!(leaf & 0x8000_0000_0000_0fff, PTE_V | PTE_U | PTE_NX);
}
