use std::collections::VecDeque;

use rcore::config::kernel_stack_position;
use rcore::cpu::{init_all_per_cpu_slots, init_cpu, smp_boot_aps, ApBarrier};
use rcore::drivers::block::{poll_again, write_buffer};
use rcore::drivers::bus::{dma_alloc, dma_dealloc, draw_possible, give_back_possible, share};
use rcore::drivers::chardev::{can_send, data_ready, NS16550a, PortWrite};
use rcore::drivers::pci::{
    config_address, ecam_base, find_block, map_bar, Bar, PciFunction, Window,
};
use rcore::ioapic::{IoApic, RegisterWrite};
use rcore::limine_reqs::{
    bsp_lapic_id, mp_response, LimineMpInfo, LimineMpRequest, LimineMpResponse,
};
use rcore::loader::{get_app_data, get_num_app, kernel_stack_top, push_context};
use rcore::mm::address::{PhysPageNum, VirtAddr, VirtPageNum};
use rcore::mm::frame_allocator::{FrameDequeAllocator, FramePool};
use rcore::mm::map_area::{MapPermission, MAP_R};
use rcore::mm::memory_set::MemorySet;
use rcore::mm::phys::{FrameBlock, PhysMemory};
use rcore::sync::condvar::Condvar;
use rcore::sync::mutex::{LockOutcome, Mutex, MutexBlocking, MutexSpin};
use rcore::sync::semaphore::Semaphore;
use rcore::sync::up::UPSafeCell;
use rcore::timer::{self, lapic_register, LapicPlace};
use rcore::trap::context::TrapContext;
use rcore::trap::gdt::{segment, tss_segment, Gdt};
use rcore::trap::idt::{empty, IdtEntry, InterruptDescriptorTable};
use rcore::trap::msr::{enable_nxe, msr_value, syscall_init, MsrWrite};
use rcore::trap::paging::{self, BootTables};
use rcore::trap::tss::TaskStateSegment;
use rcore::uart::shutdown;

fn pool(count: usize) -> FramePool<FrameBlock> {
    let mem = FrameBlock::new(0x100, count);
    let mut allocator = FrameDequeAllocator::new();
    allocator.init(&[(PhysPageNum(0x100), PhysPageNum(0x100 + count as u64))]);
    FramePool { mem, allocator }
}

fn function(device: u8, vendor_id: u16, device_id: u16) -> PciFunction {
    PciFunction { bus: 0, device, function: 0, vendor_id, device_id }
}

#[test]
fn block_device_is_found() {
    let other = function(0, 0x8086, 0x29c0);
    let net = function(1, 0x1af4, 0x1000);
    let old = function(2, 0x1af4, 0x1001);
    let new = function(3, 0x1af4, 0x1042);
    assert_eq!(find_block(&vec![other, net, old, new]), Some(old));
    assert_eq!(find_block(&vec![new, old]), Some(new));
    assert_eq!(find_block(&vec![other, net]), None);
    assert_eq!(find_block(&vec![function(4, 0x1af5, 0x1001)]), None);
    assert_eq!(find_block(&Vec::new()), None);
}

#[test]
fn configuration_words_have_own_addresses() {
    assert_eq!(config_address(0, 0, 0, 0x60), 0x8000_0060);
    assert_eq!(config_address(1, 2, 3, 0x0d), 0x8001_130c);
    // fields that do not fit run into their neighbours
    assert_eq!(config_address(0, 33, 9, 0), 0x8001_0900);
    assert_eq!(ecam_base(0xb000_0001, 0x12), 0x12_b000_0000);
}

#[test]
fn register_windows_cover_whole_pages() {
    let bar = Bar::Memory { wide: false, address: 0xfebd_5100, size: 0x1000 };
    assert_eq!(map_bar(bar, 1), (Some(Window { start: 0xfebd_5000, len: 0x2000 }), 2));
    let wide = Bar::Memory { wide: true, address: 0xfe00_0000, size: 0x4000 };
    assert_eq!(map_bar(wide, 4), (Some(Window { start: 0xfe00_0000, len: 0x4000 }), 6));
    assert_eq!(map_bar(Bar::Memory { wide: true, address: 0, size: 16 }, 2), (None, 3));
    assert_eq!(map_bar(Bar::Memory { wide: false, address: 16, size: 0 }, 2), (None, 3));
    assert_eq!(map_bar(Bar::Other, 0), (None, 1));
}

#[test]
fn serial_line_wakes_its_reader() {
    let mut s = NS16550a::new();
    let writes = s.init();
    assert_eq!(writes[1], PortWrite { port: 0x3fb, value: 0x80 });
    assert_eq!(writes[6], PortWrite { port: 0x3fc, value: 0x0b });
    assert_eq!(s.write(b'x'), PortWrite { port: 0x3f8, value: b'x' });
    assert_eq!(s.read(5), None);
    assert_eq!(s.handle_irq(&Vec::new()), None);
    assert_eq!(s.handle_irq(&vec![b'a', b'b']), Some(5));
    assert_eq!(s.handle_irq(&vec![b'c']), None);
    assert_eq!((s.read(5), s.read(5), s.read(5)), (Some(b'a'), Some(b'b'), Some(b'c')));
    assert!(data_ready(0x61) && !data_ready(0x60));
    assert!(can_send(0x20) && !can_send(0x1f));
}

#[test]
fn polling_gives_way_now_and_then() {
    assert_eq!(poll_again(0), (1, false));
    assert_eq!(poll_again(255), (256, true));
    assert_eq!(poll_again(u64::MAX), (0, true));
}

#[test]
fn block_buffers_are_copied() {
    let mut b = vec![0u8; 512];
    b[511] = 7;
    assert_eq!(&write_buffer(&b)[..], &b[..]);
}

#[test]
fn device_memory_is_contiguous() {
    let mut p = pool(8);
    p.mem.write_word(0x101, 7, 9);
    p.mem.write_word(0x104, 7, 9);
    let mut queue = Vec::new();
    assert!(draw_possible(&p, 8) && !draw_possible(&p, 9));
    assert_eq!(dma_alloc(&mut p, &mut queue, 3), 0x10_0000);
    assert_eq!(queue.len(), 3);
    assert_eq!(queue[2].ppn, PhysPageNum(0x102));
    assert_eq!((p.mem.read_word(0x101, 7), p.mem.read_word(0x104, 7)), (0, 9));
    assert!(give_back_possible(&p, 0x10_0000, 3));
    assert!(!give_back_possible(&p, 0x10_0000, 4));
    assert!(!give_back_possible(&p, 0x10_3000, 1));
    assert_eq!(dma_alloc(&mut p, &mut queue, 0), 0);
    assert_eq!(dma_dealloc(&mut p, 0x10_0000, 3), 0);
    assert_eq!(p.allocator.free_count(), 8);
    // the frames given back come again, the last one first
    assert!(draw_possible(&p, 1) && !draw_possible(&p, 2));
}

#[test]
fn shared_buffer_is_given_by_physical_address() {
    let mut p = pool(16);
    let mut ms = MemorySet::new_bare(&mut p);
    ms.insert_framed_area(
        &mut p,
        VirtAddr(0x7000),
        VirtAddr(0x8000),
        MapPermission { bits: MAP_R },
    );
    let frame = ms.translate(&p.mem, VirtPageNum(7)).unwrap().ppn().0;
    assert_eq!(share(&p.mem, ms.token(), 0x7123), frame * 0x1000 + 0x123);
}

#[test]
fn pins_have_their_own_registers() {
    let a = IoApic { base: 0 };
    assert_eq!(
        a.route(4, 0x124, 0x102),
        [
            RegisterWrite { reg: 0x18, value: 0x24 },
            RegisterWrite { reg: 0x19, value: 0x0200_0000 },
        ]
    );
    assert_eq!(a.route(5, 0x25, 0)[0].reg, 0x1a);
    let mut p = pool(16);
    let mut ms = MemorySet::new_bare(&mut p);
    let a = IoApic::new(&mut ms, &mut p, 0xffff_8000_0000_0000);
    assert_eq!(a.base, 0xffff_8000_fec0_0000);
    let e = ms.translate(&p.mem, VirtPageNum(0x8_000f_ec00)).unwrap();
    assert_eq!(e.ppn(), PhysPageNum(0xf_ec00));
}

fn info(lapic_id: u32) -> LimineMpInfo {
    LimineMpInfo { processor_id: 0, lapic_id, reserved: 0, goto_address: 0, extra_argument: 0 }
}

#[test]
fn processors_are_released_with_numbers() {
    let mut r = LimineMpResponse {
        revision: 0,
        flags: 0,
        bsp_lapic_id: 6,
        cpu_count: 3,
        cpus: vec![info(4), info(6), info(2), info(8)],
    };
    assert_eq!(smp_boot_aps(&mut r, 0x9000), 2);
    assert_eq!((r.cpus[0].extra_argument, r.cpus[0].goto_address), (1, 0x9000));
    assert_eq!((r.cpus[1].extra_argument, r.cpus[1].goto_address), (0, 0));
    assert_eq!((r.cpus[2].extra_argument, r.cpus[2].goto_address), (2, 0x9000));
    assert_eq!((r.cpus[3].extra_argument, r.cpus[3].goto_address), (0, 0));
    let q = LimineMpRequest { id: [0; 4], revision: 0, response: Some(r) };
    assert_eq!(bsp_lapic_id(&q), 6);
    assert_eq!(mp_response(&q).unwrap().cpu_count, 3);
    let none = LimineMpRequest { id: [0; 4], revision: 0, response: None };
    assert!(mp_response(&none).is_none());
}

#[test]
fn processors_wait_for_each_other() {
    let mut b = ApBarrier::new();
    assert!(!b.is_open());
    b.expect(2);
    b.ap_ready();
    assert!(!b.is_open());
    b.ap_ready();
    assert!(b.is_open());
    assert_eq!(b.ap_target(), 2);
}

#[test]
fn processor_slots_are_set_up() {
    let mut slots = init_all_per_cpu_slots();
    assert_eq!(slots.len(), 8);
    let w = init_cpu(&mut slots, 3, 7, 0x1_2345_6000, 0x5000, 0x4000);
    assert_eq!(
        w,
        [
            MsrWrite { msr: 0xC000_0100, value: 0 },
            MsrWrite { msr: 0xC000_0102, value: 0x4000 },
        ]
    );
    assert_eq!((slots[3].cpu_id, slots[3].apic_id), (3, 7));
    assert_eq!((slots[3].tss.rsp0_low, slots[3].tss.rsp0_high), (0x2345_6000, 1));
    assert_eq!(slots[3].gdt.table(), Gdt::new(0x5000).table());
    assert_eq!(slots[3].gdt.table()[5], tss_segment(0x5000).0);
    assert_eq!(slots[3].gdt.table()[4], 0x00cf_f200_0000_ffff);
    assert_eq!(slots[4].apic_id, 0);
}

#[test]
fn descriptors_are_encoded() {
    assert_eq!(segment(0x9a, 0, true, false), 0x00af_9a00_0000_ffff);
    assert_eq!(segment(0x92, 0, false, true), 0x00cf_9200_0000_ffff);
    assert_eq!(segment(0x9a, 3, true, false), 0x00af_fa00_0000_ffff);
    assert_eq!(segment(0x92, 3, false, true), 0x00cf_f200_0000_ffff);
    assert_eq!(
        tss_segment(0xffff_ffff_8123_4567),
        (0x8100_8923_4567_0067, 0xffff_ffff)
    );
    let g = Gdt::new(0x1000);
    assert_eq!(g.limit(), 63);
    assert_eq!(g.table()[3], 0x00af_fa00_0000_ffff);
    let t = TaskStateSegment::with_rsp0(0xffff_ffff_c000_2000);
    assert_eq!((t.rsp0_low, t.rsp0_high, t.iomap_base), (0xc000_2000, 0xffff_ffff, 0x68));
}

#[test]
fn gates_lead_to_their_handlers() {
    let mut idt = InterruptDescriptorTable::new();
    idt.set_handler(14, 0xffff_8123_4567_89ab);
    let e = idt.entries();
    assert_eq!(
        e[14],
        IdtEntry {
            offset_low: 0x89ab,
            selector: 8,
            ist: 0,
            type_attr: 0x8e,
            offset_mid: 0x4567,
            offset_high: 0xffff_8123,
            reserved: 0,
        }
    );
    assert_eq!((e[13], e[15]), (empty(), empty()));
    assert_eq!(
        empty(),
        IdtEntry {
            offset_low: 0,
            selector: 0,
            ist: 0,
            type_attr: 0x8e,
            offset_mid: 0,
            offset_high: 0,
            reserved: 0,
        }
    );
    assert_eq!(idt.limit(), 4095);
}

#[test]
fn registers_for_system_calls() {
    let w = syscall_init(0xffff_ffff_8000_1000, 0x500);
    assert_eq!(w.len(), 4);
    assert!(w.contains(&MsrWrite { msr: 0xC000_0082, value: 0xffff_ffff_8000_1000 }));
    assert!(w.contains(&MsrWrite { msr: 0xC000_0080, value: 0x501 }));
    assert_eq!(enable_nxe(0x500), MsrWrite { msr: 0xC000_0080, value: 0xd00 });
    assert_eq!((w[0].high(), w[0].low()), ((w[0].value >> 32) as u32, w[0].value as u32));
    assert_eq!(msr_value(0x12, 0x3400_0000), 0x12_3400_0000);
}

#[test]
fn boot_tables_map_the_kernel() {
    let mut mem = FrameBlock::new(0, 0x40);
    // A walk that maps one to one, as the boot loader left it: the first 2 MiB,
    // and the kernel's base at 0x20_0000.
    mem.write_word(1, 0, 0x2003);
    mem.write_word(2, 0, 0x3003);
    mem.write_word(3, 0, 0x83);
    mem.write_word(1, 511, 0x4003);
    mem.write_word(4, 510, 0x5003);
    mem.write_word(5, 0, 0x20_0083);
    let t = BootTables {
        pml4: 0x10000,
        pdpt_low: 0x11000,
        pdpt_kernel: 0x12000,
        pd_low: [0x13000, 0x14000, 0x15000, 0x16000],
        pd_kernel: 0x17000,
        pt_kernel: [0x18000, 0x19000, 0x1a000, 0x1b000],
    };
    let cr3 = paging::init(&mut mem, 0x1000, &t, 0x2001);
    assert_eq!(cr3, 0x10000);
    let base = 0xffff_ffff_8000_0000u64;
    assert_eq!(paging::translate(&mem, cr3, base + 0x123), Some(0x20_0123));
    assert_eq!(paging::translate(&mem, cr3, base + 0x2fff), Some(0x20_2fff));
    assert_eq!(paging::translate(&mem, cr3, base + 0x3000), None);
    assert_eq!(paging::translate(&mem, cr3, 0xfee0_0010), Some(0xfee0_0010));
    assert_eq!(paging::translate(&mem, cr3, 0x1_0000_0000), None);
}

#[test]
fn huge_pages_are_translated() {
    let mut mem = FrameBlock::new(0, 4);
    mem.write_word(1, 0, 0x2003);
    mem.write_word(2, 3, 0x4000_0083);
    assert_eq!(paging::translate(&mem, 0x1000, 0xc012_3456), Some(0x4012_3456));
    assert_eq!(paging::translate(&mem, 0x1000, 0x8000_0000), None);
}

#[test]
fn local_timer_registers() {
    let w = timer::init();
    assert_eq!((w[0].offset, w[0].value), (0x3e0, 0x0b));
    assert_eq!((w[1].offset, w[1].value), (0x320, 0x2_0020));
    assert_eq!((w[2].offset, w[2].value), (0x380, 1_000_000));
    assert_eq!(timer::timer_eoi().offset, 0xb0);
    assert!(timer::set_next_trigger().is_none());
    assert_eq!(lapic_register(0xfee0_0900, 0x320), LapicPlace::Physical(0xfee0_0320));
    assert_eq!(lapic_register(0xfee0_0d00, 0x320), LapicPlace::Msr(0x832));
}

#[test]
fn linked_programs_are_listed() {
    let table = [2u64, 0x1000, 0x1800, 0x1900];
    assert_eq!(get_num_app(&table), 2);
    assert_eq!(get_app_data(&table, 0), (0x1000, 0x800));
    assert_eq!(get_app_data(&table, 1), (0x1800, 0x100));
    assert_eq!(kernel_stack_top(0x10_0000, 1), 0x10_4000);
    assert_eq!(kernel_stack_position(2), (0xffff_ffff_c000_6000, 0xffff_ffff_c000_8000));
}

#[test]
fn context_lies_on_top_of_its_stack() {
    let mut cx = TrapContext::app_init_context(0x1000, 0x2000);
    cx.rax = 7;
    let mut memory = vec![5u64; 16 * 1024];
    assert_eq!(push_context(&mut memory, 0x10_0000, 1, &cx), 0x10_3f50);
    let first = 0x3f50 / 8;
    assert_eq!(memory[first..first + 22], cx.words());
    assert_eq!((memory[first], memory[first + 17], memory[first + 20]), (7, 0x1000, 0x2000));
    assert_eq!((memory[first + 18], memory[first + 21]), (0x1b, 0x23));
    assert_eq!((memory[first - 1], memory[first + 22]), (5, 5));
}

#[test]
fn shutdown_codes() {
    assert_eq!((shutdown(false), shutdown(true)), (0x10, 0x11));
}

#[test]
fn first_context_of_a_program() {
    let cx = TrapContext::app_init_context(0x1000, 0x2000);
    assert_eq!((cx.rip, cx.rsp), (0x1000, 0x2000));
    assert_eq!((cx.cs, cx.ss, cx.rflags), (0x1b, 0x23, 2));
    assert_eq!((cx.rax, cx.trap_num, cx.error_code), (0, 0x80, 0));
}

#[test]
fn cell_gives_access_to_one_at_a_time() {
    let mut c = UPSafeCell::new(5);
    {
        let mut g = c.exclusive_access().unwrap();
        assert_eq!(*g.deref(), 5);
        g.set(6);
        assert!(g.lock.exclusive_access().is_none());
        g.release();
    }
    let g = c.exclusive_access().unwrap();
    assert_eq!(*g.deref(), 6);
    g.release();
}

#[test]
fn spinning_lock_gives_way() {
    let mut m = MutexSpin::new();
    assert_eq!(m.lock(1), LockOutcome::Acquired);
    assert_eq!(m.lock(2), LockOutcome::Yield);
    assert_eq!(m.unlock(), None);
    assert_eq!(m.lock(2), LockOutcome::Acquired);
    m.unlock();
    assert_eq!(m.unlock(), None);
    assert_eq!(m.lock(3), LockOutcome::Acquired);
}

#[test]
fn blocking_lock_is_handed_over() {
    let mut m = MutexBlocking::new();
    assert_eq!(m.lock(1), LockOutcome::Acquired);
    assert_eq!(m.lock(2), LockOutcome::Blocked);
    assert_eq!(m.lock(3), LockOutcome::Blocked);
    assert!(m.waits(3) && !m.waits(1));
    assert_eq!(m.unlock(), Some(2));
    assert_eq!(m.unlock(), Some(3));
    assert_eq!(m.unlock(), None);
    assert_eq!(m.lock(4), LockOutcome::Acquired);
}

#[test]
fn semaphore_counts() {
    let mut s = Semaphore::new(1);
    assert!(!s.down(1));
    assert!(s.down(2));
    assert!(s.down(3));
    assert_eq!(s.inner.count, -2);
    assert_eq!(s.inner.wait_queue, VecDeque::from(vec![2, 3]));
    assert_eq!(s.up(), Some(2));
    assert_eq!(s.up(), Some(3));
    assert_eq!(s.up(), None);
    assert_eq!(s.inner.count, 1);
}

#[test]
fn condition_wakes_the_longest_waiting() {
    let mut c = Condvar::new();
    assert_eq!(c.signal(), None);
    let mut m = MutexBlocking::new();
    m.lock(1);
    m.lock(9);
    assert_eq!(c.wait(&mut m, 1), Some(9));
    c.wait_no_sched(2);
    assert_eq!(c.signal(), Some(1));
    assert_eq!(c.signal(), Some(2));
    assert_eq!(c.signal(), None);
}

#[test]
fn task_state_segment_is_laid_out() {
    let bytes = TaskStateSegment::with_rsp0(0x1122_3344_5566_7788).bytes();
    let mut expected = vec![0u8; 104];
    expected[4..12].copy_from_slice(&[0x88, 0x77, 0x66, 0x55, 0x44, 0x33, 0x22, 0x11]);
    // the map of the ports lies beyond the end, so all of them are forbidden
    expected[102] = 104;
    assert_eq!(bytes, expected);
    let mut segment = TaskStateSegment::new();
    assert_eq!(segment.bytes()[102..], [104, 0]);
    segment.ist[1] = 0x0102_0304_0506_0708;
    segment.reserved4 = 0x0a0b;
    let bytes = segment.bytes();
    assert_eq!(bytes[44..52], [8, 7, 6, 5, 4, 3, 2, 1]);
    assert_eq!(bytes[100..102], [0x0b, 0x0a]);
}
