//! What the registers of devices are programmed to do.
use vstd::prelude::*;
use super::tables::lemma_register_bits;
use crate::drivers::bus::{frames_drawn, frames_given_back};
use crate::drivers::chardev::{init_writes, PortWrite};
use crate::drivers::pci::{
    bar_window, config_word, first_block, found_block, next_bar, Bar, PciFunction,
};
use crate::ioapic::route_writes;
use crate::mm::frame_allocator::{FramePool, FrameTracker};
use crate::mm::phys::PhysMemory;
use crate::timer::{register_place, timer_writes, LapicPlace};

verus! {

/// An interrupt of a pin goes to the local APIC that was given, with the vector that was
/// given: the low word of the pin's entry holds the vector and masks nothing, and the
/// topmost byte of the high word holds the id.
pub proof fn interrupts_are_routed(pin: u32, vector: u32, apic_id: u32)
    requires
        pin < 24,
    ensures
        ({
            let w = route_writes(pin, vector, apic_id);
            &&& w.len() == 2
            &&& w[0].reg == 0x10 + 2 * pin
            &&& w[1].reg == w[0].reg + 1
            &&& w[0].value % 0x100 == vector % 0x100
            &&& w[0].value as int / 0x100 == 0
            &&& w[1].value as int / 0x100_0000 == apic_id % 0x100
            &&& w[1].value % 0x100_0000 == 0
        }),
{
    assert((apic_id as int % 0x100) * 0x100_0000 <= 0xff00_0000);
}

/// The registers of the local APIC are model-specific registers exactly if bit 10 of the
/// base register is set, 16 bytes of offset being one register; otherwise they lie in the
/// page that the base register names.
pub proof fn registers_of_the_local_apic(apic_base: u64, offset: u32)
    requires
        offset <= 0x3f0,
        offset % 16 == 0,
        apic_base < 0xffff_ffff_ffff_0000,
    ensures
        (apic_base as int / 0x400) % 2 == 1 ==> (register_place(apic_base, offset) matches
            LapicPlace::Msr(msr) && 16 * (msr - 0x800) == offset),
        (apic_base as int / 0x400) % 2 == 0 ==> (register_place(apic_base, offset) matches
            LapicPlace::Physical(pa) && pa as int / 0x1000 == apic_base as int / 0x1000 && pa
            % 0x1000 == offset),
{
    lemma_register_bits(apic_base);
}

/// The timer is started last, after its vector and its mode are set: vector 32, periodic
/// (bit 17), not masked (bit 16), counting every cycle of the bus.
pub proof fn timer_is_started_last()
    ensures
        ({
            let w = timer_writes();
            &&& w.len() == 3
            &&& w[2].offset == 0x380 && w[2].value * 1000 == 1_000_000_000
            &&& w[1].offset == 0x320 && w[1].value % 0x100 == 32
            &&& (w[1].value as int / 0x2_0000) % 2 == 1 && (w[1].value as int / 0x1_0000) % 2 == 0
            &&& w[0].offset == 0x3E0 && w[0].value == 0xB
        }),
{
}

/// What the serial line does with what is written to its registers.
pub struct LineState {
    /// the divisor of the clock
    pub divisor: int,
    /// which interrupts are enabled
    pub interrupts: int,
    /// the format of a character; bit 7 gives access to the divisor
    pub format: int,
    /// how the FIFO is used
    pub fifo: int,
    /// the lines of the modem
    pub modem: int,
}

/// The serial line at port 0x3F8 after one write.
pub open spec fn line_written(s: LineState, w: PortWrite) -> LineState {
    let value = w.value as int;
    if w.port == 0x3F8 && s.format >= 0x80 {
        LineState { divisor: s.divisor / 0x100 * 0x100 + value, ..s }
    } else if w.port == 0x3F9 && s.format >= 0x80 {
        LineState { divisor: s.divisor % 0x100 + value * 0x100, ..s }
    } else if w.port == 0x3F9 {
        LineState { interrupts: value, ..s }
    } else if w.port == 0x3FA {
        LineState { fifo: value, ..s }
    } else if w.port == 0x3FB {
        LineState { format: value, ..s }
    } else if w.port == 0x3FC {
        LineState { modem: value, ..s }
    } else {
        s
    }
}

/// The serial line after some writes.
pub open spec fn line_after(s: LineState, writes: Seq<PortWrite>, n: int) -> LineState
    decreases n,
{
    if n <= 0 {
        s
    } else {
        line_written(line_after(s, writes, n - 1), writes[n - 1])
    }
}

/// Whatever state the serial line was in, it is then set to the full speed with eight bits
/// and no parity, uses its FIFO, and interrupts when a byte has come.
pub proof fn serial_line_is_set_up(s: LineState)
    requires
        0 <= s.divisor < 0x1_0000,
        0 <= s.format < 0x100,
    ensures
        line_after(s, init_writes(), 8) == (LineState {
            divisor: 1,
            interrupts: 1,
            format: 3,
            fifo: 1,
            modem: 0xB,
        }),
        init_writes().len() == 8,
        line_after(s, init_writes(), 8).format < 0x80,
{
    let w = init_writes();
    reveal_with_fuel(line_after, 9);
    let s2 = line_after(s, w, 2);
    assert(s2.format == 0x80);
    let s4 = line_after(s, w, 4);
    assert(s4.divisor == 1);
}

/// The word that selects a register in the configuration space of a device has the number
/// of the bus, of the device and of the function, and the offset of the register, each in
/// its place.
pub proof fn configuration_word_names_the_register(bus: u8, dev: u8, func: u8, reg: u8)
    requires
        dev < 32,
        func < 8,
    ensures
        config_word(bus, dev, func, reg) == 0x8000_0000 + bus * 0x1_0000 + dev * 0x800 + func
            * 0x100 + reg as int / 4 * 4,
{
    let b = bus as u32;
    let d = dev as u32;
    let f = func as u32;
    let r = reg as u32;
    assert(0x8000_0000u32 | b << 16 | d << 11 | f << 8 | (r & 0xFC) == 0x8000_0000u32 + b * 0x1_0000
        + d * 0x800 + f * 0x100 + r / 4 * 4) by (bit_vector)
        requires
            b < 256,
            d < 32,
            f < 8,
            r < 256,
    ;
}

/// The block device that is found is the first function with the ids of one: the vendor is
/// 0x1af4, and the device is an old or a new block device.
pub proof fn first_block_device_is_found(functions: Seq<PciFunction>, i: int)
    requires
        0 <= i <= functions.len(),
        forall|j: int|
            0 <= j < i ==> !((#[trigger] functions[j]).vendor_id == 0x1af4 && (functions[j].device_id
                == 0x1001 || functions[j].device_id == 0x1042)),
        i < functions.len() ==> functions[i].vendor_id == 0x1af4 && (functions[i].device_id == 0x1001
            || functions[i].device_id == 0x1042),
    ensures
        i < functions.len() ==> found_block(functions) == Some(functions[i]),
        i == functions.len() ==> found_block(functions) is None,
{
    lemma_first_block(functions, 0, i);
}

proof fn lemma_first_block(functions: Seq<PciFunction>, from: int, i: int)
    requires
        0 <= from <= i <= functions.len(),
        forall|j: int|
            from <= j < i ==> !((#[trigger] functions[j]).vendor_id == 0x1af4 && (
            functions[j].device_id == 0x1001 || functions[j].device_id == 0x1042)),
        i < functions.len() ==> functions[i].vendor_id == 0x1af4 && (functions[i].device_id == 0x1001
            || functions[i].device_id == 0x1042),
    ensures
        first_block(functions, from) == i,
    decreases i - from,
{
    if from < i {
        assert(!(functions[from].vendor_id == 0x1af4 && (functions[from].device_id == 0x1001
            || functions[from].device_id == 0x1042)));
        lemma_first_block(functions, from + 1, i);
    }
}

/// The window of a range of registers is the smallest one of whole pages that covers it.
/// There is none for a range without a size or an address. A range with an address of 64
/// bits takes two slots.
pub proof fn register_window_is_the_smallest(wide: bool, address: u64, size: u32, index: u8)
    requires
        address + size + 0xfff <= u64::MAX,
        index < 6,
    ensures
        ({
            let bar = Bar::Memory { wide, address, size };
            if address == 0 || size == 0 {
                bar_window(bar) is None && next_bar(bar, index) == index + 1
            } else {
                &&& bar_window(bar) matches Some(w) && {
                    &&& w.start % 0x1000 == 0 && w.len % 0x1000 == 0
                    &&& w.start <= address < w.start + 0x1000
                    &&& w.start + w.len - 0x1000 < address + size <= w.start + w.len
                }
                &&& next_bar(bar, index) == (if wide {
                    index + 2
                } else {
                    index + 1
                })
            }
        }),
        bar_window(Bar::Other) is None,
        next_bar(Bar::Other, index) == index + 1,
{
}

/// The memory that a device gets begins at a page and is cleared. Its frames follow each
/// other and are no longer free, and nobody else's memory is touched.
pub proof fn device_memory_is_cleared_and_contiguous<M: PhysMemory>(
    pool: &FramePool<M>,
    pool0: &FramePool<M>,
    queue: Seq<FrameTracker>,
    queue0: Seq<FrameTracker>,
    pages: usize,
    pa: u64,
    f: u64,
    i: int,
)
    requires
        frames_drawn(pool, pool0, queue, queue0, pages, pa),
        0 <= i < 512,
    ensures
        pa % 0x1000 == 0,
        pa <= f * 0x1000 < pa + pages * 0x1000 ==> {
            &&& pool.frames()[f][i] == 0
            &&& pool.frames()[f].len() == 512
            &&& !pool.free().contains(f)
        },
        !(pa <= f * 0x1000 < pa + pages * 0x1000) ==> {
            &&& pool.frames()[f] == pool0.frames()[f]
            &&& pool.free().contains(f) == pool0.free().contains(f)
        },
{
    if pages > 0 {
        let first = pool0.allocator@.next_frame()->Some_0.0;
        assert(pa == first * 0x1000);
        assert((first * 0x1000) % 0x1000 == 0);
    }
    assert(pa as int / 0x1000 <= f < pa as int / 0x1000 + pages <==> pa <= f * 0x1000 < pa + pages
        * 0x1000);
}

/// Memory that a device gives back is free again and keeps what it holds.
pub proof fn device_memory_is_given_back<M: PhysMemory>(
    pool: &FramePool<M>,
    pool0: &FramePool<M>,
    pa: u64,
    pages: usize,
    f: u64,
)
    requires
        frames_given_back(pool, pool0, pa, pages),
        pa % 0x1000 == 0,
    ensures
        pa <= f * 0x1000 < pa + pages * 0x1000 ==> pool.free().contains(f),
        !(pa <= f * 0x1000 < pa + pages * 0x1000) ==> pool.free().contains(f)
            == pool0.free().contains(f),
        pool.frames()[f] == pool0.frames()[f],
{
    assert(pa as int / 0x1000 <= f < pa as int / 0x1000 + pages <==> pa <= f * 0x1000 < pa + pages
        * 0x1000);
}

} // verus!
