//! The PCI bus.
//!
//! The configuration space of the devices is shown in memory, at a place that a
//! register of the memory controller tells. That register is read through the
//! legacy ports.
use vstd::prelude::*;
use virtio_drivers::transport::pci::bus::{DeviceFunctionInfo, HeaderType};
use virtio_drivers::transport::pci::virtio_device_type;
use virtio_drivers::transport::DeviceType;

verus! {

/// The size of the configuration space of bus 0.
pub const ECAM_BUS0_SIZE: u64 = 0x10_0000;

/// The word to write to the legacy address port to read register `reg` of a
/// function.
pub open spec fn config_word(bus: u8, dev: u8, func: u8, reg: u8) -> u32 {
    0x8000_0000u32 | (bus as u32) << 16 | (dev as u32) << 11 | (func as u32) << 8 | (reg as u32
        & 0xFC)
}

/// The word to write to the legacy address port to read register `reg` of a
/// function.
pub fn config_address(bus: u8, dev: u8, func: u8, reg: u8) -> (r: u32)
    ensures
        r == config_word(bus, dev, func, reg),
{
    0x8000_0000u32 | (bus as u32) << 16 | (dev as u32) << 11 | (func as u32) << 8 | (reg as u32
        & 0xFC)
}

/// Two registers with different places have different addresses.
pub proof fn config_addresses_differ(
    a: (u8, u8, u8, u8),
    b: (u8, u8, u8, u8),
)
    requires
        a.1 < 32,
        b.1 < 32,
        a.2 < 8,
        b.2 < 8,
        config_word(a.0, a.1, a.2, a.3) == config_word(b.0, b.1, b.2, b.3),
    ensures
        a.0 == b.0,
        a.1 == b.1,
        a.2 == b.2,
        a.3 / 4 == b.3 / 4,
{
    let (a0, a1, a2, a3) = a;
    let (b0, b1, b2, b3) = b;
    assert(a0 == b0 && a1 == b1 && a2 == b2 && a3 / 4 == b3 / 4) by (bit_vector)
        requires
            a1 < 32u8,
            b1 < 32u8,
            a2 < 8u8,
            b2 < 8u8,
            0x8000_0000u32 | (a0 as u32) << 16 | (a1 as u32) << 11 | (a2 as u32) << 8 | (a3 as u32
                & 0xFC) == 0x8000_0000u32 | (b0 as u32) << 16 | (b1 as u32) << 11 | (b2 as u32) << 8
                | (b3 as u32 & 0xFC),
    ;
}

/// The physical address of the configuration space, from the two halves of the
/// register that tells it. Bit 0 says that it is enabled.
pub fn ecam_base(low: u32, high: u32) -> (r: u64)
    requires
        low % 2 == 1,
    ensures
        r == (high * 0x1_0000_0000 + low) / 0x100 * 0x100,
{
    let value: u64 = high as u64 * 0x1_0000_0000 + low as u64;
    value / 0x100 * 0x100
}

/// A function of a device on the bus.
#[derive(Copy, Clone, Debug, PartialEq, Eq, Structural)]
pub struct PciFunction {
    pub bus: u8,
    pub device: u8,
    pub function: u8,
    pub vendor_id: u16,
    pub device_id: u16,
}

/// Whether these are the ids of a VirtIO block device, by the old or the new
/// numbering.
pub open spec fn virtio_block(vendor_id: u16, device_id: u16) -> bool {
    vendor_id == 0x1af4 && (device_id == 0x1001 || device_id == 0x1042)
}

/// `virtio_drivers::transport::pci::virtio_device_type` gives the type of a VirtIO
/// device from its ids alone: it is a block device if the vendor is 0x1af4 and the
/// device has the old id 0x1001, or the new one, 0x1040 and the number 2 of block
/// devices.
#[verifier::external_body]
fn is_virtio_block(vendor_id: u16, device_id: u16) -> (r: bool)
    ensures
        r == virtio_block(vendor_id, device_id),
{
    let info = DeviceFunctionInfo {
        vendor_id,
        device_id,
        class: 0,
        subclass: 0,
        prog_if: 0,
        revision: 0,
        header_type: HeaderType::Standard,
    };
    virtio_device_type(&info) == Some(DeviceType::Block)
}

/// The position of the first VirtIO block device from `i` on, or the number of
/// functions if there is none.
pub open spec fn first_block(functions: Seq<PciFunction>, i: int) -> int
    decreases functions.len() - i,
{
    if i >= functions.len() {
        functions.len() as int
    } else if virtio_block(functions[i].vendor_id, functions[i].device_id) {
        i
    } else {
        first_block(functions, i + 1)
    }
}

/// The first function that is a block device, if there is one.
pub open spec fn found_block(functions: Seq<PciFunction>) -> Option<PciFunction> {
    let i = first_block(functions, 0);
    if 0 <= i < functions.len() {
        Some(functions[i])
    } else {
        None
    }
}

/// The first VirtIO block device of the bus.
pub fn find_block(functions: &Vec<PciFunction>) -> (r: Option<PciFunction>)
    ensures
        r == found_block(functions@),
{
    let mut i: usize = 0;
    while i < functions.len()
        invariant
            i <= functions@.len(),
            first_block(functions@, i as int) == first_block(functions@, 0),
        decreases functions@.len() - i,
    {
        if is_virtio_block(functions[i].vendor_id, functions[i].device_id) {
            return Some(functions[i]);
        }
        i = i + 1;
    }
    None
}

/// What a base address register of a device tells.
#[derive(Copy, Clone, Debug, PartialEq, Eq, Structural)]
pub enum Bar {
    /// a window of memory, which takes two registers if its address is `wide`
    Memory { wide: bool, address: u64, size: u32 },
    /// ports, or nothing that can be read
    Other,
}

/// A window of physical memory, in whole pages.
#[derive(Copy, Clone, Debug, PartialEq, Eq, Structural)]
pub struct Window {
    pub start: u64,
    pub len: u64,
}

/// The pages of the window of a register, if it has one.
pub open spec fn bar_window(bar: Bar) -> Option<Window> {
    match bar {
        Bar::Memory { address, size, .. } => if size != 0 && address != 0 {
            let start = address as int / 0x1000 * 0x1000;
            let end = (address + size + 0xfff) / 0x1000 * 0x1000;
            Some(Window { start: start as u64, len: (end - start) as u64 })
        } else {
            None
        },
        Bar::Other => None,
    }
}

/// The register to look at after register `index`.
pub open spec fn next_bar(bar: Bar, index: u8) -> int {
    if bar_window(bar) is Some && bar->wide {
        index + 2
    } else {
        index + 1
    }
}

/// The window to map for base address register `index`, if any, and the register
/// to look at next: the second half of a wide address is no register of its own.
pub fn map_bar(bar: Bar, index: u8) -> (r: (Option<Window>, u8))
    requires
        index < 6,
        bar matches Bar::Memory { address, size, .. } ==> address + size + 0xfff <= u64::MAX,
    ensures
        r.0 == bar_window(bar),
        r.1 == next_bar(bar, index),
{
    match bar {
        Bar::Memory { wide, address, size } => {
            if size != 0 && address != 0 {
                let start: u64 = address / 0x1000 * 0x1000;
                let end: u64 = (address + size as u64 + 0xfff) / 0x1000 * 0x1000;
                let window = Window { start, len: end - start };
                if wide {
                    (Some(window), index + 2)
                } else {
                    (Some(window), index + 1)
                }
            } else {
                (None, index + 1)
            }
        },
        Bar::Other => (None, index + 1),
    }
}

/// The window of a register covers all its addresses and consists of whole pages.
pub proof fn windows_cover_registers(wide: bool, address: u64, size: u32)
    requires
        address != 0,
        size != 0,
        address + size + 0xfff <= u64::MAX,
    ensures
        bar_window(Bar::Memory { wide, address, size }) matches Some(w) && {
            &&& w.start % 0x1000 == 0
            &&& w.len % 0x1000 == 0
            &&& w.start <= address
            &&& address + size <= w.start + w.len
        },
{
}

} // verus!
