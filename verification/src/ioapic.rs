//! The IO-APIC, which sends the interrupts of devices to processors.
//!
//! Its registers are reached through two words of its window: the number of the
//! register goes to the first, and the second then shows the register. Pin `i`
//! has a pair of registers that say which vector its interrupts have and which
//! local APIC gets them.
use vstd::prelude::*;
use crate::mm::frame_allocator::FramePool;
use crate::mm::memory_set::{can_map_window, ioremap, pushed, window_area, MemorySet};
use crate::mm::phys::PhysMemory;

verus! {

/// The physical address of the window.
pub const IOAPIC_BASE: u64 = 0xFEC0_0000;

/// The offset of the word that selects a register.
pub const IOREGSEL: u32 = 0x00;

/// The offset of the word that shows the register.
pub const IOWIN: u32 = 0x10;

/// The number of pins.
pub const IOAPIC_PINS: u32 = 24;

/// The IO-APIC, by the address of its window.
#[derive(Copy, Clone, Debug, PartialEq, Eq, Structural)]
pub struct IoApic {
    pub base: u64,
}

/// A write to a register: `reg` goes to [`IOREGSEL`], then `value` to [`IOWIN`].
#[derive(Copy, Clone, Debug, PartialEq, Eq, Structural)]
pub struct RegisterWrite {
    pub reg: u32,
    pub value: u32,
}

/// The registers of `pin` for interrupts with `vector` at local APIC `apic_id`:
/// fixed delivery to a physical destination, edge triggered, not masked.
pub open spec fn route_writes(pin: u32, vector: u32, apic_id: u32) -> Seq<RegisterWrite> {
    seq![
        RegisterWrite { reg: (0x10 + 2 * pin) as u32, value: vector % 0x100 },
        RegisterWrite {
            reg: (0x11 + 2 * pin) as u32,
            value: ((apic_id as int % 0x100) * 0x100_0000) as u32,
        },
    ]
}

impl IoApic {
    /// Map the window of the IO-APIC into the physmap.
    pub fn new<M: PhysMemory>(
        kernel_space: &mut MemorySet,
        pool: &mut FramePool<M>,
        phys_offset: u64,
    ) -> (r: Self)
        requires
            old(pool).wf(),
            old(kernel_space).wf(old(pool)),
            phys_offset + IOAPIC_BASE <= u64::MAX,
            can_map_window(old(kernel_space), old(pool), phys_offset, IOAPIC_BASE, 0x1000),
        ensures
            final(pool).wf(),
            final(kernel_space).wf(final(pool)),
            pushed(
                final(kernel_space),
                final(pool),
                old(kernel_space),
                old(pool),
                window_area(phys_offset, IOAPIC_BASE as int, 0x1000),
                None,
            ),
            r.base == phys_offset + IOAPIC_BASE,
    {
        ioremap(kernel_space, pool, phys_offset, IOAPIC_BASE, 0x1000);
        IoApic { base: phys_offset + IOAPIC_BASE }
    }

    /// The writes that let the interrupts of `pin` come with `vector` to local
    /// APIC `apic_id`.
    pub fn route(&self, pin: u32, vector: u32, apic_id: u32) -> (r: [RegisterWrite; 2])
        requires
            pin < IOAPIC_PINS,
        ensures
            r@ == route_writes(pin, vector, apic_id),
    {
        let r = [
            RegisterWrite { reg: 0x10 + 2 * pin, value: vector % 0x100 },
            RegisterWrite { reg: 0x11 + 2 * pin, value: (apic_id % 0x100) * 0x100_0000 },
        ];
        assert(r@ =~= route_writes(pin, vector, apic_id));
        r
    }
}

/// No two pins share a register.
pub proof fn pins_have_own_registers(pin: u32, other: u32, vector: u32, apic_id: u32)
    requires
        pin < other < IOAPIC_PINS,
    ensures
        forall|i: int, j: int|
            0 <= i < 2 && 0 <= j < 2 ==> (#[trigger] route_writes(pin, vector, apic_id)[i]).reg
                != (#[trigger] route_writes(other, vector, apic_id)[j]).reg,
{
}

} // verus!
