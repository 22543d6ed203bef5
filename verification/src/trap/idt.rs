//! The interrupt descriptor table.
use vstd::prelude::*;
use super::gdt::KERNEL_CS;

verus! {

/// Gate type: present, DPL 0, interrupt gate.
pub const INTERRUPT_GATE: u8 = 0x8E;

/// A gate: 16 bytes.
#[derive(Copy, Clone, Debug, PartialEq, Eq, Structural)]
pub struct IdtEntry {
    pub offset_low: u16,
    pub selector: u16,
    pub ist: u8,
    pub type_attr: u8,
    pub offset_mid: u16,
    pub offset_high: u32,
    pub reserved: u32,
}

impl IdtEntry {
    /// The address of the handler.
    pub open spec fn handler(&self) -> int {
        self.offset_low + self.offset_mid * 0x1_0000 + self.offset_high * 0x1_0000_0000
    }

    /// A gate to `handler`.
    pub fn new(handler: u64, selector: u16, type_attr: u8) -> (r: Self)
        ensures
            r.handler() == handler,
            r.offset_low == handler % 0x1_0000,
            r.selector == selector,
            r.ist == 0,
            r.type_attr == type_attr,
            r.reserved == 0,
    {
        Self {
            offset_low: (handler % 0x1_0000) as u16,
            selector,
            ist: 0,
            type_attr,
            offset_mid: ((handler / 0x1_0000) % 0x1_0000) as u16,
            offset_high: (handler / 0x1_0000_0000) as u32,
            reserved: 0,
        }
    }
}

/// Whether `e` leads interrupts and exceptions to `handler`.
pub open spec fn gate(e: IdtEntry, handler: u64, selector: u16, type_attr: u8) -> bool {
    &&& e.handler() == handler
    &&& e.selector == selector
    &&& e.ist == 0
    &&& e.type_attr == type_attr
    &&& e.reserved == 0
}

/// A gate is determined by its handler, selector and type.
pub proof fn gate_is_unique(a: IdtEntry, b: IdtEntry, handler: u64, selector: u16, type_attr: u8)
    requires
        gate(a, handler, selector, type_attr),
        gate(b, handler, selector, type_attr),
    ensures
        a == b,
{
    assert(a.offset_high == a.handler() / 0x1_0000_0000 && b.offset_high == b.handler()
        / 0x1_0000_0000);
    assert(a.offset_low == a.handler() % 0x1_0000 && b.offset_low == b.handler() % 0x1_0000);
}

/// An entry without a handler: an interrupt gate that is present, for the kernel.
pub fn empty() -> (r: IdtEntry)
    ensures
        gate(r, 0, 0, INTERRUPT_GATE),
{
    IdtEntry::new(0, 0, INTERRUPT_GATE)
}

/// The interrupt descriptor table: a gate for each of the 256 vectors.
#[derive(Copy, Clone, Debug)]
pub struct InterruptDescriptorTable {
    entries: [IdtEntry; 256],
}

impl InterruptDescriptorTable {
    /// The gates.
    pub closed spec fn gates(&self) -> Seq<IdtEntry> {
        self.entries@
    }

    /// A table of interrupt gates that are present, for the kernel, and have no
    /// handler yet.
    pub fn new() -> (r: Self)
        ensures
            r.gates().len() == 256,
            forall|i: int| 0 <= i < 256 ==> gate(#[trigger] r.gates()[i], 0, 0, INTERRUPT_GATE),
    {
        Self { entries: [empty();256] }
    }

    /// Let vector `vector` go to `handler`.
    pub fn set_handler(&mut self, vector: usize, handler: u64)
        requires
            vector < 256,
        ensures
            final(self).gates().len() == 256,
            gate(final(self).gates()[vector as int], handler, KERNEL_CS, INTERRUPT_GATE),
            forall|i: int|
                0 <= i < 256 && i != vector ==> #[trigger] final(self).gates()[i]
                    == old(self).gates()[i],
    {
        self.entries[vector] = IdtEntry::new(handler, KERNEL_CS, INTERRUPT_GATE);
    }

    /// The gates, to be put where the processor reads them.
    pub fn entries(&self) -> (r: [IdtEntry; 256])
        ensures
            r@ == self.gates(),
    {
        self.entries
    }

    /// The limit to load with the address of the table: its size less one.
    pub fn limit(&self) -> (r: u16)
        ensures
            r == 256 * 16 - 1,
    {
        0xfff
    }
}

} // verus!
