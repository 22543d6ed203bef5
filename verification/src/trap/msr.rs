//! Model-specific registers.
use vstd::prelude::*;

verus! {

/// The extended feature enable register.
pub const EFER_MSR: u32 = 0xC000_0080;

/// The segments of the `syscall` instruction.
pub const STAR_MSR: u32 = 0xC000_0081;

/// The entry point of the `syscall` instruction.
pub const LSTAR_MSR: u32 = 0xC000_0082;

/// The flags that the `syscall` instruction clears.
pub const SFMASK_MSR: u32 = 0xC000_0084;

/// EFER bit: the `syscall` instruction is enabled.
pub const EFER_SCE: u64 = 1;

/// EFER bit: the NX flag of page table entries is honored.
pub const EFER_NXE: u64 = 0x800;

/// A value for a model-specific register.
#[derive(Copy, Clone, Debug, PartialEq, Eq, Structural)]
pub struct MsrWrite {
    pub msr: u32,
    pub value: u64,
}

impl MsrWrite {
    /// The low half of the value, which goes to EAX.
    pub fn low(&self) -> (r: u32)
        ensures
            r == self.value % 0x1_0000_0000,
    {
        (self.value % 0x1_0000_0000) as u32
    }

    /// The high half of the value, which goes to EDX.
    pub fn high(&self) -> (r: u32)
        ensures
            r == self.value / 0x1_0000_0000,
    {
        (self.value / 0x1_0000_0000) as u32
    }
}

/// The value of a model-specific register from the halves in EDX and EAX.
pub fn msr_value(hi: u32, lo: u32) -> (r: u64)
    ensures
        r == hi * 0x1_0000_0000 + lo,
{
    (hi as u64) * 0x1_0000_0000 + lo as u64
}

/// The writes that let system calls enter the kernel at `syscall_entry`.
pub open spec fn syscall_writes(syscall_entry: u64, efer: u64) -> Seq<MsrWrite> {
    seq![
        MsrWrite { msr: STAR_MSR, value: 0x0008_0008_0000_0000 },
        MsrWrite { msr: LSTAR_MSR, value: syscall_entry },
        MsrWrite { msr: SFMASK_MSR, value: 0x200 },
        MsrWrite { msr: EFER_MSR, value: efer | EFER_SCE },
    ]
}

/// The writes that set up the `syscall` instruction with entry point
/// `syscall_entry`, in their order; `efer` is the present value of EFER.
///
/// The kernel segments start at selector 8, and so do the user segments less
/// 16. The interrupt flag is cleared on entry.
pub fn syscall_init(syscall_entry: u64, efer: u64) -> (r: [MsrWrite; 4])
    ensures
        r@ == syscall_writes(syscall_entry, efer),
{
    let star: u64 = (0x08u64 << 32) | (0x08u64 << 48);
    assert((0x08u64 << 32) | (0x08u64 << 48) == 0x0008_0008_0000_0000) by (bit_vector);
    let r = [
        MsrWrite { msr: STAR_MSR, value: star },
        MsrWrite { msr: LSTAR_MSR, value: syscall_entry },
        MsrWrite { msr: SFMASK_MSR, value: 0x200 },
        MsrWrite { msr: EFER_MSR, value: efer | EFER_SCE },
    ];
    assert(r@ =~= seq![
        MsrWrite { msr: STAR_MSR, value: 0x0008_0008_0000_0000 },
        MsrWrite { msr: LSTAR_MSR, value: syscall_entry },
        MsrWrite { msr: SFMASK_MSR, value: 0x200 },
        MsrWrite { msr: EFER_MSR, value: efer | EFER_SCE },
    ]);
    r
}

/// The write that makes the processor honor the NX flag.
pub open spec fn nxe_write(efer: u64) -> MsrWrite {
    MsrWrite { msr: EFER_MSR, value: efer | EFER_NXE }
}

/// The write that makes the processor honor the NX flag; `efer` is the present
/// value of EFER.
pub fn enable_nxe(efer: u64) -> (r: MsrWrite)
    ensures
        r == nxe_write(efer),
{
    MsrWrite { msr: EFER_MSR, value: efer | EFER_NXE }
}

} // verus!
