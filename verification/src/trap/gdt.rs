//! The global descriptor table.
//!
//! In long mode the bases and limits of segments are ignored; the descriptors
//! hold the privilege level and the code and data flags, and one describes the
//! task state segment.
use vstd::prelude::*;
use super::tss::TSS_SIZE;

verus! {

/// The kernel code segment selector (index 1, DPL 0).
pub const KERNEL_CS: u16 = 0x08;

/// The kernel data segment selector (index 2, DPL 0).
pub const KERNEL_DS: u16 = 0x10;

/// The task state segment selector (index 5, DPL 0).
pub const TSS_SELECTOR: u16 = 0x28;

/// The privilege level of user mode.
pub const DPL_USER: u64 = 3;

/// The high four bits of the limit.
pub const LIMIT_HIGH: u64 = 0xF_0000_0000_0000;

/// The limit counts pages.
pub const GRANULARITY_4K: u64 = 0x80_0000_0000_0000;

/// The segment holds 64-bit code.
pub const LONG_MODE: u64 = 0x20_0000_0000_0000;

/// The default operand size is 32 bits.
pub const DEFAULT_OP_SIZE: u64 = 0x40_0000_0000_0000;

/// The descriptor of a code or data segment.
pub open spec fn segment_word(access: u64, dpl: u64, long: bool, db: bool) -> u64 {
    0xFFFF | (access << 40) | (dpl << 45) | (LIMIT_HIGH | GRANULARITY_4K | (if long {
        LONG_MODE
    } else {
        0
    }) | (if db {
        DEFAULT_OP_SIZE
    } else {
        0
    }))
}

/// Build a 64-bit code or data segment descriptor. `access` is `0x9A` for a
/// code segment and `0x92` for a data segment.
pub fn segment(access: u64, dpl: u64, long: bool, db: bool) -> (r: u64)
    ensures
        r == segment_word(access, dpl, long, db),
{
    proof {
        assert(forall|a: u64| #![trigger a | 0] a | 0 == a) by (bit_vector);
    }
    let mut upper: u64 = LIMIT_HIGH | GRANULARITY_4K;
    if long {
        upper = upper | LONG_MODE;
    }
    if db {
        upper = upper | DEFAULT_OP_SIZE;
    }
    0xFFFF | (access << 40) | (dpl << 45) | upper
}

/// The two words of the descriptor of a task state segment at `base`.
pub open spec fn tss_words(base: u64) -> (u64, u64) {
    (
        0x67 | ((base & 0xFFFF) << 16) | (((base >> 16) & 0xFF) << 32) | 0x8900_0000_0000 | (((base
            >> 24) & 0xFF) << 56),
        (base >> 32) & 0xFFFF_FFFF,
    )
}

/// Build the 64-bit descriptor of the task state segment at `base`.
pub fn tss_segment(base: u64) -> (r: (u64, u64))
    ensures
        r == tss_words(base),
{
    let limit: u64 = (TSS_SIZE - 1) as u64;
    let low: u64 = limit | ((base & 0xFFFF) << 16) | (((base >> 16) & 0xFF) << 32)
        | 0x8900_0000_0000 | (((base >> 24) & 0xFF) << 56);
    let high: u64 = (base >> 32) & 0xFFFF_FFFF;
    (low, high)
}

/// The descriptor of a task state segment holds its base, its limit, and the
/// type of an available 64-bit task state segment that is present.
pub proof fn tss_descriptor_reads_back(base: u64)
    ensures
        ({
            let (low, high) = tss_words(base);
            &&& ((low >> 16) & 0xFFFF) | (((low >> 32) & 0xFF) << 16) | (((low >> 56) & 0xFF) << 24)
                | (high << 32) == base
            &&& low & 0xFFFF == TSS_SIZE - 1
            &&& (low >> 40) & 0xFFFF == 0x89
        }),
{
    assert({
        let low = 0x67 | ((base & 0xFFFF) << 16) | (((base >> 16) & 0xFF) << 32)
            | 0x8900_0000_0000u64 | (((base >> 24) & 0xFF) << 56);
        let high = (base >> 32) & 0xFFFF_FFFF;
        &&& ((low >> 16) & 0xFFFF) | (((low >> 32) & 0xFF) << 16) | (((low >> 56) & 0xFF) << 24) | (
        high << 32) == base
        &&& low & 0xFFFF == 0x67
        &&& (low >> 40) & 0xFFFF == 0x89
    }) by (bit_vector);
}

/// The words of the four segment descriptors: code and data, for the kernel
/// and for user mode.
pub proof fn segment_values()
    ensures
        segment_word(0x9A, 0, true, false) == 0x00AF_9A00_0000_FFFF,
        segment_word(0x92, 0, false, true) == 0x00CF_9200_0000_FFFF,
        segment_word(0x9A, DPL_USER, true, false) == 0x00AF_FA00_0000_FFFF,
        segment_word(0x92, DPL_USER, false, true) == 0x00CF_F200_0000_FFFF,
{
    assert({
        let high = 0xF_0000_0000_0000u64 | 0x80_0000_0000_0000u64;
        let code = high | 0x20_0000_0000_0000u64 | 0;
        let data = high | 0u64 | 0x40_0000_0000_0000u64;
        &&& 0xFFFFu64 | (0x9Au64 << 40) | (0u64 << 45) | code == 0x00AF_9A00_0000_FFFF
        &&& 0xFFFFu64 | (0x92u64 << 40) | (0u64 << 45) | data == 0x00CF_9200_0000_FFFF
        &&& 0xFFFFu64 | (0x9Au64 << 40) | (3u64 << 45) | code == 0x00AF_FA00_0000_FFFF
        &&& 0xFFFFu64 | (0x92u64 << 40) | (3u64 << 45) | data == 0x00CF_F200_0000_FFFF
    }) by (bit_vector);
}

/// The words of the table with a task state segment at `tss_base`: the empty
/// descriptor, those of the kernel's and the user's segments, and the two words of the
/// task state segment.
pub open spec fn table_words(tss_base: u64) -> Seq<u64> {
    seq![
        0u64,
        segment_word(0x9A, 0, true, false),
        segment_word(0x92, 0, false, true),
        segment_word(0x9A, DPL_USER, true, false),
        segment_word(0x92, DPL_USER, false, true),
        tss_words(tss_base).0,
        tss_words(tss_base).1,
        0u64,
    ]
}

/// The global descriptor table.
#[derive(Copy, Clone, Debug)]
pub struct Gdt {
    table: [u64; 8],
}

impl Gdt {
    /// The descriptors.
    pub closed spec fn words(&self) -> Seq<u64> {
        self.table@
    }

    /// The table with the kernel and user segments and a task state segment at
    /// `tss_base`.
    pub fn new(tss_base: u64) -> (r: Self)
        ensures
            r.words() == table_words(tss_base),
    {
        let (tss_low, tss_high) = tss_segment(tss_base);
        let r = Self {
            table: [
                0,
                segment(0x9A, 0, true, false),
                segment(0x92, 0, false, true),
                segment(0x9A, DPL_USER, true, false),
                segment(0x92, DPL_USER, false, true),
                tss_low,
                tss_high,
                0,
            ],
        };
        assert(r.words() =~= table_words(tss_base));
        r
    }

    /// The descriptors, to be put where the processor reads them.
    pub fn table(&self) -> (r: [u64; 8])
        ensures
            r@ == self.words(),
    {
        self.table
    }

    /// The limit to load with the address of the table: its size less one.
    pub fn limit(&self) -> (r: u16)
        ensures
            r == self.words().len() * 8 - 1,
    {
        0x3f
    }
}

} // verus!
