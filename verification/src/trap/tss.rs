//! The task state segment.
//!
//! Only `rsp0` is used: the stack the processor switches to when an interrupt
//! or exception happens in user mode. It lies at offset 4 and is kept in two
//! halves, so that the layout needs no padding before it.
use vstd::prelude::*;
use crate::mm::phys::{cleared_frame, cleared_frame_bytes, frame_byte, word_byte};

verus! {

/// The size of the segment in memory, in bytes: its fields follow each other without
/// padding.
pub const TSS_SIZE: u16 = 0x68;

/// The task state segment.
#[derive(Copy, Clone, Debug)]
pub struct TaskStateSegment {
    pub reserved1: u32,
    pub rsp0_low: u32,
    pub rsp0_high: u32,
    pub rsp1_low: u32,
    pub rsp1_high: u32,
    pub rsp2_low: u32,
    pub rsp2_high: u32,
    pub reserved2: u64,
    pub ist: [u64; 7],
    pub reserved3: u64,
    pub reserved4: u16,
    /// where the map of I/O permissions starts; it points past the end, so
    /// user mode may access no port
    pub iomap_base: u16,
}

/// The `n` lowest bytes of a number, the lowest first.
pub open spec fn low_bytes(w: u64, n: nat) -> Seq<u8> {
    Seq::new(n, |k: int| word_byte(w, k as u64))
}

/// Append the `n` lowest bytes of a number, the lowest first.
fn push_low_bytes(v: &mut Vec<u8>, w: u64, n: u64)
    requires
        n <= 8,
    ensures
        final(v)@ == old(v)@ + low_bytes(w, n as nat),
{
    let mut k: u64 = 0;
    while k < n
        invariant
            k <= n <= 8,
            v@ == old(v)@ + low_bytes(w, k as nat),
        decreases n - k,
    {
        let b: u64 = (w >> (8 * k)) & 0xff;
        v.push(b as u8);
        k = k + 1;
        assert(v@ =~= old(v)@ + low_bytes(w, k as nat));
    }
}

/// In a segment without a kernel stack, as it lies in memory, all bytes are zero but
/// the one that says that the map of I/O permissions starts past the end.
pub proof fn new_segment_forbids_ports(tss: TaskStateSegment)
    requires
        tss.rsp0() == 0,
        tss.otherwise_empty(),
    ensures
        tss.layout().len() == 104,
        forall|i: int|
            0 <= i < 104 ==> #[trigger] tss.layout()[i] == (if i == 102 {
                104u8
            } else {
                0
            }),
{
    assert forall|i: int| 0 <= i < 8 implies #[trigger] word_byte(0, i as u64) == 0 by {
        cleared_frame_bytes(i);
        assert(frame_byte(cleared_frame(), i) == word_byte(0, i as u64));
    }
    assert(((104u64 >> 0u64) & 0xff) as u8 == 104 && ((104u64 >> 8u64) & 0xff) as u8 == 0)
        by (bit_vector);
    assert(word_byte(104, 0) == 104 && word_byte(104, 1) == 0);
    let ist = tss.ist@;
    assert(ist[0] == 0 && ist[1] == 0 && ist[2] == 0 && ist[3] == 0 && ist[4] == 0 && ist[5] == 0
        && ist[6] == 0);
    lemma_layout(tss);
    assert forall|i: int| 0 <= i < 104 implies #[trigger] tss.layout()[i] == (if i == 102 {
        104u8
    } else {
        0
    }) by {
        assert(i < 28 ==> tss.head_bytes()[i] == 0);
        assert(28 <= i < 92 ==> tss.stack_bytes()[i - 28] == 0);
        assert(92 <= i ==> tss.tail_bytes()[i - 92] == (if i == 102 {
            104u8
        } else {
            0
        }));
    }
}

proof fn lemma_layout(tss: TaskStateSegment)
    ensures
        tss.head_bytes().len() == 28,
        tss.stack_bytes().len() == 64,
        tss.tail_bytes().len() == 12,
        tss.layout().subrange(4, 8) == low_bytes(tss.rsp0_low as u64, 4),
        tss.layout().subrange(8, 12) == low_bytes(tss.rsp0_high as u64, 4),
        tss.layout().subrange(102, 104) == low_bytes(tss.iomap_base as u64, 2),
{
    assert(tss.layout().subrange(4, 8) =~= low_bytes(tss.rsp0_low as u64, 4));
    assert(tss.layout().subrange(8, 12) =~= low_bytes(tss.rsp0_high as u64, 4));
    assert(tss.layout().subrange(102, 104) =~= low_bytes(tss.iomap_base as u64, 2));
}

impl TaskStateSegment {
    /// The bytes of the stack pointers, in the order in which they lie in memory.
    pub open spec fn head_bytes(&self) -> Seq<u8> {
        low_bytes(self.reserved1 as u64, 4) + low_bytes(self.rsp0_low as u64, 4) + low_bytes(
            self.rsp0_high as u64,
            4,
        ) + low_bytes(self.rsp1_low as u64, 4) + low_bytes(self.rsp1_high as u64, 4) + low_bytes(
            self.rsp2_low as u64,
            4,
        ) + low_bytes(self.rsp2_high as u64, 4)
    }

    /// The bytes of the table of interrupt stacks and of the word before it.
    pub open spec fn stack_bytes(&self) -> Seq<u8> {
        low_bytes(self.reserved2, 8) + low_bytes(self.ist@[0], 8) + low_bytes(self.ist@[1], 8)
            + low_bytes(self.ist@[2], 8) + low_bytes(self.ist@[3], 8) + low_bytes(self.ist@[4], 8)
            + low_bytes(self.ist@[5], 8) + low_bytes(self.ist@[6], 8)
    }

    /// The bytes after the table of interrupt stacks.
    pub open spec fn tail_bytes(&self) -> Seq<u8> {
        low_bytes(self.reserved3, 8) + low_bytes(self.reserved4 as u64, 2) + low_bytes(
            self.iomap_base as u64,
            2,
        )
    }

    /// The bytes of the segment as the processor reads them.
    pub open spec fn layout(&self) -> Seq<u8> {
        self.head_bytes() + self.stack_bytes() + self.tail_bytes()
    }

    /// The bytes of the segment as the processor reads them.
    pub fn bytes(&self) -> (r: Vec<u8>)
        ensures
            r@ == self.layout(),
            r@.len() == TSS_SIZE,
            r@.subrange(4, 8) == low_bytes(self.rsp0_low as u64, 4),
            r@.subrange(8, 12) == low_bytes(self.rsp0_high as u64, 4),
            r@.subrange(102, 104) == low_bytes(self.iomap_base as u64, 2),
    {
        let mut r: Vec<u8> = Vec::new();
        push_low_bytes(&mut r, self.reserved1 as u64, 4);
        push_low_bytes(&mut r, self.rsp0_low as u64, 4);
        push_low_bytes(&mut r, self.rsp0_high as u64, 4);
        push_low_bytes(&mut r, self.rsp1_low as u64, 4);
        push_low_bytes(&mut r, self.rsp1_high as u64, 4);
        push_low_bytes(&mut r, self.rsp2_low as u64, 4);
        push_low_bytes(&mut r, self.rsp2_high as u64, 4);
        assert(r@ =~= self.head_bytes());
        push_low_bytes(&mut r, self.reserved2, 8);
        push_low_bytes(&mut r, self.ist[0], 8);
        push_low_bytes(&mut r, self.ist[1], 8);
        push_low_bytes(&mut r, self.ist[2], 8);
        push_low_bytes(&mut r, self.ist[3], 8);
        push_low_bytes(&mut r, self.ist[4], 8);
        push_low_bytes(&mut r, self.ist[5], 8);
        push_low_bytes(&mut r, self.ist[6], 8);
        assert(r@ =~= self.head_bytes() + self.stack_bytes());
        push_low_bytes(&mut r, self.reserved3, 8);
        push_low_bytes(&mut r, self.reserved4 as u64, 2);
        push_low_bytes(&mut r, self.iomap_base as u64, 2);
        assert(r@ =~= self.layout());
        proof {
            lemma_layout(*self);
        }
        r
    }

    /// The kernel stack pointer for traps from user mode.
    pub open spec fn rsp0(&self) -> int {
        self.rsp0_low + self.rsp0_high * 0x1_0000_0000
    }

    /// Everything but the two halves of `rsp0` is as in a new segment.
    pub open spec fn otherwise_empty(&self) -> bool {
        &&& self.reserved1 == 0
        &&& self.rsp1_low == 0
        &&& self.rsp1_high == 0
        &&& self.rsp2_low == 0
        &&& self.rsp2_high == 0
        &&& self.reserved2 == 0
        &&& self.ist@ == seq![0u64, 0, 0, 0, 0, 0, 0]
        &&& self.reserved3 == 0
        &&& self.reserved4 == 0
        &&& self.iomap_base == TSS_SIZE
    }

    /// A segment without a kernel stack.
    pub fn new() -> (r: Self)
        ensures
            r.rsp0() == 0,
            r.otherwise_empty(),
            r.layout() == Seq::new(
                104,
                |i: int|
                    if i == 102 {
                        104u8
                    } else {
                        0
                    },
            ),
    {
        let r = Self {
            reserved1: 0,
            rsp0_low: 0,
            rsp0_high: 0,
            rsp1_low: 0,
            rsp1_high: 0,
            rsp2_low: 0,
            rsp2_high: 0,
            reserved2: 0,
            ist: [0, 0, 0, 0, 0, 0, 0],
            reserved3: 0,
            reserved4: 0,
            iomap_base: TSS_SIZE,
        };
        assert(r.ist@ =~= seq![0u64, 0, 0, 0, 0, 0, 0]);
        proof {
            new_segment_forbids_ports(r);
        }
        r
    }

    /// Set the kernel stack pointer.
    pub fn set_rsp0(&mut self, rsp0: u64)
        ensures
            final(self).rsp0() == rsp0,
            *final(self) == (TaskStateSegment {
                rsp0_low: final(self).rsp0_low,
                rsp0_high: final(self).rsp0_high,
                ..*old(self)
            }),
            old(self).otherwise_empty() ==> final(self).otherwise_empty(),
    {
        self.rsp0_low = (rsp0 % 0x1_0000_0000) as u32;
        self.rsp0_high = (rsp0 / 0x1_0000_0000) as u32;
    }

    /// A segment with this kernel stack.
    pub fn with_rsp0(rsp0: u64) -> (r: Self)
        ensures
            r.rsp0() == rsp0,
            r.otherwise_empty(),
    {
        let mut tss = Self::new();
        tss.set_rsp0(rsp0);
        tss
    }
}

} // verus!
