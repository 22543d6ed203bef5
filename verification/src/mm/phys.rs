//! Physical memory, seen as frames of 512 words.
use vstd::prelude::*;
use super::address::PPN_LIMIT;

verus! {

/// Number of 64-bit words in a frame.
pub const FRAME_WORDS: usize = 512;

/// The contents of physical memory: each frame that exists, by number, with
/// its 512 words.
pub type Frames = Map<u64, Seq<u64>>;

/// Access to physical memory, one word at a time.
pub trait PhysMemory: Sized {
    /// The frames that exist and what they hold.
    spec fn frames(&self) -> Frames;

    /// Every frame holds 512 words and has a number of at most 40 bits.
    proof fn frames_wf(&self)
        ensures
            forall|p: u64| #[trigger]
                self.frames().dom().contains(p) ==> self.frames()[p].len() == FRAME_WORDS && p
                    < PPN_LIMIT,
    ;

    /// Whether frame `ppn` exists.
    fn holds(&self, ppn: u64) -> (r: bool)
        ensures
            r == self.frames().dom().contains(ppn),
    ;

    /// Read word `index` of frame `ppn`.
    fn read_word(&self, ppn: u64, index: usize) -> (w: u64)
        requires
            self.frames().dom().contains(ppn),
            index < FRAME_WORDS,
        ensures
            w == self.frames()[ppn][index as int],
    ;

    /// Write word `index` of frame `ppn`.
    fn write_word(&mut self, ppn: u64, index: usize, w: u64)
        requires
            old(self).frames().dom().contains(ppn),
            index < FRAME_WORDS,
        ensures
            final(self).frames() == old(self).frames().insert(
                ppn,
                old(self).frames()[ppn].update(index as int, w),
            ),
    ;
}

/// A block of frames kept in a vector.
pub struct FrameBlock {
    base: u64,
    words: Vec<u64>,
}

impl FrameBlock {
    /// The number of the first frame.
    pub closed spec fn base(&self) -> int {
        self.base as int
    }

    /// The number of frames.
    pub closed spec fn count(&self) -> int {
        self.words@.len() as int / 512
    }

    /// `count` cleared frames, numbered from `base` on.
    pub fn new(base: u64, count: usize) -> (r: Self)
        requires
            base + count <= PPN_LIMIT,
            count * 512 <= usize::MAX,
        ensures
            r.base() == base,
            r.count() == count,
            forall|p: u64| #[trigger] r.frames().dom().contains(p) <==> base <= p < base + count,
            forall|p: u64| base <= p < base + count ==> #[trigger] r.frames()[p] == cleared_frame(),
    {
        let words: Vec<u64> = vec![0u64; count * 512];
        let r = FrameBlock { base, words };
        assert forall|p: u64| base <= p < base + count implies #[trigger] r.frames()[p]
            == cleared_frame() by {
            assert(r.frames()[p] =~= cleared_frame());
        }
        r
    }
}

impl PhysMemory for FrameBlock {
    closed spec fn frames(&self) -> Frames {
        Map::new(
            |p: u64| self.base <= p < self.base + self.words@.len() / 512 && p < PPN_LIMIT,
            |p: u64|
                self.words@.subrange((p - self.base) * 512, (p - self.base) * 512 + 512),
        )
    }

    proof fn frames_wf(&self) {
    }

    fn holds(&self, ppn: u64) -> (r: bool) {
        self.base <= ppn && ppn - self.base < (self.words.len() / 512) as u64 && ppn < PPN_LIMIT
    }

    fn read_word(&self, ppn: u64, index: usize) -> (w: u64) {
        let len: usize = self.words.len();
        assert((ppn - self.base) * 512 + 512 <= len);
        self.words[((ppn - self.base) as usize) * 512 + index]
    }

    fn write_word(&mut self, ppn: u64, index: usize, w: u64) {
        let len: usize = self.words.len();
        assert((ppn - self.base) * 512 + 512 <= len);
        let at: usize = ((ppn - self.base) as usize) * 512 + index;
        self.words.set(at, w);
        assert(self.frames() =~= old(self).frames().insert(
            ppn,
            old(self).frames()[ppn].update(index as int, w),
        )) by {
            assert forall|p: u64| self.frames().dom().contains(p) implies #[trigger] self.frames()[p]
                == old(self).frames().insert(ppn, old(self).frames()[ppn].update(index as int, w))[p] by {
                assert(self.frames()[p] =~= old(self).frames().insert(
                    ppn,
                    old(self).frames()[ppn].update(index as int, w),
                )[p]);
            }
        }
    }
}

/// A frame of zeros.
pub open spec fn cleared_frame() -> Seq<u64> {
    Seq::new(512, |i: int| 0u64)
}

/// Byte `j` of a frame, the words being little-endian.
pub open spec fn frame_byte(words: Seq<u64>, j: int) -> u8 {
    word_byte(words[j / 8], (j % 8) as u64)
}

/// Byte `k` of a word, byte 0 being the lowest.
pub open spec fn word_byte(w: u64, k: u64) -> u8 {
    ((w >> (8 * k) as u64) & 0xff) as u8
}

/// `w` with byte `k` replaced by `b`.
pub open spec fn with_byte(w: u64, k: u64, b: u8) -> u64 {
    (w & !(0xffu64 << ((8 * k) as u64))) | ((b as u64) << ((8 * k) as u64))
}

proof fn lemma_with_byte(w: u64, k: u64, b: u8, m: u64)
    requires
        k < 8,
        m < 8,
    ensures
        word_byte(with_byte(w, k, b), m) == if m == k {
            b
        } else {
            word_byte(w, m)
        },
{
    assert(((((w & !(0xffu64 << ((8 * k) as u64))) | ((b as u64) << ((8 * k) as u64))) >> ((8 * m) as u64)) & 0xff)
        as u8 == if m == k {
        b
    } else {
        ((w >> ((8 * m) as u64)) & 0xff) as u8
    }) by (bit_vector)
        requires
            k < 8,
            m < 8,
    ;
}

proof fn lemma_zero_byte(k: u64)
    requires
        k < 8,
    ensures
        word_byte(0, k) == 0,
{
    assert(((0u64 >> ((8 * k) as u64)) & 0xff) as u8 == 0) by (bit_vector)
        requires
            k < 8,
    ;
}

/// Every byte of a cleared frame is zero.
pub proof fn cleared_frame_bytes(j: int)
    requires
        0 <= j < 4096,
    ensures
        frame_byte(cleared_frame(), j) == 0,
{
    lemma_zero_byte((j % 8) as u64);
}

/// Read byte `j` of frame `ppn`.
pub fn read_byte<M: PhysMemory>(mem: &M, ppn: u64, j: usize) -> (b: u8)
    requires
        mem.frames().dom().contains(ppn),
        j < 4096,
    ensures
        b == frame_byte(mem.frames()[ppn], j as int),
{
    let w: u64 = mem.read_word(ppn, j / 8);
    let s: u64 = 8 * ((j % 8) as u64);
    let b: u64 = (w >> s) & 0xff;
    b as u8
}

/// Write byte `j` of frame `ppn`; the other bytes stay.
pub fn write_byte<M: PhysMemory>(mem: &mut M, ppn: u64, j: usize, b: u8)
    requires
        old(mem).frames().dom().contains(ppn),
        j < 4096,
    ensures
        final(mem).frames().dom() == old(mem).frames().dom(),
        forall|p: u64| p != ppn ==> #[trigger] final(mem).frames()[p] == old(mem).frames()[p],
        forall|i: int|
            0 <= i < 4096 ==> #[trigger] frame_byte(final(mem).frames()[ppn], i) == if i == j {
                b
            } else {
                frame_byte(old(mem).frames()[ppn], i)
            },
{
    proof {
        mem.frames_wf();
    }
    let w: u64 = mem.read_word(ppn, j / 8);
    let s: u64 = 8 * ((j % 8) as u64);
    let nw: u64 = (w & !(0xffu64 << s)) | ((b as u64) << s);
    mem.write_word(ppn, j / 8, nw);
    assert forall|i: int| 0 <= i < 4096 implies #[trigger] frame_byte(mem.frames()[ppn], i) == if i == j {
        b
    } else {
        frame_byte(old(mem).frames()[ppn], i)
    } by {
        lemma_with_byte(w, (j % 8) as u64, b, (i % 8) as u64);
    }
    assert(mem.frames().dom() =~= old(mem).frames().dom());
}

/// Fill frame `ppn` with zeros.
pub fn clear_frame<M: PhysMemory>(mem: &mut M, ppn: u64)
    requires
        old(mem).frames().dom().contains(ppn),
    ensures
        final(mem).frames() == old(mem).frames().insert(ppn, cleared_frame()),
{
    proof {
        mem.frames_wf();
    }
    let mut i: usize = 0;
    while i < 512
        invariant
            i <= 512,
            old(mem).frames().dom().contains(ppn),
            mem.frames().dom() == old(mem).frames().dom(),
            mem.frames() == old(mem).frames().insert(ppn, mem.frames()[ppn]),
            mem.frames()[ppn].len() == 512,
            forall|k: int| 0 <= k < i ==> mem.frames()[ppn][k] == 0,
        decreases 512 - i,
    {
        mem.write_word(ppn, i, 0);
        i = i + 1;
        assert(mem.frames().dom() =~= old(mem).frames().dom());
        assert(mem.frames() =~= old(mem).frames().insert(ppn, mem.frames()[ppn]));
    }
    assert(mem.frames()[ppn] =~= cleared_frame());
}

/// Copy frame `src` over frame `dst`.
pub fn copy_frame<M: PhysMemory>(mem: &mut M, dst: u64, src: u64)
    requires
        old(mem).frames().dom().contains(dst),
        old(mem).frames().dom().contains(src),
    ensures
        final(mem).frames() == old(mem).frames().insert(dst, old(mem).frames()[src]),
{
    proof {
        mem.frames_wf();
    }
    let mut i: usize = 0;
    while i < 512
        invariant
            i <= 512,
            old(mem).frames().dom().contains(dst),
            old(mem).frames().dom().contains(src),
            mem.frames().dom() == old(mem).frames().dom(),
            mem.frames() == old(mem).frames().insert(dst, mem.frames()[dst]),
            mem.frames()[dst].len() == 512,
            old(mem).frames()[src].len() == 512,
            forall|k: int| 0 <= k < i ==> mem.frames()[dst][k] == old(mem).frames()[src][k],
            src == dst ==> mem.frames() == old(mem).frames(),
        decreases 512 - i,
    {
        let w: u64 = mem.read_word(src, i);
        let ghost before = mem.frames();
        mem.write_word(dst, i, w);
        i = i + 1;
        assert(mem.frames().dom() =~= old(mem).frames().dom());
        assert(mem.frames() =~= old(mem).frames().insert(dst, mem.frames()[dst]));
        proof {
            if src == dst {
                assert(mem.frames()[dst] =~= before[dst]);
                assert(mem.frames() =~= before);
            }
        }
    }
    assert(mem.frames()[dst] =~= old(mem).frames()[src]);
}

} // verus!
