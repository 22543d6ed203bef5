//! Page table entries and page tables.
//!
//! Four levels of tables of 512 entries each (PML4, PDPT, PD, PT) translate a
//! 36-bit page number; the root is pointed to by CR3. Only 4 KiB pages are
//! used.
use vstd::prelude::*;
use super::address::{
    canonical, table_index, PhysAddr, PhysPageNum, VirtAddr, VirtPageNum, PPN_LIMIT, VA_LIMIT,
    VPN_LIMIT,
};
use super::frame_allocator::{frame_alloc, frame_dealloc, FramePool, FrameTracker};
use super::phys::{Frames, PhysMemory};
use super::rights::{entry_rights, leaf_entry_decides, page_rights};
use super::table_tree::{
    absent, hung, leaf, leaf_set, lemma_hang, lemma_leaf_set, lemma_own_walkable, lemma_prefix,
    lemma_shared_leaf, mapped, missing, own, own_page, prefix, present, root_kept, shared_page,
    table_at, tree_wf, walkable, with_path,
};

verus! {

/// The physical address bits of a page table entry.
pub const PTE_ADDR_MASK: u64 = 0x000F_FFFF_FFFF_F000;

/// Page table entry flag: present.
pub const PTE_V: u64 = 1;

/// Page table entry flag: writable.
pub const PTE_W: u64 = 2;

/// Page table entry flag: user accessible.
pub const PTE_U: u64 = 4;

/// Page table entry flag: a 2 MiB or 1 GiB page.
pub const PTE_PS: u64 = 0x80;

/// Page table entry flag: not executable (honored if EFER.NXE is set).
pub const PTE_NX: u64 = 0x8000_0000_0000_0000;

/// Every bit that is a page table entry flag.
pub const PTE_ALL: u64 = 0x8000_0000_0000_0087;

/// Page table entry flags in the x86-64 encoding.
#[derive(Copy, Clone, Debug, PartialEq, Eq, Structural)]
pub struct PTEFlags {
    pub bits: u64,
}

impl PTEFlags {
    /// Whether only flag bits are set.
    pub open spec fn wf(&self) -> bool {
        self.bits & !PTE_ALL == 0
    }

    /// No flag.
    pub fn empty() -> (r: Self)
        ensures
            r.bits == 0,
            r.wf(),
    {
        assert(0u64 & !0x8000_0000_0000_0087u64 == 0) by (bit_vector);
        PTEFlags { bits: 0 }
    }

    /// The flags among `bits`; the other bits are dropped.
    pub fn from_bits_truncate(bits: u64) -> (r: Self)
        ensures
            r.bits == bits & PTE_ALL,
            r.wf(),
    {
        assert((bits & 0x8000_0000_0000_0087u64) & !0x8000_0000_0000_0087u64 == 0) by (bit_vector);
        PTEFlags { bits: bits & PTE_ALL }
    }

    /// Whether all flags of `other` are set.
    pub fn contains(&self, other: PTEFlags) -> (r: bool)
        ensures
            r == (self.bits & other.bits == other.bits),
    {
        self.bits & other.bits == other.bits
    }

    /// The flags set in either.
    pub fn union(&self, other: PTEFlags) -> (r: Self)
        ensures
            r.bits == self.bits | other.bits,
            self.wf() && other.wf() ==> r.wf(),
    {
        let a: u64 = self.bits;
        let b: u64 = other.bits;
        assert(a & !0x8000_0000_0000_0087u64 == 0 && b & !0x8000_0000_0000_0087u64 == 0 ==> (a | b)
            & !0x8000_0000_0000_0087u64 == 0) by (bit_vector);
        PTEFlags { bits: self.bits | other.bits }
    }
}

/// The word that stands for an entry with this frame and these flags.
pub open spec fn pte_word(ppn: u64, flags: u64) -> u64 {
    (ppn << 12) | flags
}

/// Whether an entry is present.
pub open spec fn pte_valid(w: u64) -> bool {
    w & PTE_V != 0
}

/// The frame of an entry.
pub open spec fn pte_ppn(w: u64) -> u64 {
    (w & PTE_ADDR_MASK) >> 12
}

/// The frame and the flags of an entry read back as they were written.
pub proof fn pte_reads_back(ppn: u64, flags: u64)
    requires
        ppn < PPN_LIMIT,
        flags & !PTE_ALL == 0,
    ensures
        pte_ppn(pte_word(ppn, flags)) == ppn,
        pte_word(ppn, flags) & PTE_ALL == flags,
        pte_valid(pte_word(ppn, flags)) == (flags & PTE_V != 0),
{
    assert({
        &&& (((ppn << 12) | flags) & 0x000F_FFFF_FFFF_F000u64) >> 12 == ppn
        &&& ((ppn << 12) | flags) & 0x8000_0000_0000_0087u64 == flags
        &&& (((ppn << 12) | flags) & 1 != 0) == (flags & 1 != 0)
    }) by (bit_vector)
        requires
            ppn < 0x100_0000_0000,
            flags & !0x8000_0000_0000_0087u64 == 0,
    ;
}

/// An entry is present exactly if its flags say so.
pub proof fn pte_word_valid(ppn: u64, flags: u64)
    ensures
        pte_valid(pte_word(ppn, flags)) == (flags & PTE_V != 0),
        !pte_valid(0),
{
    assert((((ppn << 12) | flags) & 1 != 0) == (flags & 1 != 0) && 0u64 & 1 == 0) by (bit_vector);
}

/// The frame of an entry has at most 40 bits.
pub proof fn pte_ppn_bound(w: u64)
    ensures
        pte_ppn(w) < PPN_LIMIT,
{
    assert((w & 0x000F_FFFF_FFFF_F000u64) >> 12 < 0x100_0000_0000) by (bit_vector);
}

/// A page table entry.
#[derive(Copy, Clone, Debug, PartialEq, Eq, Structural)]
pub struct PageTableEntry {
    pub bits: u64,
}

impl PageTableEntry {
    /// The entry with this frame and these flags.
    pub fn new(ppn: PhysPageNum, flags: PTEFlags) -> (r: Self)
        ensures
            r.bits == pte_word(ppn.0, flags.bits),
    {
        PageTableEntry { bits: ppn.0 << 12 | flags.bits }
    }

    /// The entry that maps nothing.
    pub fn empty() -> (r: Self)
        ensures
            r.bits == 0,
    {
        PageTableEntry { bits: 0 }
    }

    /// The frame.
    pub fn ppn(&self) -> (r: PhysPageNum)
        ensures
            r.0 == pte_ppn(self.bits),
            r.0 < PPN_LIMIT,
    {
        proof {
            pte_ppn_bound(self.bits);
        }
        PhysPageNum((self.bits & PTE_ADDR_MASK) >> 12)
    }

    /// The flags; the address bits are dropped.
    pub fn flags(&self) -> (r: PTEFlags)
        ensures
            r.bits == self.bits & PTE_ALL,
            r.wf(),
    {
        PTEFlags::from_bits_truncate(self.bits)
    }

    /// Whether the entry is present.
    pub fn is_valid(&self) -> (r: bool)
        ensures
            r == pte_valid(self.bits),
    {
        let w: u64 = self.bits;
        assert((w & 0x8000_0000_0000_0087u64) & 1 == w & 1) by (bit_vector);
        self.flags().bits & PTE_V != 0
    }

    /// Whether writes are allowed.
    pub fn writable(&self) -> (r: bool)
        ensures
            r == (self.bits & PTE_W != 0),
    {
        let w: u64 = self.bits;
        assert((w & 0x8000_0000_0000_0087u64) & 2 == w & 2) by (bit_vector);
        self.flags().bits & PTE_W != 0
    }

    /// Whether instructions may be fetched.
    pub fn executable(&self) -> (r: bool)
        ensures
            r == (self.bits & PTE_NX == 0),
    {
        let w: u64 = self.bits;
        assert((w & 0x8000_0000_0000_0087u64) & 0x8000_0000_0000_0000u64 == w
            & 0x8000_0000_0000_0000u64) by (bit_vector);
        self.flags().bits & PTE_NX == 0
    }
}

/// The numbers of the frames in a list.
pub open spec fn frame_set(frames: Seq<FrameTracker>) -> Set<u64> {
    Set::new(|f: u64| exists|i: int| 0 <= i < frames.len() && (#[trigger] frames[i]).ppn.0 == f)
}

/// No frame is listed twice.
pub open spec fn frames_distinct(frames: Seq<FrameTracker>) -> bool {
    forall|i: int, j: int|
        0 <= i < j < frames.len() ==> (#[trigger] frames[i]).ppn.0 != (#[trigger] frames[j]).ppn.0
}

proof fn lemma_frame_set_push(frames: Seq<FrameTracker>, f: FrameTracker)
    requires
        frames_distinct(frames),
        !frame_set(frames).contains(f.ppn.0),
    ensures
        frame_set(frames.push(f)) == frame_set(frames).insert(f.ppn.0),
        frames_distinct(frames.push(f)),
{
    let all = frames.push(f);
    assert forall|x: u64| frame_set(all).contains(x) == frame_set(frames).insert(f.ppn.0).contains(
        x,
    ) by {
        if frame_set(frames).contains(x) {
            let i = choose|i: int| 0 <= i < frames.len() && (#[trigger] frames[i]).ppn.0 == x;
            assert(all[i].ppn.0 == x);
        }
        if frame_set(all).contains(x) {
            let i = choose|i: int| 0 <= i < all.len() && (#[trigger] all[i]).ppn.0 == x;
            if i < frames.len() {
                assert(frames[i].ppn.0 == x);
            }
        }
        if x == f.ppn.0 {
            assert(all[frames.len() as int].ppn.0 == x);
        }
    }
    assert(frame_set(all) =~= frame_set(frames).insert(f.ppn.0));
    assert forall|i: int, j: int| 0 <= i < j < all.len() implies (#[trigger] all[i]).ppn.0 != (
    #[trigger] all[j]).ppn.0 by {
        assert(all[i] == frames[i]);
        assert(frame_set(frames).contains(frames[i].ppn.0));
        if j < frames.len() {
            assert(all[j] == frames[j]);
        }
    }
}

/// A page table: its root, and the frames of the tables that belong to it.
///
/// The entries of the root from `slots` on may point to tables of another page
/// table.
pub struct PageTable {
    root_ppn: PhysPageNum,
    frames: Vec<FrameTracker>,
    stale: Vec<u64>,
    slots: Ghost<int>,
}

impl PageTable {
    /// The frame of the root.
    pub closed spec fn root(&self) -> u64 {
        self.root_ppn.0
    }

    /// How many entries of the root, from the first on, are this table's own.
    pub closed spec fn slots(&self) -> int {
        self.slots@
    }

    /// The frames of the tables.
    pub closed spec fn table_frames(&self) -> Set<u64> {
        frame_set(self.frames@)
    }

    /// The number of tables.
    pub closed spec fn table_count(&self) -> nat {
        self.frames@.len()
    }

    /// The addresses of the pages that were unmapped and may still be cached
    /// by the TLB.
    pub closed spec fn stale(&self) -> Seq<u64> {
        self.stale@
    }

    /// No frame is listed twice.
    pub closed spec fn no_double(&self) -> bool {
        frames_distinct(self.frames@)
    }

    /// The tables form a tree in frames that are handed out to this table.
    pub open spec fn wf<M: PhysMemory>(&self, pool: &FramePool<M>) -> bool {
        &&& tree_wf(pool.frames(), self.root(), self.slots(), self.table_frames())
        &&& self.no_double()
        &&& forall|f: u64| #[trigger] self.table_frames().contains(f) ==> pool.allocated(f)
    }

    /// The leaf entry of page `vpn`, if the tables above it exist.
    pub open spec fn leaf<M: PhysMemory>(&self, pool: &FramePool<M>, vpn: int) -> Option<u64> {
        leaf(pool.frames(), self.root(), vpn)
    }

    /// The leaf entry of page `vpn`, if the page is mapped.
    pub open spec fn mapped<M: PhysMemory>(&self, pool: &FramePool<M>, vpn: int) -> Option<u64> {
        mapped(pool.frames(), self.root(), vpn)
    }

    /// The names of the tables that exist.
    pub open spec fn present<M: PhysMemory>(&self, pool: &FramePool<M>) -> Set<(int, int)> {
        present(pool.frames(), self.root(), self.slots())
    }

    /// Whether page `vpn` is translated by tables that this table shares with another
    /// one: they are neither its own nor free.
    pub open spec fn shares<M: PhysMemory>(&self, pool: &FramePool<M>, vpn: int) -> bool {
        shared_page(
            pool.frames(),
            self.root(),
            self.slots(),
            self.table_frames().union(pool.free()),
            vpn,
        )
    }

    /// Nothing but this table and free frames differs between `old_pool` and
    /// `pool`, and the frames this table gained were free before.
    pub open spec fn grew_from<M: PhysMemory>(
        &self,
        pool: &FramePool<M>,
        old_table: &PageTable,
        old_pool: &FramePool<M>,
    ) -> bool {
        &&& self.root() == old_table.root()
        &&& self.slots() == old_table.slots()
        &&& self.stale() == old_table.stale()
        &&& self.table_count() - old_table.table_count() == old_pool.free_count()
            - pool.free_count()
        &&& pool.same_extent(old_pool)
        &&& pool.free().subset_of(old_pool.free())
        &&& self.table_frames() == old_table.table_frames().union(
            old_pool.free().difference(pool.free()),
        )
        &&& forall|f: u64|
            !old_table.table_frames().contains(f) && !old_pool.free().contains(f)
                ==> #[trigger] pool.frames()[f] == old_pool.frames()[f]
        &&& root_kept(pool.frames(), old_pool.frames(), self.root(), self.slots())
    }

    /// A page table with an empty root.
    pub fn new<M: PhysMemory>(pool: &mut FramePool<M>) -> (r: Self)
        requires
            old(pool).wf(),
            old(pool).free_count() >= 1,
        ensures
            final(pool).wf(),
            r.wf(final(pool)),
            r.slots() == 512,
            r.table_count() == 1,
            r.stale() == Seq::<u64>::empty(),
            final(pool).same_extent(old(pool)),
            old(pool).free().contains(r.root()),
            r.table_frames() == set![r.root()],
            final(pool).free() == old(pool).free().remove(r.root()),
            final(pool).free_count() == old(pool).free_count() - 1,
            r.present(final(pool)) == set![(0int, 0int)],
            forall|v: int| own_page(512, v) ==> #[trigger] r.leaf(final(pool), v) is None,
            forall|f: u64|
                f != r.root() ==> #[trigger] final(pool).frames()[f] == old(pool).frames()[f],
    {
        let frame = frame_alloc(pool).unwrap();
        let root_ppn: PhysPageNum = frame.ppn;
        let mut frames: Vec<FrameTracker> = Vec::new();
        frames.push(frame);
        let r = PageTable { root_ppn, frames, stale: Vec::new(), slots: Ghost(512) };
        proof {
            let mem = pool.frames();
            pte_word_valid(0, 0);
            assert(r.frames@[0].ppn.0 == r.root());
            assert(r.table_frames() =~= set![r.root()]);
            assert forall|k: int, p: int| own(512, k, p) && k > 0 implies #[trigger] table_at(
                mem,
                r.root(),
                k,
                p,
            ) is None by {
                lemma_empty_root(pool, r.root(), k, p);
            }
            assert(r.present(pool) =~= set![(0int, 0int)]);
            assert forall|v: int| own_page(512, v) implies #[trigger] r.leaf(pool, v) is None by {
                lemma_prefix(512, v, 3);
                assert(table_at(mem, r.root(), 3, v / 512) is None);
            }
        }
        r
    }

    /// The frame of the root.
    pub fn root_ppn(&self) -> (r: PhysPageNum)
        ensures
            r.0 == self.root(),
    {
        self.root_ppn
    }

    /// Find the leaf entry of page `vpn`: its table and its index in it. The
    /// tables that are missing are made on the way.
    ///
    /// The entries above the leaf allow user access and writes: the processor
    /// checks these flags at every level of the walk.
    fn find_pte_create<M: PhysMemory>(
        &mut self,
        pool: &mut FramePool<M>,
        vpn: VirtPageNum,
    ) -> (r: (u64, usize))
        requires
            old(pool).wf(),
            old(self).wf(old(pool)),
            own_page(old(self).slots(), vpn.0 as int),
            old(pool).free_count() >= missing(old(self).present(old(pool)), vpn.0 as int),
        ensures
            final(pool).wf(),
            final(self).wf(final(pool)),
            final(self).grew_from(final(pool), old(self), old(pool)),
            final(pool).free_count() == old(pool).free_count() - missing(
                old(self).present(old(pool)),
                vpn.0 as int,
            ),
            final(self).present(final(pool)) == with_path(
                old(self).present(old(pool)),
                vpn.0 as int,
            ),
            forall|v: int|
                own_page(old(self).slots(), v) ==> #[trigger] final(self).leaf(final(pool), v) == (
                if v / 512 == vpn.0 as int / 512 && old(self).leaf(old(pool), v) is None {
                    Some(0u64)
                } else {
                    old(self).leaf(old(pool), v)
                }),
            table_at(final(pool).frames(), old(self).root(), 3, vpn.0 as int / 512) == Some(r.0),
            r.1 == vpn.0 % 512,
    {
        let idxs: [usize; 4] = vpn.indexes();
        let mut ppn: PhysPageNum = self.root_ppn;
        let mut i: usize = 0;
        let ghost v = vpn.0 as int;
        let ghost slots = self.slots();
        let ghost root = self.root();
        let ghost t0 = self.present(pool);
        let ghost mem0 = pool.frames();
        proof {
            pte_word_valid(0, 0);
            assert(self.table_frames() =~= self.table_frames().union(
                pool.free().difference(pool.free()),
            ));
        }
        while i < 3
            invariant
                i <= 3,
                v == vpn.0 as int,
                slots == old(self).slots(),
                root == old(self).root(),
                t0 == old(self).present(old(pool)),
                own_page(slots, v),
                0 <= slots <= 512,
                forall|k: int| 0 <= k < 4 ==> #[trigger] idxs[k] == table_index(v, k),
                !pte_valid(0),
                pool.wf(),
                self.wf(pool),
                self.grew_from(pool, old(self), old(pool)),
                table_at(pool.frames(), root, i as int, prefix(v, i as int)) == Some(ppn.0),
                i == 0 ==> self.present(pool) == t0,
                i == 1 ==> self.present(pool) == t0.insert((1, prefix(v, 1))),
                i == 2 ==> self.present(pool) == t0.insert((1, prefix(v, 1))).insert(
                    (2, prefix(v, 2)),
                ),
                i == 3 ==> self.present(pool) == with_path(t0, v),
                old(pool).free_count() >= missing(t0, v),
                pool.free_count() == old(pool).free_count() - (if i >= 1 {
                    absent(t0, 1, prefix(v, 1)) as int
                } else {
                    0
                }) - (if i >= 2 {
                    absent(t0, 2, prefix(v, 2)) as int
                } else {
                    0
                }) - (if i >= 3 {
                    absent(t0, 3, prefix(v, 3)) as int
                } else {
                    0
                }),
                forall|u: int|
                    own_page(slots, u) ==> #[trigger] leaf(pool.frames(), root, u) == (if i == 3
                        && u / 512 == v / 512 && old(self).leaf(old(pool), u) is None {
                        Some(0u64)
                    } else {
                        old(self).leaf(old(pool), u)
                    }),
            decreases 3 - i,
        {
            proof {
                lemma_prefix(slots, v, i as int);
                lemma_prefix(slots, v, i + 1);
                pool.mem.frames_wf();
                assert(self.table_frames().contains(ppn.0));
                assert(idxs[i as int] == table_index(v, i as int));
            }
            let idx: usize = idxs[i];
            let pte = PageTableEntry { bits: pool.mem.read_word(ppn.0, idx) };
            let ghost here = self.present(pool);
            assert(here.contains((i + 1, prefix(v, i + 1))) == pte_valid(pte.bits)) by {
                assert(table_at(pool.frames(), root, i + 1, prefix(v, i + 1)) is Some
                    == pte_valid(pte.bits));
            }
            assert(t0.contains((i + 1, prefix(v, i + 1))) == here.contains((i + 1, prefix(v, i + 1))));
            if !pte.is_valid() {
                let ghost mem1 = pool.frames();
                let ghost fr1 = self.frames@;
                let ghost free1 = pool.free();
                let frame = frame_alloc(pool).unwrap();
                let new: PhysPageNum = frame.ppn;
                let flags: u64 = PTE_V | PTE_W | PTE_U;
                proof {
                    assert(1u64 | 2 | 4 == 7 && 7u64 & !0x8000_0000_0000_0087u64 == 0 && 7u64 & 1 != 0)
                        by (bit_vector);
                    pte_reads_back(new.0, flags);
                }
                let entry = PageTableEntry::new(new, PTEFlags { bits: flags });
                pool.mem.write_word(ppn.0, idx, entry.bits);
                self.frames.push(frame);
                proof {
                    assert(!frame_set(fr1).contains(new.0));
                    lemma_frame_set_push(fr1, frame);
                    lemma_hang(mem1, root, slots, frame_set(fr1), v, i as int, entry.bits, new.0);
                    assert(pool.frames() =~= hung(mem1, ppn.0, idx as int, entry.bits, new.0));
                    assert(pool.frames().dom() =~= mem1.dom());
                    assert(self.present(pool) == here.insert((i + 1, prefix(v, i + 1))));
                    assert(self.table_frames() =~= old(self).table_frames().union(
                        old(pool).free().difference(pool.free()),
                    ));
                    assert forall|u: int| own_page(slots, u) implies #[trigger] leaf(
                        pool.frames(),
                        root,
                        u,
                    ) == (if i == 2 && u / 512 == v / 512 && old(self).leaf(old(pool), u) is None {
                        Some(0u64)
                    } else {
                        old(self).leaf(old(pool), u)
                    }) by {
                        assert(leaf(mem1, root, u) == old(self).leaf(old(pool), u));
                        if i == 2 && u / 512 == v / 512 {
                            assert(table_at(mem1, root, 3, v / 512) is None);
                        }
                    }
                    if i == 0 {
                        assert(idx == table_index(v, 0));
                        assert(idx < slots);
                    } else {
                        lemma_prefix(slots, v, 0);
                        assert(ppn.0 != root) by {
                            assert(table_at(mem1, root, 0, 0) == Some(root));
                        }
                    }
                    assert(table_at(pool.frames(), root, i + 1, prefix(v, i + 1)) == Some(new.0));
                }
                ppn = new;
            } else {
                proof {
                    assert(here =~= here.insert((i + 1, prefix(v, i + 1))));
                    assert forall|u: int| own_page(slots, u) implies #[trigger] leaf(
                        pool.frames(),
                        root,
                        u,
                    ) == (if i == 2 && u / 512 == v / 512 && old(self).leaf(old(pool), u) is None {
                        Some(0u64)
                    } else {
                        old(self).leaf(old(pool), u)
                    }) by {
                        if i == 2 && u / 512 == v / 512 {
                            assert(leaf(pool.frames(), root, u) is Some);
                        }
                    }
                }
                ppn = pte.ppn();
            }
            i = i + 1;
        }
        proof {
            assert(idxs[3] == table_index(v, 3));
        }
        (ppn.0, idxs[3])
    }

    /// Find the leaf entry of page `vpn`: its table and its index in it.
    fn find_pte<M: PhysMemory>(&self, mem: &M, vpn: VirtPageNum) -> (r: Option<(u64, usize)>)
        requires
            vpn.0 < VPN_LIMIT,
            walkable(mem.frames(), self.root(), vpn.0 as int),
        ensures
            r == match table_at(mem.frames(), self.root(), 3, vpn.0 as int / 512) {
                Some(t) => Some((t, (vpn.0 % 512) as usize)),
                None => None,
            },
            r matches Some(slot) ==> mem.frames().dom().contains(slot.0),
    {
        let idxs: [usize; 4] = vpn.indexes();
        let mut ppn: PhysPageNum = self.root_ppn;
        let mut i: usize = 0;
        let ghost v = vpn.0 as int;
        while i < 3
            invariant
                i <= 3,
                v == vpn.0 as int,
                vpn.0 < VPN_LIMIT,
                forall|k: int| 0 <= k < 4 ==> #[trigger] idxs[k] == table_index(v, k),
                walkable(mem.frames(), self.root(), v),
                table_at(mem.frames(), self.root(), i as int, prefix(v, i as int)) == Some(ppn.0),
            decreases 3 - i,
        {
            proof {
                lemma_prefix(512, v, i as int);
                lemma_prefix(512, v, i + 1);
                assert(idxs[i as int] == table_index(v, i as int));
            }
            let pte = PageTableEntry { bits: mem.read_word(ppn.0, idxs[i]) };
            if !pte.is_valid() {
                proof {
                    assert(table_at(mem.frames(), self.root(), i + 1, prefix(v, i + 1)) is None);
                    if i == 0 {
                        lemma_prefix(512, v, 2);
                        lemma_prefix(512, v, 3);
                        assert(table_at(mem.frames(), self.root(), 2, prefix(v, 2)) is None);
                    } else if i == 1 {
                        lemma_prefix(512, v, 3);
                    }
                    assert(table_at(mem.frames(), self.root(), 3, prefix(v, 3)) is None);
                }
                return None;
            }
            ppn = pte.ppn();
            i = i + 1;
        }
        proof {
            assert(idxs[3] == table_index(v, 3));
        }
        Some((ppn.0, idxs[3]))
    }

    /// Map page `vpn` to frame `ppn`.
    pub fn map<M: PhysMemory>(
        &mut self,
        pool: &mut FramePool<M>,
        vpn: VirtPageNum,
        ppn: PhysPageNum,
        flags: PTEFlags,
    )
        requires
            old(pool).wf(),
            old(self).wf(old(pool)),
            own_page(old(self).slots(), vpn.0 as int),
            old(self).mapped(old(pool), vpn.0 as int) is None,
            old(pool).free_count() >= missing(old(self).present(old(pool)), vpn.0 as int),
        ensures
            final(pool).wf(),
            final(self).wf(final(pool)),
            final(self).grew_from(final(pool), old(self), old(pool)),
            final(pool).free_count() == old(pool).free_count() - missing(
                old(self).present(old(pool)),
                vpn.0 as int,
            ),
            final(self).present(final(pool)) == with_path(
                old(self).present(old(pool)),
                vpn.0 as int,
            ),
            page_mapped(final(self), final(pool), old(self), old(pool), vpn.0, ppn.0, flags.bits),
            forall|v: int|
                old(self).shares(old(pool), v) ==> #[trigger] final(self).leaf(final(pool), v)
                    == old(self).leaf(old(pool), v),
    {
        let (table, idx) = self.find_pte_create(pool, vpn);
        let ghost mem1 = pool.frames();
        let ghost root = self.root();
        let ghost slots = self.slots();
        proof {
            lemma_prefix(slots, vpn.0 as int, 3);
            lemma_prefix(slots, vpn.0 as int, 0);
            pool.mem.frames_wf();
            assert(table_at(mem1, root, 3, vpn.0 as int / 512) == Some(table));
            assert(self.table_frames().contains(table));
            assert(leaf(mem1, root, vpn.0 as int) is Some);
            assert forall|v: int| own_page(slots, v) implies #[trigger] leaf(mem1, root, v) == (
            if v / 512 == vpn.0 as int / 512 && old(self).leaf(old(pool), v) is None {
                Some(0u64)
            } else {
                old(self).leaf(old(pool), v)
            }) by {
                assert(self.leaf(pool, v) == leaf(mem1, root, v));
            }
        }
        let entry = PageTableEntry::new(ppn, flags.union(PTEFlags { bits: PTE_V }));
        pool.mem.write_word(table, idx, entry.bits);
        proof {
            lemma_leaf_set(mem1, root, slots, self.table_frames(), vpn.0 as int, entry.bits);
            assert(pool.frames() =~= leaf_set(mem1, root, vpn.0 as int, entry.bits));
            assert(pool.frames().dom() =~= mem1.dom());
            assert(table != root) by {
                assert(table_at(mem1, root, 0, 0) == Some(root));
            }
            assert forall|v: int| own_page(slots, v) implies #[trigger] self.leaf(pool, v) == (
            if v == vpn.0 {
                Some(pte_word(ppn.0, flags.bits | PTE_V))
            } else if v / 512 == vpn.0 as int / 512 && old(self).leaf(old(pool), v) is None {
                Some(0u64)
            } else {
                old(self).leaf(old(pool), v)
            }) by {
                assert(leaf(pool.frames(), root, v) == if v == vpn.0 {
                    Some(entry.bits)
                } else {
                    leaf(mem1, root, v)
                });
            }
            pte_word_valid(ppn.0, flags.bits | PTE_V);
            let bits = flags.bits;
            assert((bits | 1) & 1 != 0) by (bit_vector);
            assert(self.leaf(pool, vpn.0 as int) == Some(pte_word(ppn.0, flags.bits | PTE_V)));
            leaf_entry_decides(
                pool.frames(),
                root,
                slots,
                self.table_frames(),
                vpn.0 as int,
            );
            let ours = old(self).table_frames().union(old(pool).free());
            assert forall|v: int| old(self).shares(old(pool), v) implies #[trigger] self.leaf(
                pool,
                v,
            ) == old(self).leaf(old(pool), v) && self.mapped(pool, v) == old(self).mapped(
                old(pool),
                v,
            ) by {
                lemma_shared_leaf(pool.frames(), old(pool).frames(), root, slots, ours, v);
            }
            assert forall|v: int|
                v != vpn.0 && (own_page(slots, v) || old(self).shares(
                    old(pool),
                    v,
                )) implies #[trigger] self.mapped(pool, v) == old(self).mapped(old(pool), v) by {
                assert(self.leaf(pool, v) == leaf(pool.frames(), root, v));
            }
        }
    }

    /// Take out the mapping of page `vpn`. The TLB may still hold it: the page
    /// is noted as stale. The page can be mapped again, and no table is missing for
    /// that.
    pub fn unmap<M: PhysMemory>(&mut self, pool: &mut FramePool<M>, vpn: VirtPageNum)
        requires
            old(pool).wf(),
            old(self).wf(old(pool)),
            own_page(old(self).slots(), vpn.0 as int),
            old(self).mapped(old(pool), vpn.0 as int) is Some,
        ensures
            final(pool).wf(),
            final(self).wf(final(pool)),
            final(self).root() == old(self).root(),
            final(self).slots() == old(self).slots(),
            final(self).table_frames() == old(self).table_frames(),
            final(self).table_count() == old(self).table_count(),
            final(self).present(final(pool)) == old(self).present(old(pool)),
            final(self).stale() == old(self).stale().push(page_address(vpn.0 as int)),
            final(pool).allocator@ == old(pool).allocator@,
            final(pool).same_extent(old(pool)),
            forall|f: u64|
                !old(self).table_frames().contains(f) ==> #[trigger] final(pool).frames()[f]
                    == old(pool).frames()[f],
            root_kept(
                final(pool).frames(),
                old(pool).frames(),
                old(self).root(),
                old(self).slots(),
            ),
            missing(final(self).present(final(pool)), vpn.0 as int) == 0,
            page_unmapped(final(self), final(pool), old(self), old(pool), vpn.0),
            forall|v: int|
                old(self).shares(old(pool), v) ==> #[trigger] final(self).leaf(final(pool), v)
                    == old(self).leaf(old(pool), v),
    {
        let ghost mem1 = pool.frames();
        let ghost root = self.root();
        let ghost slots = self.slots();
        proof {
            lemma_prefix(slots, vpn.0 as int, 3);
            lemma_prefix(slots, vpn.0 as int, 0);
            pool.mem.frames_wf();
            lemma_own_walkable(mem1, root, slots, self.table_frames(), vpn.0 as int);
            assert(table_at(mem1, root, 3, vpn.0 as int / 512) is Some);
            assert(self.table_frames().contains(
                table_at(mem1, root, 3, vpn.0 as int / 512)->Some_0,
            ));
        }
        let (table, idx) = self.find_pte(&pool.mem, vpn).unwrap();
        let entry = PageTableEntry::empty();
        pool.mem.write_word(table, idx, entry.bits);
        let va: u64 = vpn.addr().to_ptr();
        self.stale.push(va);
        proof {
            lemma_leaf_set(mem1, root, slots, self.table_frames(), vpn.0 as int, 0);
            assert(pool.frames() =~= leaf_set(mem1, root, vpn.0 as int, 0));
            assert(pool.frames().dom() =~= mem1.dom());
            assert(table != root) by {
                assert(table_at(mem1, root, 0, 0) == Some(root));
            }
            assert(self.stale() =~= old(self).stale().push(page_address(vpn.0 as int)));
            assert forall|v: int| own_page(slots, v) implies #[trigger] self.leaf(pool, v) == (
            if v == vpn.0 {
                Some(0u64)
            } else {
                old(self).leaf(old(pool), v)
            }) by {
                assert(leaf(pool.frames(), root, v) == if v == vpn.0 {
                    Some(0u64)
                } else {
                    leaf(mem1, root, v)
                });
            }
            pte_word_valid(0, 0);
            assert(missing(self.present(pool), vpn.0 as int) == 0) by {
                let v = vpn.0 as int;
                lemma_prefix(slots, v, 1);
                lemma_prefix(slots, v, 2);
                assert(prefix(v, 3) == v / 512);
                assert(table_at(mem1, root, 2, prefix(v, 2)) is Some);
                assert(table_at(mem1, root, 1, prefix(v, 1)) is Some);
            }
            assert(self.leaf(pool, vpn.0 as int) == Some(0u64));
            let ours = old(self).table_frames().union(old(pool).free());
            assert forall|v: int| old(self).shares(old(pool), v) implies #[trigger] self.leaf(
                pool,
                v,
            ) == old(self).leaf(old(pool), v) && self.mapped(pool, v) == old(self).mapped(
                old(pool),
                v,
            ) by {
                lemma_shared_leaf(pool.frames(), mem1, root, slots, ours, v);
            }
            assert forall|v: int|
                v != vpn.0 && (own_page(slots, v) || old(self).shares(
                    old(pool),
                    v,
                )) implies #[trigger] self.mapped(pool, v) == old(self).mapped(old(pool), v) by {
                assert(self.leaf(pool, v) == leaf(pool.frames(), root, v));
            }
        }
    }

    /// Take the list of the addresses whose TLB entries are to be invalidated.
    pub fn take_stale(&mut self) -> (r: Vec<u64>)
        ensures
            r@ == old(self).stale(),
            final(self).stale() == Seq::<u64>::empty(),
            final(self).root() == old(self).root(),
            final(self).slots() == old(self).slots(),
            final(self).table_frames() == old(self).table_frames(),
            final(self).table_count() == old(self).table_count(),
            final(self).no_double() == old(self).no_double(),
    {
        let mut r: Vec<u64> = Vec::new();
        core::mem::swap(&mut r, &mut self.stale);
        r
    }

    /// The leaf entry of page `vpn`, if the tables above it exist.
    pub fn translate<M: PhysMemory>(&self, mem: &M, vpn: VirtPageNum) -> (r: Option<PageTableEntry>)
        requires
            vpn.0 < VPN_LIMIT,
            walkable(mem.frames(), self.root(), vpn.0 as int),
        ensures
            r == match leaf(mem.frames(), self.root(), vpn.0 as int) {
                Some(w) => Some(PageTableEntry { bits: w }),
                None => None,
            },
    {
        match self.find_pte(mem, vpn) {
            Some((table, idx)) => Some(PageTableEntry { bits: mem.read_word(table, idx) }),
            None => None,
        }
    }

    /// A page table to read from, with the root that `token` points to.
    pub fn from_token(token: u64) -> (r: Self)
        ensures
            r.root() == root_of(token),
            r.table_frames() == Set::<u64>::empty(),
            r.slots() == 0,
    {
        let r = PageTable {
            root_ppn: PhysPageNum(token / 0x1000),
            frames: Vec::new(),
            stale: Vec::new(),
            slots: Ghost(0),
        };
        assert(r.table_frames() =~= Set::<u64>::empty());
        r
    }

    /// The physical address of `va`.
    pub fn translate_va<M: PhysMemory>(&self, mem: &M, va: VirtAddr) -> (r: Option<PhysAddr>)
        requires
            va.0 < VA_LIMIT,
            walkable(mem.frames(), self.root(), va.0 as int / 0x1000),
        ensures
            r == translated(mem.frames(), self.root(), va.0 as int),
    {
        match self.find_pte(mem, va.floor()) {
            Some((table, idx)) => {
                let pte = PageTableEntry { bits: mem.read_word(table, idx) };
                let aligned: PhysAddr = pte.ppn().addr();
                Some(PhysAddr(aligned.0 + va.page_offset()))
            },
            None => None,
        }
    }

    /// The value to load into CR3: the physical address of the root.
    pub fn token(&self) -> (r: u64)
        requires
            self.root() < PPN_LIMIT,
        ensures
            r == self.root() * 0x1000,
    {
        self.root_ppn.0 * 0x1000
    }

    /// Give the frames of all tables back.
    pub fn release<M: PhysMemory>(self, pool: &mut FramePool<M>)
        requires
            old(pool).wf(),
            self.wf(old(pool)),
        ensures
            final(pool).wf(),
            final(pool).same_extent(old(pool)),
            final(pool).frames() == old(pool).frames(),
            final(pool).free() == old(pool).free().union(self.table_frames()),
            final(pool).free_count() == old(pool).free_count() + self.table_count(),
    {
        free_frames(&self.frames, pool);
    }

    /// Leave the entries of the root from `from` on to another page table:
    /// they become the entries of the root `other`.
    pub fn share_root<M: PhysMemory>(&mut self, pool: &mut FramePool<M>, other: u64, from: usize)
        requires
            old(pool).wf(),
            old(self).wf(old(pool)),
            from <= old(self).slots(),
            old(pool).frames().dom().contains(other),
            other != old(self).root(),
            old(self).present(old(pool)) == set![(0int, 0int)],
        ensures
            final(pool).wf(),
            final(self).wf(final(pool)),
            final(self).root() == old(self).root(),
            final(self).slots() == from,
            final(self).table_frames() == old(self).table_frames(),
            final(self).table_count() == old(self).table_count(),
            final(self).stale() == old(self).stale(),
            final(self).present(final(pool)) == set![(0int, 0int)],
            final(pool).allocator@ == old(pool).allocator@,
            final(pool).same_extent(old(pool)),
            forall|v: int|
                own_page(from as int, v) ==> #[trigger] final(self).leaf(final(pool), v) is None,
            forall|f: u64|
                f != old(self).root() ==> #[trigger] final(pool).frames()[f]
                    == old(pool).frames()[f],
            forall|i: int|
                0 <= i < 512 ==> #[trigger] final(pool).frames()[old(self).root()][i] == (if i
                    < from {
                    old(pool).frames()[old(self).root()][i]
                } else {
                    old(pool).frames()[other][i]
                }),
    {
        let ghost root = self.root();
        let ghost slots0 = self.slots();
        proof {
            pool.mem.frames_wf();
            assert(table_at(pool.frames(), root, 0, 0) == Some(root));
            assert(own(slots0, 0, 0));
            assert(self.table_frames().contains(root));
        }
        let mut idx: usize = from;
        while idx < 512
            invariant
                from <= idx <= 512,
                root == self.root(),
                *self == *old(self),
                other != root,
                old(pool).frames().dom().contains(other),
                old(pool).frames().dom().contains(root),
                old(pool).frames()[root].len() == 512,
                pool.allocator == old(pool).allocator,
                pool.frames().dom() == old(pool).frames().dom(),
                pool.frames()[root].len() == 512,
                forall|f: u64| f != root ==> #[trigger] pool.frames()[f] == old(pool).frames()[f],
                forall|i: int|
                    0 <= i < 512 ==> #[trigger] pool.frames()[root][i] == (if from <= i < idx {
                        old(pool).frames()[other][i]
                    } else {
                        old(pool).frames()[root][i]
                    }),
            decreases 512 - idx,
        {
            let w: u64 = pool.mem.read_word(other, idx);
            pool.mem.write_word(self.root_ppn.0, idx, w);
            assert(pool.frames().dom() =~= old(pool).frames().dom());
            idx = idx + 1;
        }
        self.slots = Ghost(from as int);
        proof {
            let mem = pool.frames();
            let mem0 = old(pool).frames();
            assert forall|k: int, p: int| own(from as int, k, p) && k > 0 implies #[trigger] table_at(
                mem,
                root,
                k,
                p,
            ) is None by {
                lemma_shared_root(mem0, mem, root, slots0, from as int, k, p);
            }
            assert(self.present(pool) =~= set![(0int, 0int)]);
            assert forall|v: int| own_page(from as int, v) implies #[trigger] self.leaf(
                pool,
                v,
            ) is None by {
                lemma_prefix(from as int, v, 3);
                assert(table_at(mem, root, 3, v / 512) is None);
            }
            assert(tree_wf(mem, root, from as int, self.table_frames()));
        }
    }
}

proof fn lemma_shared_root(
    mem0: Frames,
    mem: Frames,
    root: u64,
    slots0: int,
    from: int,
    k: int,
    p: int,
)
    requires
        0 <= from <= slots0 <= 512,
        own(from, k, p),
        k > 0,
        present(mem0, root, slots0) == set![(0int, 0int)],
        forall|i: int| 0 <= i < from ==> #[trigger] mem[root][i] == mem0[root][i],
    ensures
        table_at(mem, root, k, p) is None,
    decreases k,
{
    if k > 1 {
        lemma_shared_root(mem0, mem, root, slots0, from, k - 1, p / 512);
    } else {
        assert(own(slots0, 1, p));
        assert(!present(mem0, root, slots0).contains((1, p)));
        assert(table_at(mem0, root, 0, p / 512) == Some(root));
        assert(table_at(mem, root, 0, p / 512) == Some(root));
        assert(table_at(mem0, root, 1, p) is None);
        assert(mem[root][p % 512] == mem0[root][p % 512]);
    }
}

/// `table` came from `table0` by mapping page `vpn` to frame `ppn` with these flags.
pub open spec fn page_mapped<M: PhysMemory>(
    table: &PageTable,
    pool: &FramePool<M>,
    table0: &PageTable,
    pool0: &FramePool<M>,
    vpn: u64,
    ppn: u64,
    flags: u64,
) -> bool {
    &&& forall|v: int|
        own_page(table0.slots(), v) ==> #[trigger] table.leaf(pool, v) == (if v == vpn {
            Some(pte_word(ppn, flags | PTE_V))
        } else if v / 512 == vpn as int / 512 && table0.leaf(pool0, v) is None {
            Some(0u64)
        } else {
            table0.leaf(pool0, v)
        })
    &&& table.mapped(pool, vpn as int) == Some(pte_word(ppn, flags | PTE_V))
    &&& page_rights(pool.frames(), table.root(), vpn as int) == Some(
        entry_rights(pte_word(ppn, flags | PTE_V)),
    )
    &&& forall|v: int|
        v != vpn && (own_page(table0.slots(), v) || table0.shares(pool0, v)) ==> #[trigger] table.mapped(
            pool,
            v,
        ) == table0.mapped(pool0, v)
}

/// `table` came from `table0` by unmapping page `vpn`.
pub open spec fn page_unmapped<M: PhysMemory>(
    table: &PageTable,
    pool: &FramePool<M>,
    table0: &PageTable,
    pool0: &FramePool<M>,
    vpn: u64,
) -> bool {
    &&& forall|v: int|
        own_page(table0.slots(), v) ==> #[trigger] table.leaf(pool, v) == (if v == vpn {
            Some(0u64)
        } else {
            table0.leaf(pool0, v)
        })
    &&& table.mapped(pool, vpn as int) is None
    &&& forall|v: int|
        v != vpn && (own_page(table0.slots(), v) || table0.shares(pool0, v)) ==> #[trigger] table.mapped(
            pool,
            v,
        ) == table0.mapped(pool0, v)
}

/// The frame of the root that `token` points to.
pub open spec fn root_of(token: u64) -> u64 {
    token / 0x1000
}

/// The pointer value of the first byte of page `vpn`.
pub open spec fn page_address(vpn: int) -> u64 {
    canonical((vpn * 0x1000) as u64) as u64
}

/// The physical address of the 48-bit address `va`.
pub open spec fn translated(mem: Frames, root: u64, va: int) -> Option<PhysAddr> {
    match leaf(mem, root, va / 0x1000) {
        Some(w) => Some(PhysAddr((pte_ppn(w) * 0x1000 + va % 0x1000) as u64)),
        None => None,
    }
}

/// A token leads back to the root it was made of.
pub proof fn token_reads_back(root: u64)
    requires
        root < PPN_LIMIT,
    ensures
        root * 0x1000 <= u64::MAX,
        root_of((root * 0x1000) as u64) == root,
{
}

/// Give back the frames of a list, from the first to the last.
pub fn free_frames<M: PhysMemory>(frames: &Vec<FrameTracker>, pool: &mut FramePool<M>)
    requires
        old(pool).wf(),
        frames_distinct(frames@),
        forall|f: u64| #[trigger] frame_set(frames@).contains(f) ==> old(pool).allocated(f),
    ensures
        final(pool).wf(),
        final(pool).same_extent(old(pool)),
        final(pool).frames() == old(pool).frames(),
        final(pool).free() == old(pool).free().union(frame_set(frames@)),
        final(pool).free_count() == old(pool).free_count() + frames@.len(),
{
    let mut i: usize = 0;
    proof {
        assert(pool.free() =~= pool.free().union(frame_set(frames@.take(0))));
    }
    while i < frames.len()
        invariant
            i <= frames@.len(),
            pool.wf(),
            frames_distinct(frames@),
            forall|f: u64| #[trigger] frame_set(frames@).contains(f) ==> old(pool).allocated(f),
            pool.same_extent(old(pool)),
            pool.frames() == old(pool).frames(),
            pool.free() == old(pool).free().union(frame_set(frames@.take(i as int))),
            pool.free_count() == old(pool).free_count() + i,
        decreases frames@.len() - i,
    {
        proof {
            let f = frames@[i as int].ppn.0;
            assert(frame_set(frames@).contains(f));
            assert(old(pool).allocated(f));
            lemma_managed_by_extent(old(pool), pool, f);
            assert(!pool.free().contains(f)) by {
                if frame_set(frames@.take(i as int)).contains(f) {
                    let j = choose|j: int|
                        0 <= j < frames@.take(i as int).len() && (#[trigger] frames@.take(
                            i as int,
                        )[j]).ppn.0 == f;
                    assert(frames@[j].ppn.0 == f);
                }
                assert(!old(pool).free().contains(f));
            }
        }
        frame_dealloc(pool, frames[i].ppn);
        proof {
            let a = frames@.take(i as int);
            let b = frames@.take(i + 1);
            assert(b =~= a.push(frames@[i as int]));
            assert(frames_distinct(a)) by {
                assert forall|x: int, y: int| 0 <= x < y < a.len() implies (#[trigger] a[x]).ppn.0
                    != (#[trigger] a[y]).ppn.0 by {
                    assert(frames@[x].ppn.0 != frames@[y].ppn.0);
                }
            }
            assert(!frame_set(a).contains(frames@[i as int].ppn.0));
            lemma_frame_set_push(a, frames@[i as int]);
            assert(pool.free() =~= old(pool).free().union(frame_set(b)));
        }
        i = i + 1;
    }
    proof {
        assert(frames@.take(frames@.len() as int) =~= frames@);
    }
}

/// The root is one of the tables.
pub proof fn lemma_root_is_table<M: PhysMemory>(table: &PageTable, pool: &FramePool<M>)
    requires
        table.wf(pool),
    ensures
        table.table_frames().contains(table.root()),
        pool.allocated(table.root()),
        !pool.free().contains(table.root()),
        0 <= table.slots() <= 512,
{
    assert(own(table.slots(), 0, 0));
    assert(table_at(pool.frames(), table.root(), 0, 0) == Some(table.root()));
}

/// Allocators of the same extent manage the same frames.
pub proof fn lemma_managed_by_extent<M: PhysMemory>(a: &FramePool<M>, b: &FramePool<M>, f: u64)
    requires
        a.same_extent(b) || b.same_extent(a),
    ensures
        a.allocator@.managed(f) == b.allocator@.managed(f),
{
    let x = a.allocator@;
    let y = b.allocator@;
    if x.managed(f) {
        let i = choose|i: int|
            0 <= i < x.start.len() && (#[trigger] x.start[i]).0 <= f < x.end[i].0;
        assert(y.start[i].0 <= f);
    }
    if y.managed(f) {
        let i = choose|i: int|
            0 <= i < y.start.len() && (#[trigger] y.start[i]).0 <= f < y.end[i].0;
        assert(x.start[i].0 <= f);
    }
}

proof fn lemma_empty_root<M: PhysMemory>(pool: &FramePool<M>, root: u64, k: int, p: int)
    requires
        pool.frames()[root] == super::phys::cleared_frame(),
        own(512, k, p),
        k > 0,
    ensures
        table_at(pool.frames(), root, k, p) is None,
    decreases k,
{
    pte_word_valid(0, 0);
    if k > 1 {
        lemma_empty_root(pool, root, k - 1, p / 512);
    } else {
        assert(table_at(pool.frames(), root, 0, p / 512) == Some(root));
    }
}

} // verus!
