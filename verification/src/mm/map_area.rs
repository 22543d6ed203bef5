//! Map areas: contiguous pieces of virtual memory with one kind of mapping.
use std::collections::BTreeMap;
use vstd::prelude::*;
use super::address::{
    PhysAddr, PhysPageNum, VPNRange, VirtAddr, VirtPageNum, PA_LIMIT, PPN_LIMIT, VPN_LIMIT,
};
use super::frame_allocator::{frame_alloc, frame_dealloc, FramePool, FrameTracker};
use super::page_table::{
    lemma_managed_by_extent, lemma_root_is_table, page_address, pte_reads_back, pte_valid, pte_word,
    pte_word_valid, PTEFlags, PageTable, PTE_ALL, PTE_NX, PTE_U, PTE_V, PTE_W,
};
use super::phys::{cleared_frame, frame_byte, write_byte, PhysMemory};
use super::table_tree::{
    frames_needed, leaf, lemma_own_walkable, lemma_prefix, lemma_tree_same, mapped, missing,
    own_page, root_kept, with_path, with_paths,
};

verus! {

/// Map permission: read.
pub const MAP_R: u8 = 2;

/// Map permission: write.
pub const MAP_W: u8 = 4;

/// Map permission: execute.
pub const MAP_X: u8 = 8;

/// Map permission: user access.
pub const MAP_U: u8 = 16;

/// The permissions of a map area.
#[derive(Copy, Clone, Debug, PartialEq, Eq, Structural)]
pub struct MapPermission {
    pub bits: u8,
}

impl MapPermission {
    /// Whether all permissions of `other` are given.
    pub fn contains(&self, other: MapPermission) -> (r: bool)
        ensures
            r == (self.bits & other.bits == other.bits),
    {
        self.bits & other.bits == other.bits
    }

    /// The permissions given in either.
    pub fn union(&self, other: MapPermission) -> (r: Self)
        ensures
            r.bits == self.bits | other.bits,
    {
        MapPermission { bits: self.bits | other.bits }
    }
}

/// The page table flags for a set of permissions. Read access is implied, and
/// execute access is the inverse of the NX flag.
pub open spec fn perm_flags(perm: u8) -> u64 {
    PTE_V | (if perm & MAP_W == MAP_W {
        PTE_W
    } else {
        0
    }) | (if perm & MAP_U == MAP_U {
        PTE_U
    } else {
        0
    }) | (if perm & MAP_X == MAP_X {
        0
    } else {
        PTE_NX
    })
}

pub proof fn lemma_perm_flags(perm: u8)
    ensures
        perm_flags(perm) & !PTE_ALL == 0,
        perm_flags(perm) | PTE_V == perm_flags(perm),
        perm_flags(perm) & PTE_V != 0,
{
    assert({
        let f = 1u64 | (if perm & 4 == 4 {
            2u64
        } else {
            0
        }) | (if perm & 16 == 16 {
            4u64
        } else {
            0
        }) | (if perm & 8 == 8 {
            0
        } else {
            0x8000_0000_0000_0000u64
        });
        f & !0x8000_0000_0000_0087u64 == 0 && f | 1 == f && f & 1 != 0
    }) by (bit_vector);
}

/// An entry allows user access, writing and execution exactly if the permissions
/// do.
pub proof fn entry_allows_what_permissions_say(ppn: u64, perm: u8)
    requires
        ppn < PPN_LIMIT,
    ensures
        ({
            let w = pte_word(ppn, perm_flags(perm));
            &&& pte_valid(w)
            &&& (w & PTE_U != 0) == (perm & MAP_U == MAP_U)
            &&& (w & PTE_W != 0) == (perm & MAP_W == MAP_W)
            &&& (w & PTE_NX == 0) == (perm & MAP_X == MAP_X)
        }),
{
    assert({
        let f = 1u64 | (if perm & 4 == 4 {
            2u64
        } else {
            0
        }) | (if perm & 16 == 16 {
            4u64
        } else {
            0
        }) | (if perm & 8 == 8 {
            0
        } else {
            0x8000_0000_0000_0000u64
        });
        let w = (ppn << 12) | f;
        &&& w & 1 != 0
        &&& (w & 4 != 0) == (perm & 16 == 16)
        &&& (w & 2 != 0) == (perm & 4 == 4)
        &&& (w & 0x8000_0000_0000_0000u64 == 0) == (perm & 8 == 8)
    }) by (bit_vector)
        requires
            ppn < 0x100_0000_0000u64,
    ;
}

/// The page table flags for a set of permissions.
pub fn pte_flags_from_perm(perm: MapPermission) -> (r: PTEFlags)
    ensures
        r.bits == perm_flags(perm.bits),
        r.wf(),
{
    proof {
        lemma_perm_flags(perm.bits);
        let p = perm.bits;
        assert(forall|a: u64| #![trigger a | 0] a | 0 == a) by (bit_vector);
    }
    let mut flags = PTEFlags { bits: PTE_V };
    if perm.contains(MapPermission { bits: MAP_W }) {
        flags = flags.union(PTEFlags { bits: PTE_W });
    }
    if perm.contains(MapPermission { bits: MAP_U }) {
        flags = flags.union(PTEFlags { bits: PTE_U });
    }
    if !perm.contains(MapPermission { bits: MAP_X }) {
        flags = flags.union(PTEFlags { bits: PTE_NX });
    }
    flags
}

/// How the pages of an area get their frames.
#[derive(Copy, Clone, Debug, PartialEq, Eq, Structural)]
pub enum MapType {
    /// every page gets a frame of its own
    Framed,
    /// the physical address is the virtual one less `pa_offset`
    Linear { pa_offset: u64 },
}

/// The frame that a linear area maps page `vpn` to.
pub open spec fn linear_ppn(vpn: int, pa_offset: u64) -> u64 {
    (((vpn * 0x1000 - pa_offset) % (PA_LIMIT as int)) / 0x1000) as u64
}

/// The state of a [`MapArea`].
#[verifier::ext_equal]
pub struct AreaView {
    /// the first page
    pub start: int,
    /// the page after the last one
    pub end: int,
    pub map_type: MapType,
    /// the permission bits
    pub perm: u8,
    /// the frames of the pages, if the area is framed
    pub data: Map<int, u64>,
}

impl AreaView {
    pub open spec fn framed(self) -> bool {
        self.map_type is Framed
    }

    pub open spec fn contains(self, v: int) -> bool {
        self.start <= v < self.end
    }

    /// How many frames a page takes.
    pub open spec fn per_page(self) -> nat {
        if self.framed() {
            1
        } else {
            0
        }
    }

    /// The frame of page `v`.
    pub open spec fn frame_of(self, v: int) -> u64 {
        match self.map_type {
            MapType::Framed => self.data[v],
            MapType::Linear { pa_offset } => linear_ppn(v, pa_offset),
        }
    }

    /// The page table entry of page `v`.
    pub open spec fn entry(self, v: int) -> u64 {
        pte_word(self.frame_of(v), perm_flags(self.perm))
    }

    /// Whether page `v` lies high enough for a linear area.
    pub open spec fn linear_ok(self, v: int) -> bool {
        self.map_type matches MapType::Linear { pa_offset } ==> v * 0x1000 >= pa_offset
    }

    /// The frames of the pages.
    pub open spec fn data_set(self) -> Set<u64> {
        Set::new(|f: u64| exists|v: int| self.data.dom().contains(v) && #[trigger] self.data[v] == f)
    }

    /// No two pages share a frame.
    pub open spec fn data_distinct(self) -> bool {
        forall|v: int, w: int|
            self.data.dom().contains(v) && self.data.dom().contains(w) && #[trigger] self.data[v]
                == #[trigger] self.data[w] ==> v == w
    }

    /// The pages from `start` to `end` of a framed area have frames, no others
    /// do, and no two share one.
    pub open spec fn filled(self, start: int, end: int) -> bool {
        &&& forall|v: int| #[trigger]
            self.data.dom().contains(v) <==> self.framed() && start <= v < end
        &&& self.data_distinct()
        &&& forall|v: int| start <= v < end ==> #[trigger] self.linear_ok(v)
    }

    /// The area is complete.
    pub open spec fn wf(self) -> bool {
        &&& 0 <= self.start <= self.end <= VPN_LIMIT
        &&& self.filled(self.start, self.end)
    }
}

/// `pool` and `table` came from `pool0` and `table0` by mapping pages: the
/// frames in `data` and the new tables were free before, and nothing but the
/// tables and free frames was touched.
pub open spec fn extended<M: PhysMemory>(
    table: &PageTable,
    pool: &FramePool<M>,
    table0: &PageTable,
    pool0: &FramePool<M>,
    data: Set<u64>,
) -> bool {
    &&& table.root() == table0.root()
    &&& table.slots() == table0.slots()
    &&& table.stale() == table0.stale()
    &&& pool.same_extent(pool0)
    &&& pool.free().subset_of(pool0.free())
    &&& data.subset_of(pool0.free())
    &&& data.disjoint(pool.free())
    &&& data.disjoint(table.table_frames())
    &&& table.table_frames().union(data) == table0.table_frames().union(
        pool0.free().difference(pool.free()),
    )
    &&& forall|f: u64|
        !table0.table_frames().contains(f) && !pool0.free().contains(f) ==> #[trigger] pool.frames()[f]
            == pool0.frames()[f]
    &&& root_kept(pool.frames(), pool0.frames(), table0.root(), table0.slots())
}

pub proof fn lemma_extended_trans<M: PhysMemory>(
    t2: &PageTable,
    p2: &FramePool<M>,
    t1: &PageTable,
    p1: &FramePool<M>,
    t0: &PageTable,
    p0: &FramePool<M>,
    d1: Set<u64>,
    d2: Set<u64>,
)
    requires
        extended(t1, p1, t0, p0, d1),
        extended(t2, p2, t1, p1, d2),
    ensures
        extended(t2, p2, t0, p0, d1.union(d2)),
        forall|f: u64| d1.contains(f) ==> #[trigger] p2.frames()[f] == p1.frames()[f],
{
    let d = d1.union(d2);
    assert forall|f: u64| t1.table_frames().contains(f) implies t0.table_frames().contains(f)
        || p0.free().contains(f) by {
        assert(t1.table_frames().union(d1).contains(f));
    }
    assert forall|f: u64| #[trigger] d1.contains(f) implies !t2.table_frames().contains(f) by {
        if t2.table_frames().contains(f) {
            assert(t2.table_frames().union(d2).contains(f));
            assert(t1.table_frames().union(p1.free().difference(p2.free())).contains(f));
        }
    }
    assert(t2.table_frames().union(d) =~= t0.table_frames().union(p0.free().difference(p2.free())))
        by {
        assert forall|f: u64| t2.table_frames().union(d).contains(f) == t0.table_frames().union(
            p0.free().difference(p2.free()),
        ).contains(f) by {
            assert(t2.table_frames().union(d2).contains(f) == t1.table_frames().union(
                p1.free().difference(p2.free()),
            ).contains(f));
            assert(t1.table_frames().union(d1).contains(f) == t0.table_frames().union(
                p0.free().difference(p1.free()),
            ).contains(f));
        }
    }
}

/// The pointer values of the pages from `s` to `e`.
pub open spec fn page_addresses(s: int, e: int) -> Seq<u64> {
    Seq::new((e - s) as nat, |i: int| page_address(s + i))
}

/// A contiguous piece of virtual memory.
pub struct MapArea {
    vpn_range: VPNRange,
    data_frames: BTreeMap<u64, FrameTracker>,
    map_type: MapType,
    map_perm: MapPermission,
}

impl View for MapArea {
    type V = AreaView;

    closed spec fn view(&self) -> AreaView {
        AreaView {
            start: self.vpn_range.start(),
            end: self.vpn_range.end(),
            map_type: self.map_type,
            perm: self.map_perm.bits,
            data: Map::new(
                |v: int| 0 <= v <= u64::MAX && self.data_frames@.contains_key(v as u64),
                |v: int| self.data_frames@[v as u64].ppn.0,
            ),
        }
    }
}

/// The leaf entry of page `v` after page `vpn` was mapped with entry `w`: the
/// other pages keep theirs, and those of a new table have an empty one.
pub open spec fn leaf_after_map(old_leaf: Option<u64>, v: int, vpn: int, w: u64) -> Option<u64> {
    if v == vpn {
        Some(w)
    } else if v / 512 == vpn / 512 && old_leaf is None {
        Some(0u64)
    } else {
        old_leaf
    }
}

impl MapArea {
    /// The area of the pages that hold the addresses from `start_va` to
    /// `end_va`, without frames.
    pub fn new(
        start_va: VirtAddr,
        end_va: VirtAddr,
        map_type: MapType,
        map_perm: MapPermission,
    ) -> (r: Self)
        requires
            start_va.0 as int / 0x1000 <= (end_va.0 + 0xfff) / 0x1000,
        ensures
            r@ == (AreaView {
                start: start_va.0 as int / 0x1000,
                end: (end_va.0 + 0xfff) / 0x1000,
                map_type,
                perm: map_perm.bits,
                data: Map::empty(),
            }),
    {
        let start_vpn: VirtPageNum = start_va.floor();
        let end_vpn: VirtPageNum = end_va.ceil();
        let r = Self {
            vpn_range: VPNRange::new(start_vpn, end_vpn),
            data_frames: BTreeMap::new(),
            map_type,
            map_perm,
        };
        assert(r@.data =~= Map::empty());
        r
    }

    /// The linear area of the pages that hold the addresses from `start_va`
    /// to `end_va`.
    pub fn new_linear(
        start_va: VirtAddr,
        end_va: VirtAddr,
        map_perm: MapPermission,
        pa_offset: u64,
    ) -> (r: Self)
        requires
            start_va.0 as int / 0x1000 <= (end_va.0 + 0xfff) / 0x1000,
        ensures
            r@ == (AreaView {
                start: start_va.0 as int / 0x1000,
                end: (end_va.0 + 0xfff) / 0x1000,
                map_type: MapType::Linear { pa_offset },
                perm: map_perm.bits,
                data: Map::empty(),
            }),
    {
        Self::new(start_va, end_va, MapType::Linear { pa_offset }, map_perm)
    }

    /// An area like `another`, without frames.
    pub fn from_another(another: &Self) -> (r: Self)
        requires
            another@.start <= another@.end,
        ensures
            r@ == (AreaView { data: Map::empty(), ..another@ }),
    {
        let r = Self {
            vpn_range: VPNRange::new(another.vpn_range.get_start(), another.vpn_range.get_end()),
            data_frames: BTreeMap::new(),
            map_type: another.map_type,
            map_perm: another.map_perm,
        };
        assert(r@.data =~= Map::empty());
        r
    }

    /// The first page.
    pub fn start(&self) -> (r: VirtPageNum)
        ensures
            r.0 == self@.start,
    {
        self.vpn_range.get_start()
    }

    /// The page after the last one.
    pub fn end(&self) -> (r: VirtPageNum)
        ensures
            r.0 == self@.end,
    {
        self.vpn_range.get_end()
    }

    /// Map page `vpn`; a framed area gives it a cleared frame.
    pub fn map_one<M: PhysMemory>(
        &mut self,
        page_table: &mut PageTable,
        pool: &mut FramePool<M>,
        vpn: VirtPageNum,
    )
        requires
            old(pool).wf(),
            old(page_table).wf(old(pool)),
            own_page(old(page_table).slots(), vpn.0 as int),
            old(page_table).mapped(old(pool), vpn.0 as int) is None,
            !old(self)@.data.dom().contains(vpn.0 as int),
            old(self)@.linear_ok(vpn.0 as int),
            old(pool).free_count() >= old(self)@.per_page() + missing(
                old(page_table).present(old(pool)),
                vpn.0 as int,
            ),
        ensures
            final(pool).wf(),
            final(page_table).wf(final(pool)),
            final(self)@.start == old(self)@.start,
            final(self)@.end == old(self)@.end,
            final(self)@.map_type == old(self)@.map_type,
            final(self)@.perm == old(self)@.perm,
            final(self)@.data == if old(self)@.framed() {
                old(self)@.data.insert(vpn.0 as int, final(self)@.data[vpn.0 as int])
            } else {
                old(self)@.data
            },
            extended(
                final(page_table),
                final(pool),
                old(page_table),
                old(pool),
                if old(self)@.framed() {
                    set![final(self)@.data[vpn.0 as int]]
                } else {
                    Set::empty()
                },
            ),
            old(self)@.framed() ==> final(pool).frames()[final(self)@.data[vpn.0 as int]]
                == cleared_frame(),
            final(pool).free_count() == old(pool).free_count() - old(self)@.per_page() - missing(
                old(page_table).present(old(pool)),
                vpn.0 as int,
            ),
            final(page_table).table_count() == old(page_table).table_count() + missing(
                old(page_table).present(old(pool)),
                vpn.0 as int,
            ),
            final(page_table).present(final(pool)) == with_path(
                old(page_table).present(old(pool)),
                vpn.0 as int,
            ),
            forall|v: int|
                own_page(old(page_table).slots(), v) ==> #[trigger] final(page_table).leaf(
                    final(pool), v) == leaf_after_map(
                    old(page_table).leaf(old(pool), v),
                    v,
                    vpn.0 as int,
                    final(self)@.entry(vpn.0 as int),
                ),
    {
        let ghost before = self@;
        let ghost pool0 = *pool;
        let ghost table0 = *page_table;
        proof {
            lemma_root_is_table(page_table, pool);
        }
        let ppn: PhysPageNum;
        match self.map_type {
            MapType::Framed => {
                proof {
                    assert forall|f: u64| #[trigger] table0.table_frames().contains(f) implies !pool.free().contains(f) by {
                        assert(pool.allocated(f));
                    }
                }
                let frame = frame_alloc(pool).unwrap();
                ppn = frame.ppn;
                self.data_frames.insert(vpn.0, frame);
                proof {
                    assert(self@.data =~= before.data.insert(vpn.0 as int, ppn.0));
                    lemma_table_kept(page_table, &pool0, pool);
                    assert(page_table.leaf(pool, vpn.0 as int) == table0.leaf(
                        &pool0,
                        vpn.0 as int,
                    ));
                }
            },
            MapType::Linear { pa_offset } => {
                let va: VirtAddr = vpn.addr();
                let pa: PhysAddr = PhysAddr::new(va.0 - pa_offset);
                ppn = pa.floor();
            },
        }
        let ghost pool1 = *pool;
        let pte_flags = pte_flags_from_perm(self.map_perm);
        page_table.map(pool, vpn, ppn, pte_flags);
        proof {
            lemma_perm_flags(self.map_perm.bits);
            assert(self@.entry(vpn.0 as int) == pte_word(ppn.0, pte_flags.bits | PTE_V));
            if before.framed() {
                assert(page_table.table_frames().union(set![ppn.0])
                    =~= table0.table_frames().union(pool0.free().difference(pool.free())));
                assert(!page_table.table_frames().contains(ppn.0));
                assert(self@.data[vpn.0 as int] == ppn.0);
                assert forall|f: u64|
                    !table0.table_frames().contains(f) && !pool0.free().contains(
                        f,
                    ) implies #[trigger] pool.frames()[f] == pool0.frames()[f] by {
                    assert(pool1.frames()[f] == pool0.frames()[f]);
                }
                assert forall|i: int|
                    0 <= i < 512 && (i >= table0.slots() || pte_valid(
                        pool0.frames()[table0.root()][i],
                    )) implies #[trigger] pool.frames()[table0.root()][i]
                    == pool0.frames()[table0.root()][i] by {
                    assert(pool1.frames()[table0.root()] == pool0.frames()[table0.root()]);
                    assert(pool.frames()[table0.root()][i] == pool1.frames()[table0.root()][i]);
                }
            } else {
                assert(page_table.table_frames().union(Set::empty())
                    =~= table0.table_frames().union(pool0.free().difference(pool.free())));
            }
            assert forall|v: int|
                own_page(table0.slots(), v) implies #[trigger] page_table.leaf(pool, v)
                == leaf_after_map(
                table0.leaf(&pool0, v),
                v,
                vpn.0 as int,
                self@.entry(vpn.0 as int),
            ) by {
                assert(table0.leaf(&pool1, v) == table0.leaf(&pool0, v));
            }
        }
    }

    /// Take out the mapping of page `vpn`; a framed area gives its frame back.
    pub fn unmap_one<M: PhysMemory>(
        &mut self,
        page_table: &mut PageTable,
        pool: &mut FramePool<M>,
        vpn: VirtPageNum,
    )
        requires
            old(pool).wf(),
            old(page_table).wf(old(pool)),
            own_page(old(page_table).slots(), vpn.0 as int),
            old(page_table).mapped(old(pool), vpn.0 as int) is Some,
            old(self)@.framed() ==> old(self)@.data.dom().contains(vpn.0 as int)
                && old(pool).allocated(old(self)@.data[vpn.0 as int])
                && !old(page_table).table_frames().contains(old(self)@.data[vpn.0 as int]),
        ensures
            final(pool).wf(),
            final(page_table).wf(final(pool)),
            final(self)@ == (AreaView {
                data: if old(self)@.framed() {
                    old(self)@.data.remove(vpn.0 as int)
                } else {
                    old(self)@.data
                },
                ..old(self)@
            }),
            final(pool).free() == if old(self)@.framed() {
                old(pool).free().insert(old(self)@.data[vpn.0 as int])
            } else {
                old(pool).free()
            },
            final(pool).free_count() == old(pool).free_count() + old(self)@.per_page(),
            shrunk(final(page_table), final(pool), old(page_table), old(pool)),
            final(page_table).stale() == old(page_table).stale().push(page_address(vpn.0 as int)),
            forall|v: int|
                own_page(old(page_table).slots(), v) ==> #[trigger] final(page_table).leaf(
                    final(pool), v) == (if v == vpn.0 {
                    Some(0u64)
                } else {
                    old(page_table).leaf(old(pool), v)
                }),
    {
        let ghost before = self@;
        let ghost pool0 = *pool;
        if let MapType::Framed = self.map_type {
            match self.data_frames.remove(&vpn.0) {
                Some(frame) => {
                    assert(frame.ppn.0 == before.data[vpn.0 as int]);
                    frame_dealloc(pool, frame.ppn);
                    assert(page_table.wf(pool)) by {
                        assert forall|f: u64| #[trigger] page_table.table_frames().contains(f) implies pool.allocated(
                            f,
                        ) by {
                            assert(pool0.allocated(f));
                            lemma_managed_by_extent(pool, &pool0, f);
                            assert(!pool0.free().contains(f));
                            assert(!pool.free().contains(f));
                        }
                    }
                },
                None => {},
            }
            assert(self@.data =~= before.data.remove(vpn.0 as int));
        }
        let ghost pool1 = *pool;
        page_table.unmap(pool, vpn);
        proof {
            assert(pool.free() =~= pool1.free());
            assert forall|v: int|
                own_page(old(page_table).slots(), v) implies #[trigger] page_table.leaf(pool, v)
                == (if v == vpn.0 {
                Some(0u64)
            } else {
                old(page_table).leaf(old(pool), v)
            }) by {
                assert(old(page_table).leaf(&pool1, v) == old(page_table).leaf(&pool0, v));
            }
        }
    }
}

/// The leaf entry of a page outside a range that was mapped: a page whose table
/// is new has an empty one. `t` holds the names of the tables that exist now.
pub open spec fn leaf_beside(old_leaf: Option<u64>, t: Set<(int, int)>, v: int) -> Option<u64> {
    if old_leaf is Some {
        old_leaf
    } else if t.contains((3, v / 512)) {
        Some(0u64)
    } else {
        None
    }
}

/// The frames of the pages from `s` to `e`.
pub open spec fn data_between(area: AreaView, s: int, e: int) -> Set<u64> {
    Set::new(
        |f: u64|
            exists|v: int|
                s <= v < e && area.data.dom().contains(v) && #[trigger] area.data[v] == f,
    )
}

/// The pages from `s` to `e` of the area were mapped.
pub open spec fn pages_mapped<M: PhysMemory>(
    area: AreaView,
    table: &PageTable,
    pool: &FramePool<M>,
    area0: AreaView,
    table0: &PageTable,
    pool0: &FramePool<M>,
    s: int,
    e: int,
) -> bool {
    &&& area.map_type == area0.map_type
    &&& area.perm == area0.perm
    &&& forall|v: int| #[trigger]
        area.data.dom().contains(v) <==> area0.data.dom().contains(v) || (area.framed() && s <= v
            < e)
    &&& forall|v: int| #[trigger]
        area0.data.dom().contains(v) ==> area.data[v] == area0.data[v]
    &&& area0.data_distinct() ==> area.data_distinct()
    &&& extended(table, pool, table0, pool0, data_between(area, s, e))
    &&& forall|v: int|
        area.framed() && s <= v < e ==> pool.frames()[#[trigger] area.data[v]] == cleared_frame()
    &&& pool.free_count() == pool0.free_count() - frames_needed(
        table0.present(pool0),
        s,
        e,
        area.per_page(),
    )
    &&& table.table_count() == table0.table_count() + frames_needed(
        table0.present(pool0),
        s,
        e,
        0,
    )
    &&& table.present(pool) == with_paths(table0.present(pool0), s, e)
    &&& forall|v: int|
        own_page(table0.slots(), v) ==> #[trigger] table.leaf(pool, v) == (if s <= v < e {
            Some(area.entry(v))
        } else {
            leaf_beside(table0.leaf(pool0, v), table.present(pool), v)
        })
}

/// What it takes to map the pages from `s` to `e` of the area.
pub open spec fn pages_mappable<M: PhysMemory>(
    area: AreaView,
    table: &PageTable,
    pool: &FramePool<M>,
    s: int,
    e: int,
) -> bool {
    &&& s <= e
    &&& s < e ==> own_page(table.slots(), s) && own_page(table.slots(), e - 1)
    &&& forall|v: int| s <= v < e ==> #[trigger] table.mapped(pool, v) is None
    &&& forall|v: int| s <= v < e ==> !#[trigger] area.data.dom().contains(v)
    &&& forall|v: int| s <= v < e ==> #[trigger] area.linear_ok(v)
    &&& forall|v: int| #[trigger] area.data.dom().contains(v) ==> pool.allocated(area.data[v])
    &&& pool.free_count() >= frames_needed(table.present(pool), s, e, area.per_page())
}

impl MapArea {
    /// Map the pages from `from` to `to`.
    fn map_pages<M: PhysMemory>(
        &mut self,
        page_table: &mut PageTable,
        pool: &mut FramePool<M>,
        from: VirtPageNum,
        to: VirtPageNum,
    )
        requires
            old(pool).wf(),
            old(page_table).wf(old(pool)),
            pages_mappable(old(self)@, old(page_table), old(pool), from.0 as int, to.0 as int),
        ensures
            final(pool).wf(),
            final(page_table).wf(final(pool)),
            final(self)@.start == old(self)@.start,
            final(self)@.end == old(self)@.end,
            pages_mapped(
                final(self)@,
                final(page_table),
                final(pool),
                old(self)@,
                old(page_table),
                old(pool),
                from.0 as int,
                to.0 as int,
            ),
    {
        let mut vpn: VirtPageNum = from;
        let ghost s = from.0 as int;
        let ghost e = to.0 as int;
        let ghost area0 = self@;
        let ghost table0 = *page_table;
        let ghost pool0 = *pool;
        let ghost slots = page_table.slots();
        proof {
            lemma_root_is_table(page_table, pool);
            assert(data_between(self@, s, s) =~= Set::empty());
            assert(page_table.table_frames().union(Set::empty())
                =~= page_table.table_frames().union(pool.free().difference(pool.free())));
            assert forall|v: int| own_page(slots, v) implies #[trigger] page_table.leaf(pool, v)
                == leaf_beside(table0.leaf(&pool0, v), page_table.present(pool), v) by {
                lemma_leaf_present(page_table, pool, v);
            }
        }
        while vpn.0 < to.0
            invariant
                s == from.0,
                e == to.0,
                s <= vpn.0 <= e,
                area0 == old(self)@,
                table0 == *old(page_table),
                pool0 == *old(pool),
                slots == table0.slots(),
                0 <= slots <= 512,
                pool.wf(),
                page_table.wf(pool),
                pages_mappable(area0, &table0, &pool0, s, e),
                self@.start == area0.start,
                self@.end == area0.end,
                self@.map_type == area0.map_type,
                self@.perm == area0.perm,
                forall|v: int| #[trigger]
                    self@.data.dom().contains(v) <==> area0.data.dom().contains(v) || (
                    area0.framed() && s <= v < vpn.0),
                forall|v: int| #[trigger]
                    area0.data.dom().contains(v) ==> self@.data[v] == area0.data[v],
                area0.data_distinct() ==> self@.data_distinct(),
                extended(page_table, pool, &table0, &pool0, data_between(self@, s, vpn.0 as int)),
                forall|v: int|
                    area0.framed() && s <= v < vpn.0 ==> pool.frames()[#[trigger] self@.data[v]]
                        == cleared_frame(),
                pool.free_count() - frames_needed(
                    page_table.present(pool),
                    vpn.0 as int,
                    e,
                    area0.per_page(),
                ) == pool0.free_count() - frames_needed(
                    table0.present(&pool0),
                    s,
                    e,
                    area0.per_page(),
                ),
                page_table.table_count() + frames_needed(
                    page_table.present(pool),
                    vpn.0 as int,
                    e,
                    0,
                ) == table0.table_count() + frames_needed(table0.present(&pool0), s, e, 0),
                with_paths(page_table.present(pool), vpn.0 as int, e) == with_paths(
                    table0.present(&pool0),
                    s,
                    e,
                ),
                forall|v: int|
                    own_page(slots, v) ==> #[trigger] page_table.leaf(pool, v) == (if s <= v
                        < vpn.0 {
                        Some(self@.entry(v))
                    } else {
                        leaf_beside(table0.leaf(&pool0, v), page_table.present(pool), v)
                    }),
            decreases e - vpn.0,
        {
            let ghost cur = vpn.0 as int;
            let ghost area1 = self@;
            let ghost table1 = *page_table;
            let ghost pool1 = *pool;
            let ghost d1 = data_between(self@, s, cur);
            proof {
                pte_word_valid(0, 0);
                assert(table0.mapped(&pool0, cur) is None);
                assert(page_table.leaf(pool, cur) == leaf_beside(
                    table0.leaf(&pool0, cur),
                    page_table.present(pool),
                    cur,
                ));
                assert(!area0.data.dom().contains(cur));
                assert(area0.linear_ok(cur));
            }
            self.map_one(page_table, pool, vpn);
            proof {
                let d2 = if area0.framed() {
                    set![self@.data[cur]]
                } else {
                    Set::empty()
                };
                lemma_extended_trans(page_table, pool, &table1, &pool1, &table0, &pool0, d1, d2);
                lemma_grow_data(area1, self@, s, cur);
                assert(data_between(self@, s, cur + 1) =~= d1.union(d2));
                assert forall|v: int| area0.data.dom().contains(v) implies #[trigger] self@.data[v]
                    != self@.data[cur] || !area0.framed() by {
                    if area0.framed() {
                        assert(pool0.allocated(area0.data[v]));
                        assert(pool1.free().contains(self@.data[cur]));
                        assert(pool0.free().contains(self@.data[cur]));
                    }
                }
                assert(area0.data_distinct() ==> self@.data_distinct()) by {
                    if area0.data_distinct() {
                        assert forall|v: int, w: int|
                            self@.data.dom().contains(v) && self@.data.dom().contains(w)
                                && #[trigger] self@.data[v] == #[trigger] self@.data[w] implies v
                            == w by {
                            lemma_new_frame_distinct(area0, area1, self@, s, cur, d1, v, w);
                        }
                    }
                }
                assert forall|v: int| area0.framed() && s <= v < cur + 1 implies pool.frames()[#[trigger] self@.data[v]]
                    == cleared_frame() by {
                    if v < cur {
                        assert(area1.data.dom().contains(v));
                        assert(self@.data[v] == area1.data[v]);
                        assert(d1.contains(area1.data[v]));
                    }
                }
                assert forall|v: int| own_page(slots, v) implies #[trigger] page_table.leaf(pool, v)
                    == (if s <= v < cur + 1 {
                    Some(self@.entry(v))
                } else {
                    leaf_beside(table0.leaf(&pool0, v), page_table.present(pool), v)
                }) by {
                    assert(table1.leaf(&pool1, v) == (if s <= v < cur {
                        Some(area1.entry(v))
                    } else {
                        leaf_beside(table0.leaf(&pool0, v), table1.present(&pool1), v)
                    }));
                    if s <= v < cur && area0.framed() {
                        assert(area1.data.dom().contains(v));
                    }
                }
            }
            vpn.step();
        }
    }
}

proof fn lemma_new_frame_distinct(
    area0: AreaView,
    area1: AreaView,
    area2: AreaView,
    s: int,
    cur: int,
    d1: Set<u64>,
    v: int,
    w: int,
)
    requires
        area1.data_distinct(),
        area2.data == if area0.framed() {
            area1.data.insert(cur, area2.data[cur])
        } else {
            area1.data
        },
        d1 == data_between(area1, s, cur),
        area0.framed() ==> !d1.contains(area2.data[cur]),
        forall|v: int|
            area0.data.dom().contains(v) ==> #[trigger] area2.data[v] != area2.data[cur]
                || !area0.framed(),
        forall|v: int| #[trigger]
            area1.data.dom().contains(v) <==> area0.data.dom().contains(v) || (area0.framed() && s
                <= v < cur),
        !area0.data.dom().contains(cur),
        area2.data.dom().contains(v),
        area2.data.dom().contains(w),
        area2.data[v] == area2.data[w],
    ensures
        v == w,
{
    if area0.framed() {
        if v != cur && w != cur {
            assert(area1.data[v] == area1.data[w]);
        } else if v != cur {
            assert(area1.data.dom().contains(v));
            if area0.data.dom().contains(v) {
                assert(area2.data[v] != area2.data[cur]);
            } else {
                assert(area1.data[v] == area2.data[v]);
                assert(d1.contains(area1.data[v]));
            }
        } else if w != cur {
            assert(area1.data.dom().contains(w));
            if area0.data.dom().contains(w) {
                assert(area2.data[w] != area2.data[cur]);
            } else {
                assert(area1.data[w] == area2.data[w]);
                assert(d1.contains(area1.data[w]));
            }
        }
    } else {
        assert(area1.data[v] == area1.data[w]);
    }
}

proof fn lemma_grow_data(area1: AreaView, area2: AreaView, s: int, cur: int)
    requires
        s <= cur,
        !area1.data.dom().contains(cur),
        area2.data == if area1.framed() {
            area1.data.insert(cur, area2.data[cur])
        } else {
            area1.data
        },
    ensures
        data_between(area2, s, cur + 1) == data_between(area1, s, cur).union(
            if area1.framed() {
                set![area2.data[cur]]
            } else {
                Set::empty()
            },
        ),
{
    let a = data_between(area2, s, cur + 1);
    let b = data_between(area1, s, cur).union(
        if area1.framed() {
            set![area2.data[cur]]
        } else {
            Set::empty()
        },
    );
    assert forall|f: u64| a.contains(f) == b.contains(f) by {
        if a.contains(f) {
            let v = choose|v: int|
                s <= v < cur + 1 && area2.data.dom().contains(v) && #[trigger] area2.data[v] == f;
            if v < cur {
                assert(area1.data.dom().contains(v) && area1.data[v] == f);
            }
        }
        if data_between(area1, s, cur).contains(f) {
            let v = choose|v: int|
                s <= v < cur && area1.data.dom().contains(v) && #[trigger] area1.data[v] == f;
            assert(area2.data.dom().contains(v) && area2.data[v] == f);
        }
        if area1.framed() && f == area2.data[cur] {
            assert(area2.data.dom().contains(cur));
        }
    }
    assert(a =~= b);
}

/// A page has a leaf entry exactly if its table of level 3 exists.
pub proof fn lemma_leaf_present<M: PhysMemory>(table: &PageTable, pool: &FramePool<M>, v: int)
    requires
        0 <= table.slots() <= 512,
        own_page(table.slots(), v),
    ensures
        table.leaf(pool, v) is Some <==> table.present(pool).contains((3, v / 512)),
{
    lemma_prefix(table.slots(), v, 3);
}

/// `pool` and `table` came from `pool0` and `table0` by taking out mappings:
/// nothing but the tables was written.
pub open spec fn shrunk<M: PhysMemory>(
    table: &PageTable,
    pool: &FramePool<M>,
    table0: &PageTable,
    pool0: &FramePool<M>,
) -> bool {
    &&& table.root() == table0.root()
    &&& table.slots() == table0.slots()
    &&& table.table_frames() == table0.table_frames()
    &&& table.table_count() == table0.table_count()
    &&& table.present(pool) == table0.present(pool0)
    &&& pool.same_extent(pool0)
    &&& forall|f: u64|
        !table0.table_frames().contains(f) ==> #[trigger] pool.frames()[f] == pool0.frames()[f]
    &&& root_kept(pool.frames(), pool0.frames(), table0.root(), table0.slots())
}

/// A page table is not affected by changes to frames that are not its own.
pub proof fn lemma_table_kept<M: PhysMemory>(
    table: &PageTable,
    pool0: &FramePool<M>,
    pool: &FramePool<M>,
)
    requires
        table.wf(pool0),
        pool.same_extent(pool0),
        forall|f: u64| #[trigger]
            table.table_frames().contains(f) ==> pool.frames()[f] == pool0.frames()[f],
        forall|f: u64| #[trigger] table.table_frames().contains(f) ==> !pool.free().contains(f),
    ensures
        table.wf(pool),
        table.present(pool) == table.present(pool0),
        forall|v: int|
            own_page(table.slots(), v) ==> #[trigger] table.leaf(pool, v) == table.leaf(pool0, v),
{
    lemma_tree_same(
        pool0.frames(),
        pool.frames(),
        table.root(),
        table.slots(),
        table.table_frames(),
    );
    assert forall|f: u64| #[trigger] table.table_frames().contains(f) implies pool.allocated(f) by {
        assert(pool0.allocated(f));
        lemma_managed_by_extent(pool, pool0, f);
        assert(!pool.free().contains(f));
    }
    assert forall|v: int| own_page(table.slots(), v) implies #[trigger] table.leaf(pool, v)
        == table.leaf(pool0, v) by {
        assert(leaf(pool.frames(), table.root(), v) == leaf(pool0.frames(), table.root(), v));
    }
}

/// What it takes to take out the pages from `s` to `e` of the area.
pub open spec fn pages_unmappable<M: PhysMemory>(
    area: AreaView,
    table: &PageTable,
    pool: &FramePool<M>,
    s: int,
    e: int,
) -> bool {
    &&& s <= e
    &&& s < e ==> own_page(table.slots(), s) && own_page(table.slots(), e - 1)
    &&& forall|v: int| s <= v < e ==> #[trigger] table.mapped(pool, v) is Some
    &&& forall|v: int|
        area.framed() && s <= v < e ==> {
            &&& #[trigger] area.data.dom().contains(v)
            &&& pool.allocated(area.data[v])
            &&& !table.table_frames().contains(area.data[v])
        }
    &&& area.data_distinct()
}

/// The pages from `s` to `e` of the area were taken out.
pub open spec fn pages_unmapped<M: PhysMemory>(
    area: AreaView,
    table: &PageTable,
    pool: &FramePool<M>,
    area0: AreaView,
    table0: &PageTable,
    pool0: &FramePool<M>,
    s: int,
    e: int,
) -> bool {
    &&& area.map_type == area0.map_type
    &&& area.perm == area0.perm
    &&& forall|v: int| #[trigger]
        area.data.dom().contains(v) <==> area0.data.dom().contains(v) && !(area.framed() && s <= v
            < e)
    &&& forall|v: int| #[trigger] area.data.dom().contains(v) ==> area.data[v] == area0.data[v]
    &&& shrunk(table, pool, table0, pool0)
    &&& pool.free() == pool0.free().union(
        if area0.framed() {
            data_between(area0, s, e)
        } else {
            Set::empty()
        },
    )
    &&& pool.free_count() == pool0.free_count() + (if area0.framed() {
        e - s
    } else {
        0
    })
    &&& table.stale() == table0.stale() + page_addresses(s, e)
    &&& forall|v: int|
        own_page(table0.slots(), v) ==> #[trigger] table.leaf(pool, v) == (if s <= v < e {
            Some(0u64)
        } else {
            table0.leaf(pool0, v)
        })
}

impl MapArea {
    /// Take out the mappings of the pages from `from` to `to`.
    fn unmap_pages<M: PhysMemory>(
        &mut self,
        page_table: &mut PageTable,
        pool: &mut FramePool<M>,
        from: VirtPageNum,
        to: VirtPageNum,
    )
        requires
            old(pool).wf(),
            old(page_table).wf(old(pool)),
            pages_unmappable(old(self)@, old(page_table), old(pool), from.0 as int, to.0 as int),
        ensures
            final(pool).wf(),
            final(page_table).wf(final(pool)),
            final(self)@.start == old(self)@.start,
            final(self)@.end == old(self)@.end,
            pages_unmapped(
                final(self)@,
                final(page_table),
                final(pool),
                old(self)@,
                old(page_table),
                old(pool),
                from.0 as int,
                to.0 as int,
            ),
    {
        let mut vpn: VirtPageNum = from;
        let ghost s = from.0 as int;
        let ghost e = to.0 as int;
        let ghost area0 = self@;
        let ghost table0 = *page_table;
        let ghost pool0 = *pool;
        let ghost slots = page_table.slots();
        proof {
            lemma_root_is_table(page_table, pool);
            assert(data_between(area0, s, s) =~= Set::empty());
            assert(pool.free() =~= pool.free().union(Set::empty()));
            assert(page_table.stale() =~= page_table.stale() + page_addresses(s, s));
        }
        while vpn.0 < to.0
            invariant
                s == from.0,
                e == to.0,
                s <= vpn.0 <= e,
                area0 == old(self)@,
                table0 == *old(page_table),
                pool0 == *old(pool),
                slots == table0.slots(),
                0 <= slots <= 512,
                pool.wf(),
                page_table.wf(pool),
                pages_unmappable(area0, &table0, &pool0, s, e),
                self@.start == area0.start,
                self@.end == area0.end,
                pages_unmapped(self@, page_table, pool, area0, &table0, &pool0, s, vpn.0 as int),
            decreases e - vpn.0,
        {
            let ghost cur = vpn.0 as int;
            let ghost area1 = self@;
            let ghost table1 = *page_table;
            let ghost pool1 = *pool;
            proof {
                assert(table0.mapped(&pool0, cur) is Some);
                assert(page_table.leaf(pool, cur) == table0.leaf(&pool0, cur));
                if area0.framed() {
                    assert(area0.data.dom().contains(cur));
                    assert(area1.data.dom().contains(cur));
                    assert(area1.data[cur] == area0.data[cur]);
                    let f = area0.data[cur];
                    lemma_managed_by_extent(pool, &pool0, f);
                    assert(!pool0.free().contains(f));
                    assert(!data_between(area0, s, cur).contains(f));
                    assert(!pool.free().contains(f));
                }
            }
            self.unmap_one(page_table, pool, vpn);
            proof {
                if area0.framed() {
                    lemma_more_data(area0, s, cur);
                    assert(pool.free() =~= pool0.free().union(data_between(area0, s, cur + 1)));
                } else {
                    assert(pool.free() =~= pool0.free().union(Set::empty()));
                }
                assert(page_table.stale() =~= table0.stale() + page_addresses(s, cur + 1));
                assert forall|v: int| own_page(slots, v) implies #[trigger] page_table.leaf(pool, v)
                    == (if s <= v < cur + 1 {
                    Some(0u64)
                } else {
                    table0.leaf(&pool0, v)
                }) by {
                    assert(table1.leaf(&pool1, v) == (if s <= v < cur {
                        Some(0u64)
                    } else {
                        table0.leaf(&pool0, v)
                    }));
                }
                assert forall|f: u64|
                    !table0.table_frames().contains(f) implies #[trigger] pool.frames()[f]
                    == pool0.frames()[f] by {
                    assert(pool1.frames()[f] == pool0.frames()[f]);
                }
                assert forall|i: int|
                    0 <= i < 512 && (i >= table0.slots() || pte_valid(
                        pool0.frames()[table0.root()][i],
                    )) implies #[trigger] pool.frames()[table0.root()][i]
                    == pool0.frames()[table0.root()][i] by {
                    assert(pool1.frames()[table0.root()][i] == pool0.frames()[table0.root()][i]);
                }
            }
            vpn.step();
        }
    }

    /// Map all pages of the area.
    pub fn map<M: PhysMemory>(&mut self, page_table: &mut PageTable, pool: &mut FramePool<M>)
        requires
            old(pool).wf(),
            old(page_table).wf(old(pool)),
            pages_mappable(
                old(self)@,
                old(page_table),
                old(pool),
                old(self)@.start,
                old(self)@.end,
            ),
        ensures
            final(pool).wf(),
            final(page_table).wf(final(pool)),
            final(self)@.start == old(self)@.start,
            final(self)@.end == old(self)@.end,
            pages_mapped(
                final(self)@,
                final(page_table),
                final(pool),
                old(self)@,
                old(page_table),
                old(pool),
                old(self)@.start,
                old(self)@.end,
            ),
    {
        let start: VirtPageNum = self.vpn_range.get_start();
        let end: VirtPageNum = self.vpn_range.get_end();
        self.map_pages(page_table, pool, start, end);
    }

    /// Take out all pages of the area.
    pub fn unmap<M: PhysMemory>(&mut self, page_table: &mut PageTable, pool: &mut FramePool<M>)
        requires
            old(pool).wf(),
            old(page_table).wf(old(pool)),
            pages_unmappable(
                old(self)@,
                old(page_table),
                old(pool),
                old(self)@.start,
                old(self)@.end,
            ),
        ensures
            final(pool).wf(),
            final(page_table).wf(final(pool)),
            final(self)@.start == old(self)@.start,
            final(self)@.end == old(self)@.end,
            pages_unmapped(
                final(self)@,
                final(page_table),
                final(pool),
                old(self)@,
                old(page_table),
                old(pool),
                old(self)@.start,
                old(self)@.end,
            ),
    {
        let start: VirtPageNum = self.vpn_range.get_start();
        let end: VirtPageNum = self.vpn_range.get_end();
        self.unmap_pages(page_table, pool, start, end);
    }

    /// Let the area end at `new_end`, which is inside it.
    pub fn shrink_to<M: PhysMemory>(
        &mut self,
        page_table: &mut PageTable,
        pool: &mut FramePool<M>,
        new_end: VirtPageNum,
    )
        requires
            old(pool).wf(),
            old(page_table).wf(old(pool)),
            old(self)@.start <= new_end.0,
            pages_unmappable(
                old(self)@,
                old(page_table),
                old(pool),
                new_end.0 as int,
                old(self)@.end,
            ),
        ensures
            final(pool).wf(),
            final(page_table).wf(final(pool)),
            final(self)@.start == old(self)@.start,
            final(self)@.end == new_end.0,
            pages_unmapped(
                final(self)@,
                final(page_table),
                final(pool),
                old(self)@,
                old(page_table),
                old(pool),
                new_end.0 as int,
                old(self)@.end,
            ),
    {
        let start: VirtPageNum = self.vpn_range.get_start();
        let end: VirtPageNum = self.vpn_range.get_end();
        self.unmap_pages(page_table, pool, new_end, end);
        let ghost area1 = self@;
        self.vpn_range = VPNRange::new(start, new_end);
        assert(self@.data =~= area1.data);
        assert(forall|v: int| self@.entry(v) == area1.entry(v));
    }

    /// Let the area end at `new_end`, which is not before its end.
    pub fn append_to<M: PhysMemory>(
        &mut self,
        page_table: &mut PageTable,
        pool: &mut FramePool<M>,
        new_end: VirtPageNum,
    )
        requires
            old(pool).wf(),
            old(page_table).wf(old(pool)),
            old(self)@.start <= old(self)@.end,
            pages_mappable(
                old(self)@,
                old(page_table),
                old(pool),
                old(self)@.end,
                new_end.0 as int,
            ),
        ensures
            final(pool).wf(),
            final(page_table).wf(final(pool)),
            final(self)@.start == old(self)@.start,
            final(self)@.end == new_end.0,
            pages_mapped(
                final(self)@,
                final(page_table),
                final(pool),
                old(self)@,
                old(page_table),
                old(pool),
                old(self)@.end,
                new_end.0 as int,
            ),
    {
        let start: VirtPageNum = self.vpn_range.get_start();
        let end: VirtPageNum = self.vpn_range.get_end();
        self.map_pages(page_table, pool, end, new_end);
        let ghost area1 = self@;
        self.vpn_range = VPNRange::new(start, new_end);
        proof {
            assert(self@.data =~= area1.data);
            assert forall|v: int| self@.entry(v) == area1.entry(v) by {}
            assert(data_between(self@, old(self)@.end, new_end.0 as int) =~= data_between(
                area1,
                old(self)@.end,
                new_end.0 as int,
            ));
        }
    }
}

proof fn lemma_more_data(area: AreaView, s: int, cur: int)
    requires
        s <= cur,
        area.data.dom().contains(cur),
    ensures
        data_between(area, s, cur + 1) == data_between(area, s, cur).insert(area.data[cur]),
{
    let a = data_between(area, s, cur + 1);
    let b = data_between(area, s, cur).insert(area.data[cur]);
    assert forall|f: u64| a.contains(f) == b.contains(f) by {
        if a.contains(f) {
            let v = choose|v: int|
                s <= v < cur + 1 && area.data.dom().contains(v) && #[trigger] area.data[v] == f;
        }
        if data_between(area, s, cur).contains(f) {
            let v = choose|v: int|
                s <= v < cur && area.data.dom().contains(v) && #[trigger] area.data[v] == f;
            assert(area.data[v] == f);
        }
    }
    assert(a =~= b);
}

/// Byte `k` of what an area is filled with: the data, then zeros.
pub open spec fn initial_byte(data: Option<Seq<u8>>, k: int) -> u8 {
    match data {
        Some(bytes) => if 0 <= k < bytes.len() {
            bytes[k]
        } else {
            0
        },
        None => 0,
    }
}

impl MapArea {
    /// Copy `data` to the pages of the area, from the start of the first page
    /// on. It may be shorter than the area.
    pub fn copy_data<M: PhysMemory>(
        &self,
        page_table: &PageTable,
        pool: &mut FramePool<M>,
        data: &[u8],
    )
        requires
            old(pool).wf(),
            page_table.wf(old(pool)),
            self@.framed(),
            self@.wf(),
            self@.start < self@.end ==> own_page(page_table.slots(), self@.end - 1),
            self@.start >= self@.end ==> own_page(page_table.slots(), self@.start)
                && page_table.leaf(old(pool), self@.start) is Some,
            data@.len() <= (self@.end - self@.start) * 0x1000,
            forall|v: int|
                #[trigger] self@.contains(v) ==> {
                    &&& page_table.leaf(old(pool), v) == Some(self@.entry(v))
                    &&& old(pool).frames().dom().contains(self@.data[v])
                    &&& !page_table.table_frames().contains(self@.data[v])
                },
        ensures
            final(pool).wf(),
            page_table.wf(final(pool)),
            final(pool).allocator@ == old(pool).allocator@,
            final(pool).frames().dom() == old(pool).frames().dom(),
            forall|f: u64|
                !self@.data_set().contains(f) ==> #[trigger] final(pool).frames()[f]
                    == old(pool).frames()[f],
            forall|v: int, j: int|
                self@.contains(v) && 0 <= j < 0x1000 ==> #[trigger] frame_byte(
                    final(pool).frames()[self@.data[v]],
                    j,
                ) == (if (v - self@.start) * 0x1000 + j < data@.len() {
                    data@[(v - self@.start) * 0x1000 + j]
                } else {
                    frame_byte(old(pool).frames()[self@.data[v]], j)
                }),
    {
        let mut start: usize = 0;
        let mut current_vpn: VirtPageNum = self.vpn_range.get_start();
        let len: usize = data.len();
        let mut done: bool = false;
        let ghost area = self@;
        let ghost mem0 = pool.frames();
        let ghost pool0 = *pool;
        if len == 0 {
            proof {
                if area.start < area.end {
                    assert(area.contains(area.start));
                }
                lemma_own_walkable(
                    pool.frames(),
                    page_table.root(),
                    page_table.slots(),
                    page_table.table_frames(),
                    area.start,
                );
            }
            let _ = page_table.translate(&pool.mem, current_vpn).unwrap();
            return;
        }
        while !done
            invariant
                area == self@,
                area.framed(),
                area.wf(),
                area.start < area.end,
                own_page(page_table.slots(), area.end - 1),
                len == data@.len(),
                len <= (area.end - area.start) * 0x1000,
                pool0 == *old(pool),
                mem0 == pool0.frames(),
                pool0.wf(),
                page_table.wf(&pool0),
                pool.allocator == pool0.allocator,
                pool.frames().dom() == mem0.dom(),
                area.start <= current_vpn.0 < area.end,
                start == (current_vpn.0 - area.start) * 0x1000,
                start > 0 ==> start < len,
                done ==> start + 0x1000 >= len,
                forall|v: int|
                    #[trigger] area.contains(v) ==> {
                        &&& page_table.leaf(&pool0, v) == Some(area.entry(v))
                        &&& mem0.dom().contains(area.data[v])
                        &&& !page_table.table_frames().contains(area.data[v])
                    },
                forall|f: u64|
                    !area.data_set().contains(f) ==> #[trigger] pool.frames()[f] == mem0[f],
                forall|v: int, j: int|
                    area.contains(v) && 0 <= j < 0x1000 ==> #[trigger] frame_byte(
                        pool.frames()[area.data[v]],
                        j,
                    ) == (if (v - area.start) * 0x1000 + j < data@.len() && (v < current_vpn.0
                        || done) {
                        data@[(v - area.start) * 0x1000 + j]
                    } else {
                        frame_byte(mem0[area.data[v]], j)
                    }),
            decreases
                (area.end - current_vpn.0) + (if done {
                    0int
                } else {
                    1
                }),
        {
            let ghost cur = current_vpn.0 as int;
            let n: usize = if len - start < 0x1000 {
                len - start
            } else {
                0x1000
            };
            proof {
                assert(area.contains(cur));
                assert forall|f: u64| #[trigger]
                    page_table.table_frames().contains(f) implies pool.frames()[f] == mem0[f] by {
                    if area.data_set().contains(f) {
                        let v = choose|v: int|
                            area.data.dom().contains(v) && #[trigger] area.data[v] == f;
                        assert(area.contains(v));
                    }
                }
                lemma_table_kept_mem(page_table, &pool0, pool);
                assert(page_table.leaf(pool, cur) == page_table.leaf(&pool0, cur));
                lemma_own_walkable(
                    pool.frames(),
                    page_table.root(),
                    page_table.slots(),
                    page_table.table_frames(),
                    cur,
                );
                pool.mem.frames_wf();
                lemma_perm_flags(area.perm);
                pte_reads_back(area.data[cur], perm_flags(area.perm));
            }
            let ppn: PhysPageNum = page_table.translate(&pool.mem, current_vpn).unwrap().ppn();
            assert(ppn.0 == area.data[cur]);
            let ghost mem1 = pool.frames();
            let mut j: usize = 0;
            while j < n
                invariant
                    j <= n <= 0x1000,
                    start + n <= len,
                    len == data@.len(),
                    pool.frames().dom().contains(ppn.0),
                    pool.frames().dom() == mem1.dom(),
                    pool.allocator == pool0.allocator,
                    forall|f: u64| f != ppn.0 ==> #[trigger] pool.frames()[f] == mem1[f],
                    forall|k: int|
                        0 <= k < 0x1000 ==> #[trigger] frame_byte(pool.frames()[ppn.0], k) == (if k
                            < j {
                            data@[start + k]
                        } else {
                            frame_byte(mem1[ppn.0], k)
                        }),
                decreases n - j,
            {
                write_byte(&mut pool.mem, ppn.0, j, data[start + j]);
                j = j + 1;
            }
            proof {
                assert(area.data_set().contains(ppn.0)) by {
                    assert(area.data.dom().contains(cur) && area.data[cur] == ppn.0);
                }
                assert forall|v: int, k: int| area.contains(v) && 0 <= k < 0x1000 implies #[trigger] frame_byte(
                    pool.frames()[area.data[v]],
                    k,
                ) == (if (v - area.start) * 0x1000 + k < data@.len() && v <= cur {
                    data@[(v - area.start) * 0x1000 + k]
                } else {
                    frame_byte(mem0[area.data[v]], k)
                }) by {
                    if v != cur {
                        assert(area.data[v] != area.data[cur]) by {
                            assert(area.data.dom().contains(v) && area.data.dom().contains(cur));
                        }
                        assert(frame_byte(mem1[area.data[v]], k) == frame_byte(
                            mem1[area.data[v]],
                            k,
                        ));
                    } else {
                        assert(frame_byte(mem1[area.data[v]], k) == frame_byte(
                            mem0[area.data[v]],
                            k,
                        ));
                    }
                }
            }
            if len - start <= 0x1000 {
                done = true;
            } else {
                start = start + 0x1000;
                current_vpn.step();
            }
        }
        proof {
            assert forall|f: u64| #[trigger]
                page_table.table_frames().contains(f) implies pool.frames()[f] == mem0[f] by {
                if area.data_set().contains(f) {
                    let v = choose|v: int|
                        area.data.dom().contains(v) && #[trigger] area.data[v] == f;
                    assert(area.contains(v));
                }
            }
            lemma_table_kept_mem(page_table, &pool0, pool);
        }
    }
}

/// A page table is not affected by writes to frames that are not its own.
pub proof fn lemma_table_kept_mem<M: PhysMemory>(
    table: &PageTable,
    pool0: &FramePool<M>,
    pool: &FramePool<M>,
)
    requires
        table.wf(pool0),
        pool0.wf(),
        pool.allocator@ == pool0.allocator@,
        pool.frames().dom() == pool0.frames().dom(),
        forall|f: u64| #[trigger]
            table.table_frames().contains(f) ==> pool.frames()[f] == pool0.frames()[f],
    ensures
        pool.wf(),
        pool.same_extent(pool0),
        table.wf(pool),
        table.present(pool) == table.present(pool0),
        forall|v: int|
            own_page(table.slots(), v) ==> #[trigger] table.leaf(pool, v) == table.leaf(pool0, v),
{
    assert forall|f: u64| #[trigger] table.table_frames().contains(f) implies !pool.free().contains(
        f,
    ) by {
        assert(pool0.allocated(f));
    }
    lemma_table_kept(table, pool0, pool);
}

impl MapArea {
    /// Give back the frames of all pages.
    pub fn release_frames<M: PhysMemory>(&self, pool: &mut FramePool<M>)
        requires
            old(pool).wf(),
            self@.wf(),
            forall|f: u64| #[trigger] self@.data_set().contains(f) ==> old(pool).allocated(f),
        ensures
            final(pool).wf(),
            final(pool).same_extent(old(pool)),
            final(pool).frames() == old(pool).frames(),
            final(pool).free() == old(pool).free().union(self@.data_set()),
            final(pool).free_count() == old(pool).free_count() + (if self@.framed() {
                self@.end - self@.start
            } else {
                0
            }),
    {
        let end: VirtPageNum = self.vpn_range.get_end();
        let mut vpn: VirtPageNum = self.vpn_range.get_start();
        let ghost area = self@;
        let ghost pool0 = *pool;
        proof {
            assert(data_between(area, area.start, area.start) =~= Set::empty());
            assert(pool.free() =~= pool.free().union(Set::empty()));
        }
        while vpn.0 < end.0
            invariant
                area == self@,
                area.wf(),
                end.0 == area.end,
                area.start <= vpn.0 <= area.end,
                pool0 == *old(pool),
                pool.wf(),
                pool.same_extent(&pool0),
                pool.frames() == pool0.frames(),
                forall|f: u64| #[trigger] area.data_set().contains(f) ==> pool0.allocated(f),
                pool.free() == pool0.free().union(data_between(area, area.start, vpn.0 as int)),
                pool.free_count() == pool0.free_count() + (if area.framed() {
                    vpn.0 - area.start
                } else {
                    0
                }),
            decreases end.0 - vpn.0,
        {
            let ghost cur = vpn.0 as int;
            proof {
                assert(area.data.dom().contains(cur) == area.framed());
            }
            match self.data_frames.get(&vpn.0) {
                Some(frame) => {
                    proof {
                        let f = area.data[cur];
                        assert(frame.ppn.0 == f);
                        assert(area.data_set().contains(f));
                        assert(pool0.allocated(f));
                        lemma_managed_by_extent(pool, &pool0, f);
                        assert(!pool0.free().contains(f));
                        assert(!data_between(area, area.start, cur).contains(f));
                        assert(!pool.free().contains(f));
                        lemma_more_data(area, area.start, cur);
                    }
                    frame_dealloc(pool, frame.ppn);
                    assert(pool.free() =~= pool0.free().union(
                        data_between(area, area.start, cur + 1),
                    ));
                },
                None => {
                    assert(data_between(area, area.start, cur + 1) =~= data_between(
                        area,
                        area.start,
                        cur,
                    ));
                },
            }
            vpn.step();
        }
        proof {
            assert(area.data_set() =~= data_between(area, area.start, area.end)) by {
                assert forall|f: u64| area.data_set().contains(f) implies data_between(
                    area,
                    area.start,
                    area.end,
                ).contains(f) by {
                    let v = choose|v: int|
                        area.data.dom().contains(v) && #[trigger] area.data[v] == f;
                    assert(area.data[v] == f);
                }
            }
        }
    }
}

} // verus!
