//! Address spaces.
//!
//! - The kernel's high half is mapped by tables that every address space
//!   shares: kernel code, data and stacks stay reachable whichever address
//!   space is active, so a trap never has to switch it.
//! - The physmap shows all physical memory at a fixed offset and is shared the
//!   same way.
//! - The low half belongs to the user program.
use vstd::prelude::*;
use vstd::slice::slice_subrange;
use crate::config::{KERNEL_BASE, LAPIC_BASE, MEMORY_END, PAGE_SIZE, USER_STACK_SIZE};
use super::address::{
    PhysAddr, PhysPageNum, VirtAddr, VirtPageNum, PPN_LIMIT, VA_LIMIT, VPN_LIMIT,
};
use super::budget::spend_in;
use super::elf::{
    anchored, elf_entry, elf_header, elf_ph_count, elf_segment, image_segments, image_stack_bottom,
    load_segment, load_segments, loadable, segment_areas, segment_at, segments_apart, stack_segment,
    Segment, SegmentHeader,
};
use super::frame_allocator::{free_frames_are_managed, FramePool};
use super::map_area::{
    data_between, extended, initial_byte, leaf_beside, lemma_perm_flags, lemma_table_kept,
    lemma_table_kept_mem, page_addresses, pages_mappable, pages_mapped, pages_unmappable,
    perm_flags, shrunk, AreaView, MapArea, MapPermission, MapType, MAP_R, MAP_U, MAP_W, MAP_X,
};
use super::page_table::{
    lemma_managed_by_extent, lemma_root_is_table, pte_ppn, pte_reads_back, pte_valid,
    pte_word_valid, translated, PageTable, PageTableEntry,
};
use super::phys::{cleared_frame, cleared_frame_bytes, copy_frame, frame_byte, PhysMemory};
use super::rights::{areas_grant_their_permissions, grants};
use super::table_tree::{
    frames_needed, leaf, lemma_own_walkable, own_page, walkable, with_path, with_paths,
};

verus! {

/// An area without its frames.
pub open spec fn config(area: AreaView) -> AreaView {
    AreaView { data: Map::empty(), ..area }
}

/// The areas without their frames.
pub open spec fn configs(areas: Seq<AreaView>) -> Seq<AreaView> {
    Seq::new(areas.len(), |i: int| config(areas[i]))
}

/// Every area is complete and lies in the tables' own part of the address
/// space, and no two areas share a page.
pub open spec fn areas_wf(areas: Seq<AreaView>, slots: int) -> bool {
    &&& forall|i: int|
        0 <= i < areas.len() ==> (#[trigger] areas[i]).wf() && areas[i].end <= slots * 0x800_0000
    &&& forall|i: int, j: int, v: int|
        0 <= i < areas.len() && 0 <= j < areas.len() && #[trigger] areas[i].contains(v)
            && #[trigger] areas[j].contains(v) ==> i == j
}

/// The frames of all areas.
pub open spec fn areas_data(areas: Seq<AreaView>) -> Set<u64> {
    Set::new(
        |f: u64| exists|i: int| 0 <= i < areas.len() && (#[trigger] areas[i]).data_set().contains(f),
    )
}

/// No two areas share a frame.
pub open spec fn areas_apart(areas: Seq<AreaView>) -> bool {
    forall|i: int, j: int, f: u64|
        0 <= i < areas.len() && 0 <= j < areas.len() && #[trigger] areas[i].data_set().contains(f)
            && #[trigger] areas[j].data_set().contains(f) ==> i == j
}

/// The names of the tables that exist once the first `n` areas are mapped.
pub open spec fn areas_paths(t: Set<(int, int)>, areas: Seq<AreaView>, n: int) -> Set<(int, int)>
    decreases n,
{
    if n <= 0 {
        t
    } else {
        with_paths(areas_paths(t, areas, n - 1), areas[n - 1].start, areas[n - 1].end)
    }
}

/// How many frames it takes to map the first `n` areas.
pub open spec fn areas_needed(t: Set<(int, int)>, areas: Seq<AreaView>, n: int) -> nat
    decreases n,
{
    if n <= 0 {
        0
    } else {
        areas_needed(t, areas, n - 1) + frames_needed(
            areas_paths(t, areas, n - 1),
            areas[n - 1].start,
            areas[n - 1].end,
            areas[n - 1].per_page(),
        )
    }
}

/// The number of frames of the first `n` areas.
pub open spec fn data_count(areas: Seq<AreaView>, n: int) -> nat
    decreases n,
{
    if n <= 0 {
        0
    } else {
        data_count(areas, n - 1) + (if areas[n - 1].framed() {
            (areas[n - 1].end - areas[n - 1].start) as nat
        } else {
            0
        })
    }
}

/// The index of the first area from `i` on that starts at page `start`, or the
/// number of areas if there is none.
pub open spec fn area_index(areas: Seq<AreaView>, start: int, i: int) -> int
    decreases areas.len() - i,
{
    if i >= areas.len() {
        areas.len() as int
    } else if areas[i].start == start {
        i
    } else {
        area_index(areas, start, i + 1)
    }
}

/// An address space: a page table and the areas it maps.
pub struct MemorySet {
    page_table: PageTable,
    areas: Vec<MapArea>,
}

impl MemorySet {
    /// The page table.
    pub closed spec fn table(&self) -> PageTable {
        self.page_table
    }

    /// The areas.
    pub closed spec fn areas(&self) -> Seq<AreaView> {
        Seq::new(self.areas@.len(), |i: int| self.areas@[i]@)
    }

    /// The pages of each area: the first one and the one after the last.
    pub fn area_pages(&self) -> (r: Vec<(u64, u64)>)
        ensures
            r@.len() == self.areas().len(),
            forall|i: int|
                0 <= i < r@.len() ==> (#[trigger] r@[i]).0 == self.areas()[i].start && r@[i].1
                    == self.areas()[i].end,
    {
        let mut r: Vec<(u64, u64)> = Vec::new();
        let mut i: usize = 0;
        while i < self.areas.len()
            invariant
                i <= self.areas@.len(),
                r@.len() == i,
                forall|j: int|
                    0 <= j < i ==> (#[trigger] r@[j]).0 == self.areas()[j].start && r@[j].1
                        == self.areas()[j].end,
            decreases self.areas@.len() - i,
        {
            r.push((self.areas[i].start().0, self.areas[i].end().0));
            i = i + 1;
        }
        r
    }

    /// The frame of the root table.
    pub open spec fn root(&self) -> u64 {
        self.table().root()
    }

    /// The frames of the tables and of the areas.
    pub open spec fn owned(&self) -> Set<u64> {
        self.table().table_frames().union(areas_data(self.areas()))
    }

    /// How many frames the tables and the areas have.
    pub open spec fn owned_count(&self) -> nat {
        self.table().table_count() + data_count(self.areas(), self.areas().len() as int)
    }

    /// The page table and the areas are sound and agree: every page of an area
    /// is mapped as the area says, and every frame belongs to one owner.
    pub open spec fn wf<M: PhysMemory>(&self, pool: &FramePool<M>) -> bool {
        &&& self.table().wf(pool)
        &&& areas_wf(self.areas(), self.table().slots())
        &&& areas_apart(self.areas())
        &&& forall|i: int, v: int|
            0 <= i < self.areas().len() && #[trigger] self.areas()[i].contains(v)
                ==> self.table().leaf(pool, v) == Some(self.areas()[i].entry(v))
        &&& forall|i: int, f: u64|
            0 <= i < self.areas().len() && #[trigger] self.areas()[i].data_set().contains(f)
                ==> pool.allocated(f) && !self.table().table_frames().contains(f)
    }

    /// Only pages of areas are mapped.
    pub open spec fn exact<M: PhysMemory>(&self, pool: &FramePool<M>) -> bool {
        forall|v: int|
            own_page(self.table().slots(), v) && (#[trigger] self.table().mapped(pool, v)) is Some
                ==> exists|i: int| 0 <= i < self.areas().len() && #[trigger] self.areas()[i].contains(v)
    }

    /// An address space with an empty page table and no areas.
    pub fn new_bare<M: PhysMemory>(pool: &mut FramePool<M>) -> (r: Self)
        requires
            old(pool).wf(),
            old(pool).free_count() >= 1,
        ensures
            final(pool).wf(),
            r.wf(final(pool)),
            r.exact(final(pool)),
            r.areas() == Seq::<AreaView>::empty(),
            r.table().slots() == 512,
            r.table().stale() == Seq::<u64>::empty(),
            r.table().table_count() == 1,
            r.table().present(final(pool)) == set![(0int, 0int)],
            final(pool).same_extent(old(pool)),
            old(pool).free().contains(r.root()),
            r.table().table_frames() == set![r.root()],
            final(pool).free() == old(pool).free().remove(r.root()),
            final(pool).free_count() == old(pool).free_count() - 1,
            forall|f: u64|
                f != r.root() ==> #[trigger] final(pool).frames()[f] == old(pool).frames()[f],
    {
        let r = Self { page_table: PageTable::new(pool), areas: Vec::new() };
        proof {
            assert(r.areas() =~= Seq::<AreaView>::empty());
            assert forall|v: int| own_page(512, v) implies #[trigger] r.table().mapped(
                pool,
                v,
            ) is None by {
                assert(r.table().leaf(pool, v) is None);
            }
        }
        r
    }

    /// Take from `left` frames those that it takes to map the pages from `s` to `e`, each
    /// with `per_page` frames of its own. Returns how many are left, if they suffice and
    /// none of the pages is mapped.
    pub fn spend<M: PhysMemory>(
        &self,
        pool: &FramePool<M>,
        s: u64,
        e: u64,
        per_page: u64,
        left: u128,
    ) -> (r: Option<u128>)
        requires
            self.table().wf(pool),
            per_page <= 1,
            s < e ==> e <= self.table().slots() * 0x800_0000,
        ensures
            ({
                let unmapped = forall|v: int|
                    s <= v < e ==> #[trigger] self.table().mapped(pool, v) is None;
                let needed = frames_needed(
                    self.table().present(pool),
                    s as int,
                    e as int,
                    per_page as nat,
                );
                match r {
                    Some(rest) => unmapped && rest + needed == left,
                    None => !unmapped || needed > left,
                }
            }),
    {
        spend_in(&self.page_table, pool, s, e, per_page, left)
    }

    /// The value to load into CR3 to make this address space the active one.
    pub fn token(&self) -> (r: u64)
        requires
            self.root() < PPN_LIMIT,
        ensures
            r == self.root() * 0x1000,
    {
        self.page_table.token()
    }

    /// The value to load into CR3 to make this address space the active one,
    /// which flushes the whole TLB.
    pub fn activate(&self) -> (r: u64)
        requires
            self.root() < PPN_LIMIT,
        ensures
            r == self.root() * 0x1000,
    {
        self.page_table.token()
    }

    /// The frame of the root table.
    pub fn root_ppn(&self) -> (r: PhysPageNum)
        ensures
            r.0 == self.root(),
    {
        self.page_table.root_ppn()
    }

    /// Take the list of the addresses whose TLB entries are to be invalidated.
    pub fn take_stale(&mut self) -> (r: Vec<u64>)
        ensures
            r@ == old(self).table().stale(),
            final(self).table().stale() == Seq::<u64>::empty(),
            final(self).areas() == old(self).areas(),
            final(self).root() == old(self).root(),
            final(self).table().slots() == old(self).table().slots(),
            final(self).table().table_frames() == old(self).table().table_frames(),
            final(self).table().table_count() == old(self).table().table_count(),
            final(self).table().no_double() == old(self).table().no_double(),
    {
        self.page_table.take_stale()
    }

    /// The leaf entry of page `vpn`, if the tables above it exist.
    pub fn translate<M: PhysMemory>(&self, mem: &M, vpn: VirtPageNum) -> (r: Option<PageTableEntry>)
        requires
            vpn.0 < VPN_LIMIT,
            walkable(mem.frames(), self.root(), vpn.0 as int),
        ensures
            r == match leaf(mem.frames(), self.root(), vpn.0 as int) {
                Some(w) => Some(PageTableEntry { bits: w }),
                None => None,
            },
    {
        self.page_table.translate(mem, vpn)
    }
}

/// `ms` came from `ms0` by mapping one more area, filled with `data`.
pub open spec fn pushed<M: PhysMemory>(
    ms: &MemorySet,
    pool: &FramePool<M>,
    ms0: &MemorySet,
    pool0: &FramePool<M>,
    area: AreaView,
    data: Option<Seq<u8>>,
) -> bool {
    let new = ms.areas()[ms0.areas().len() as int];
    &&& ms.areas() == ms0.areas().push(new)
    &&& config(new) == area
    &&& extended(&ms.table(), pool, &ms0.table(), pool0, new.data_set())
    &&& pool.free_count() == pool0.free_count() - frames_needed(
        ms0.table().present(pool0),
        area.start,
        area.end,
        area.per_page(),
    )
    &&& ms.table().table_count() == ms0.table().table_count() + frames_needed(
        ms0.table().present(pool0),
        area.start,
        area.end,
        0,
    )
    &&& ms.table().present(pool) == with_paths(ms0.table().present(pool0), area.start, area.end)
    &&& forall|v: int|
        own_page(ms0.table().slots(), v) ==> #[trigger] ms.table().leaf(pool, v) == (
        if area.contains(v) {
            Some(new.entry(v))
        } else {
            leaf_beside(ms0.table().leaf(pool0, v), ms.table().present(pool), v)
        })
    &&& forall|v: int, j: int|
        new.framed() && new.contains(v) && 0 <= j < 0x1000 ==> #[trigger] frame_byte(
            pool.frames()[new.data[v]],
            j,
        ) == initial_byte(data, (v - new.start) * 0x1000 + j)
    &&& data is None ==> forall|v: int|
        new.framed() && new.contains(v) ==> pool.frames()[#[trigger] new.data[v]] == cleared_frame()
}

proof fn lemma_data_set_filled(area: AreaView)
    requires
        area.wf(),
    ensures
        area.data_set() == data_between(area, area.start, area.end),
        !area.framed() ==> area.data_set() == Set::<u64>::empty(),
{
    let a = area.data_set();
    let b = data_between(area, area.start, area.end);
    assert forall|f: u64| a.contains(f) == b.contains(f) by {
        if a.contains(f) {
            let v = choose|v: int| area.data.dom().contains(v) && #[trigger] area.data[v] == f;
            assert(area.start <= v < area.end);
            assert(area.data[v] == f);
        }
        if b.contains(f) {
            let v = choose|v: int|
                area.start <= v < area.end && area.data.dom().contains(v) && #[trigger] area.data[v]
                    == f;
            assert(area.data.dom().contains(v) && area.data[v] == f);
        }
    }
    assert(a =~= b);
    if !area.framed() {
        assert(a =~= Set::empty());
    }
}

/// Mapping one more area keeps an address space sound.
proof fn lemma_pushed_wf<M: PhysMemory>(
    ms: &MemorySet,
    pool: &FramePool<M>,
    ms0: &MemorySet,
    pool0: &FramePool<M>,
    area: AreaView,
    data: Option<Seq<u8>>,
)
    requires
        ms0.wf(pool0),
        pool0.wf(),
        pool.wf(),
        ms.table().wf(pool),
        pushed(ms, pool, ms0, pool0, area, data),
        ms.areas()[ms0.areas().len() as int].wf(),
        area.end <= ms0.table().slots() * 0x800_0000,
        forall|v: int| area.contains(v) ==> #[trigger] ms0.table().mapped(pool0, v) is None,
    ensures
        ms.wf(pool),
        ms0.exact(pool0) ==> ms.exact(pool),
        ms.owned().union(pool.free()) == ms0.owned().union(pool0.free()),
{
    let n = ms0.areas().len() as int;
    let new = ms.areas()[n];
    let areas = ms.areas();
    let areas0 = ms0.areas();
    let slots = ms0.table().slots();
    lemma_root_is_table(&ms0.table(), pool0);
    assert forall|i: int, v: int| 0 <= i < n && #[trigger] areas0[i].contains(v) implies !area.contains(v)
        by {
        assert(ms0.table().leaf(pool0, v) == Some(areas0[i].entry(v)));
        lemma_perm_flags(areas0[i].perm);
        pte_word_valid(areas0[i].frame_of(v), perm_flags(areas0[i].perm));
        assert(ms0.table().mapped(pool0, v) is Some);
    }
    assert forall|i: int, j: int, v: int|
        0 <= i < areas.len() && 0 <= j < areas.len() && #[trigger] areas[i].contains(v)
            && #[trigger] areas[j].contains(v) implies i == j by {
        if i < n {
            assert(areas[i] == areas0[i]);
            assert(areas0[i].contains(v));
        }
        if j < n {
            assert(areas[j] == areas0[j]);
            assert(areas0[j].contains(v));
        }
    }
    assert forall|i: int| 0 <= i < areas.len() implies (#[trigger] areas[i]).wf() && areas[i].end
        <= slots * 0x800_0000 by {
        if i < n {
            assert(areas[i] == areas0[i]);
        }
    }
    assert(areas_wf(areas, slots));
    assert forall|i: int, f: u64|
        0 <= i < areas.len() && #[trigger] areas[i].data_set().contains(f) implies pool.allocated(f)
        && !ms.table().table_frames().contains(f) && (i < n <==> !pool0.free().contains(f)) by {
        lemma_managed_by_extent(pool, pool0, f);
        if i < n {
            assert(areas[i] == areas0[i]);
            assert(areas0[i].data_set().contains(f));
            assert(pool0.allocated(f));
            assert(!pool0.free().contains(f));
            assert(!pool.free().contains(f));
            if ms.table().table_frames().contains(f) {
                assert(ms.table().table_frames().union(new.data_set()).contains(f));
            }
        } else {
            assert(new.data_set().contains(f));
            assert(pool0.free().contains(f));
            free_frames_are_managed(pool0.allocator@, f);
            assert(!pool.free().contains(f));
        }
    }
    assert(areas_apart(areas)) by {
        assert forall|i: int, j: int, f: u64|
            0 <= i < areas.len() && 0 <= j < areas.len() && #[trigger] areas[i].data_set().contains(
                f,
            ) && #[trigger] areas[j].data_set().contains(f) implies i == j by {
            if i < n && j < n {
                assert(areas0[i].data_set().contains(f) && areas0[j].data_set().contains(f));
            }
        }
    }
    assert forall|i: int, v: int|
        0 <= i < areas.len() && #[trigger] areas[i].contains(v) implies ms.table().leaf(pool, v)
        == Some(areas[i].entry(v)) by {
        assert(areas[i].wf());
        assert(own_page(slots, v));
        if i < n {
            assert(areas[i] == areas0[i]);
            assert(areas0[i].contains(v));
            assert(!area.contains(v));
        }
    }
    if ms0.exact(pool0) {
        assert forall|v: int|
            own_page(slots, v) && (#[trigger] ms.table().mapped(pool, v)) is Some implies exists|
            i: int,
        |
            0 <= i < areas.len() && #[trigger] areas[i].contains(v) by {
            if area.contains(v) {
                assert(areas[n].contains(v));
            } else {
                pte_word_valid(0, 0);
                assert(ms.table().leaf(pool, v) == leaf_beside(
                    ms0.table().leaf(pool0, v),
                    ms.table().present(pool),
                    v,
                ));
                assert(ms0.table().mapped(pool0, v) is Some);
                let i = choose|i: int| 0 <= i < areas0.len() && #[trigger] areas0[i].contains(v);
                assert(areas[i].contains(v));
            }
        }
    }
    assert(ms.owned().union(pool.free()) =~= ms0.owned().union(pool0.free())) by {
        assert forall|f: u64| ms.owned().union(pool.free()).contains(f) == ms0.owned().union(
            pool0.free(),
        ).contains(f) by {
            assert(ms.table().table_frames().union(new.data_set()).contains(f)
                == ms0.table().table_frames().union(
                pool0.free().difference(pool.free()),
            ).contains(f));
            if areas_data(areas).contains(f) {
                let i = choose|i: int|
                    0 <= i < areas.len() && (#[trigger] areas[i]).data_set().contains(f);
                if i < n {
                    assert(areas0[i].data_set().contains(f));
                }
            }
            if areas_data(areas0).contains(f) {
                let i = choose|i: int|
                    0 <= i < areas0.len() && (#[trigger] areas0[i]).data_set().contains(f);
                assert(areas[i].data_set().contains(f));
            }
            if new.data_set().contains(f) {
                assert(areas[n].data_set().contains(f));
            }
        }
    }
}

impl MemorySet {
    /// Map one more area and fill it with `data`.
    fn push<M: PhysMemory>(
        &mut self,
        pool: &mut FramePool<M>,
        map_area: MapArea,
        data: Option<&[u8]>,
    )
        requires
            old(pool).wf(),
            old(self).wf(old(pool)),
            0 <= map_area@.start,
            map_area@.end <= old(self).table().slots() * 0x800_0000,
            map_area@.data == Map::<int, u64>::empty(),
            pages_mappable(
                map_area@,
                &old(self).table(),
                old(pool),
                map_area@.start,
                map_area@.end,
            ),
            data matches Some(d) ==> {
                &&& map_area@.framed()
                &&& d@.len() <= (map_area@.end - map_area@.start) * 0x1000
                &&& map_area@.start >= map_area@.end ==> own_page(
                    old(self).table().slots(),
                    map_area@.start,
                ) && old(self).table().leaf(old(pool), map_area@.start) is Some
            },
        ensures
            final(pool).wf(),
            final(self).wf(final(pool)),
            old(self).exact(old(pool)) ==> final(self).exact(final(pool)),
            pushed(
                final(self),
                final(pool),
                old(self),
                old(pool),
                map_area@,
                match data {
                    Some(d) => Some(d@),
                    None => None,
                },
            ),
            final(self).owned().union(final(pool).free()) == old(self).owned().union(
                old(pool).free(),
            ),
    {
        let mut map_area = map_area;
        let ghost area0 = map_area@;
        let ghost ms0 = *self;
        let ghost pool0 = *pool;
        proof {
            lemma_root_is_table(&self.page_table, pool);
        }
        map_area.map(&mut self.page_table, pool);
        let ghost new = map_area@;
        let ghost pool1 = *pool;
        proof {
            assert(area0.data_distinct());
            assert forall|v: int| new.start <= v < new.end implies #[trigger] new.linear_ok(v) by {
                assert(area0.linear_ok(v));
            }
            assert(new.filled(new.start, new.end));
            lemma_data_set_filled(new);
            assert forall|v: int| new.contains(v) && new.framed() implies pool1.frames().dom().contains(
                new.data[v],
            ) && !self.page_table.table_frames().contains(new.data[v]) by {
                assert(new.data.dom().contains(v));
                assert(new.data_set().contains(new.data[v]));
                free_frames_are_managed(pool0.allocator@, new.data[v]);
            }
        }
        if let Some(data) = data {
            proof {
                assert forall|v: int| #[trigger] map_area@.contains(v) implies {
                    &&& self.page_table.leaf(pool, v) == Some(map_area@.entry(v))
                    &&& pool.frames().dom().contains(map_area@.data[v])
                    &&& !self.page_table.table_frames().contains(map_area@.data[v])
                } by {}
            }
            map_area.copy_data(&self.page_table, pool, data);
            proof {
                assert forall|f: u64| #[trigger]
                    self.page_table.table_frames().contains(f) implies pool.frames()[f]
                    == pool1.frames()[f] by {
                    assert(!new.data_set().contains(f));
                }
                lemma_table_kept_mem(&self.page_table, &pool1, pool);
                lemma_root_is_table(&self.page_table, &pool1);
            }
        }
        self.areas.push(map_area);
        proof {
            let d = match data {
                Some(d) => Some(d@),
                None => None,
            };
            assert(self.areas() =~= ms0.areas().push(new));
            assert(config(new) =~= area0);
            assert forall|v: int, j: int|
                new.framed() && new.contains(v) && 0 <= j < 0x1000 implies #[trigger] frame_byte(
                pool.frames()[new.data[v]],
                j,
            ) == initial_byte(d, (v - new.start) * 0x1000 + j) by {
                cleared_frame_bytes(j);
                assert(pool1.frames()[new.data[v]] == cleared_frame());
                assert(frame_byte(pool1.frames()[new.data[v]], j) == 0);
            }
            assert(pool.free() =~= pool1.free());
            assert(extended(&self.table(), pool, &ms0.table(), &pool0, new.data_set())) by {
                assert forall|f: u64|
                    !ms0.table().table_frames().contains(f) && !pool0.free().contains(
                        f,
                    ) implies #[trigger] pool.frames()[f] == pool0.frames()[f] by {
                    assert(!new.data_set().contains(f));
                    assert(pool.frames()[f] == pool1.frames()[f]);
                }
                assert(pool.frames()[ms0.root()] == pool1.frames()[ms0.root()]);
            }
            assert forall|v: int|
                own_page(ms0.table().slots(), v) implies #[trigger] self.table().leaf(pool, v) == (
            if area0.contains(v) {
                Some(new.entry(v))
            } else {
                leaf_beside(ms0.table().leaf(&pool0, v), self.table().present(pool), v)
            }) by {
                assert(self.page_table.leaf(&pool1, v) == self.page_table.leaf(pool, v));
            }
            lemma_pushed_wf(self, pool, &ms0, &pool0, area0, d);
        }
    }
}

proof fn lemma_area_index(areas: Seq<AreaView>, start: int, i: int)
    requires
        0 <= i <= areas.len(),
        forall|j: int| 0 <= j < i ==> (#[trigger] areas[j]).start != start,
    ensures
        area_index(areas, start, i) == area_index(areas, start, 0),
    decreases i,
{
    if i > 0 {
        assert(areas[i - 1].start != start);
        lemma_area_index(areas, start, i - 1);
    }
}

/// Whether `ms` came from `ms0` by taking out the pages of area `i` from page
/// `s` on.
pub open spec fn cut_back<M: PhysMemory>(
    ms: &MemorySet,
    pool: &FramePool<M>,
    ms0: &MemorySet,
    pool0: &FramePool<M>,
    i: int,
    s: int,
) -> bool {
    let area0 = ms0.areas()[i];
    let freed = data_between(area0, s, area0.end);
    &&& shrunk(&ms.table(), pool, &ms0.table(), pool0)
    &&& pool.free() == pool0.free().union(freed)
    &&& pool.free_count() == pool0.free_count() + (if area0.framed() {
        area0.end - s
    } else {
        0
    })
    &&& ms.table().stale() == ms0.table().stale() + page_addresses(s, area0.end)
    &&& forall|v: int|
        own_page(ms0.table().slots(), v) ==> #[trigger] ms.table().leaf(pool, v) == (if s <= v
            < area0.end {
            Some(0u64)
        } else {
            ms0.table().leaf(pool0, v)
        })
}

/// `ms` came from `ms0` by taking out the area that starts at page `start`, if there is
/// one.
pub open spec fn area_removed<M: PhysMemory>(
    ms: &MemorySet,
    pool: &FramePool<M>,
    ms0: &MemorySet,
    pool0: &FramePool<M>,
    start: int,
) -> bool {
    let i = area_index(ms0.areas(), start, 0);
    if i < ms0.areas().len() {
        &&& ms.areas() == ms0.areas().remove(i)
        &&& cut_back(ms, pool, ms0, pool0, i, ms0.areas()[i].start)
    } else {
        *ms == *ms0 && *pool == *pool0
    }
}

/// `ms` came from `ms0` by letting the area that starts in the page of `start` end at
/// `new_end`; `r` tells whether there is such an area.
pub open spec fn area_shrunk<M: PhysMemory>(
    ms: &MemorySet,
    pool: &FramePool<M>,
    ms0: &MemorySet,
    pool0: &FramePool<M>,
    start: int,
    new_end: int,
    r: bool,
) -> bool {
    let i = area_index(ms0.areas(), start / 0x1000, 0);
    let e = (new_end + 0xfff) / 0x1000;
    &&& r == (i < ms0.areas().len())
    &&& if r {
        &&& ms.areas() == ms0.areas().update(i, ms.areas()[i])
        &&& area_cut(ms0.areas()[i], ms.areas()[i], e)
        &&& cut_back(ms, pool, ms0, pool0, i, e)
    } else {
        *ms == *ms0 && *pool == *pool0
    }
}

/// `ms` came from `ms0` by letting the area that starts in the page of `start` go up to
/// `new_end`; `r` tells whether there is such an area.
pub open spec fn area_appended<M: PhysMemory>(
    ms: &MemorySet,
    pool: &FramePool<M>,
    ms0: &MemorySet,
    pool0: &FramePool<M>,
    start: int,
    new_end: int,
    r: bool,
) -> bool {
    let i = area_index(ms0.areas(), start / 0x1000, 0);
    let e = (new_end + 0xfff) / 0x1000;
    &&& r == (i < ms0.areas().len())
    &&& if r {
        grown(ms, pool, ms0, pool0, i, e)
    } else {
        *ms == *ms0 && *pool == *pool0
    }
}

/// Area `i` ends at page `s` now.
pub open spec fn area_cut(area0: AreaView, area: AreaView, s: int) -> bool {
    &&& area.start == area0.start
    &&& area.end == s
    &&& area.map_type == area0.map_type
    &&& area.perm == area0.perm
    &&& forall|v: int| #[trigger] area.data.dom().contains(v) <==> area0.data.dom().contains(v) && v
        < s
    &&& forall|v: int| #[trigger] area.data.dom().contains(v) ==> area.data[v] == area0.data[v]
}

/// What holds of every area but `i` after pages of area `i` were taken out.
proof fn lemma_cut_back<M: PhysMemory>(
    ms: &MemorySet,
    pool: &FramePool<M>,
    ms0: &MemorySet,
    pool0: &FramePool<M>,
    i: int,
    s: int,
)
    requires
        ms0.wf(pool0),
        pool0.wf(),
        0 <= i < ms0.areas().len(),
        ms0.areas()[i].start <= s <= ms0.areas()[i].end,
        cut_back(ms, pool, ms0, pool0, i, s),
    ensures
        forall|j: int, v: int|
            0 <= j < ms0.areas().len() && #[trigger] ms0.areas()[j].contains(v) && (j != i || v < s)
                ==> ms.table().leaf(pool, v) == Some(ms0.areas()[j].entry(v)),
        forall|j: int, f: u64|
            0 <= j < ms0.areas().len() && j != i && #[trigger] ms0.areas()[j].data_set().contains(f)
                ==> pool.allocated(f) && !ms.table().table_frames().contains(f),
        forall|v: int|
            ms0.areas()[i].data.dom().contains(v) && v < s ==> pool.allocated(
                #[trigger] ms0.areas()[i].data[v],
            ) && !ms.table().table_frames().contains(ms0.areas()[i].data[v]),
        ms0.exact(pool0) ==> forall|v: int|
            own_page(ms0.table().slots(), v) && (#[trigger] ms.table().mapped(pool, v)) is Some
                ==> !(s <= v < ms0.areas()[i].end) && exists|j: int|
                0 <= j < ms0.areas().len() && #[trigger] ms0.areas()[j].contains(v),
{
    let areas0 = ms0.areas();
    let area0 = areas0[i];
    assert forall|j: int, v: int|
        0 <= j < areas0.len() && #[trigger] areas0[j].contains(v) && (j != i || v < s) implies ms.table().leaf(
        pool,
        v,
    ) == Some(areas0[j].entry(v)) by {
        assert(areas0[j].wf());
        assert(own_page(ms0.table().slots(), v));
        if s <= v < area0.end {
            assert(area0.wf());
            assert(area0.contains(v));
        }
    }
    assert forall|j: int, f: u64|
        0 <= j < areas0.len() && j != i && #[trigger] areas0[j].data_set().contains(f) implies pool.allocated(
        f,
    ) && !ms.table().table_frames().contains(f) by {
        lemma_managed_by_extent(pool, pool0, f);
        assert(pool0.allocated(f));
        assert(!pool0.free().contains(f));
        if data_between(area0, s, area0.end).contains(f) {
            let v = choose|v: int|
                s <= v < area0.end && area0.data.dom().contains(v) && #[trigger] area0.data[v] == f;
            assert(area0.data.dom().contains(v) && area0.data[v] == f);
            assert(area0.data_set().contains(f));
        }
        assert(!pool.free().contains(f));
    }
    assert forall|v: int| area0.data.dom().contains(v) && v < s implies pool.allocated(
        #[trigger] area0.data[v],
    ) && !ms.table().table_frames().contains(area0.data[v]) by {
        let f = area0.data[v];
        lemma_managed_by_extent(pool, pool0, f);
        assert(area0.data_set().contains(f));
        assert(pool0.allocated(f));
        assert(!pool0.free().contains(f));
        if data_between(area0, s, area0.end).contains(f) {
            let w = choose|w: int|
                s <= w < area0.end && area0.data.dom().contains(w) && #[trigger] area0.data[w] == f;
            assert(area0.wf());
        }
        assert(!pool.free().contains(f));
    }
    if ms0.exact(pool0) {
        assert forall|v: int|
            own_page(ms0.table().slots(), v) && (#[trigger] ms.table().mapped(pool, v))
                is Some implies !(s <= v < ms0.areas()[i].end) && exists|j: int|
            0 <= j < ms0.areas().len() && #[trigger] ms0.areas()[j].contains(v) by {
            pte_word_valid(0, 0);
            assert(ms.table().leaf(pool, v) == (if s <= v < area0.end {
                Some(0u64)
            } else {
                ms0.table().leaf(pool0, v)
            }));
            assert(ms0.table().mapped(pool0, v) is Some);
        }
    }
}

impl MemorySet {
    /// Map an area of frames of its own. The pages must not be mapped.
    pub fn insert_framed_area<M: PhysMemory>(
        &mut self,
        pool: &mut FramePool<M>,
        start_va: VirtAddr,
        end_va: VirtAddr,
        permission: MapPermission,
    )
        requires
            old(pool).wf(),
            old(self).wf(old(pool)),
            framed_area(start_va.0 as int, end_va.0 as int, permission.bits).end
                <= old(self).table().slots() * 0x800_0000,
            pages_mappable(
                framed_area(start_va.0 as int, end_va.0 as int, permission.bits),
                &old(self).table(),
                old(pool),
                framed_area(start_va.0 as int, end_va.0 as int, permission.bits).start,
                framed_area(start_va.0 as int, end_va.0 as int, permission.bits).end,
            ),
        ensures
            final(pool).wf(),
            final(self).wf(final(pool)),
            old(self).exact(old(pool)) ==> final(self).exact(final(pool)),
            pushed(
                final(self),
                final(pool),
                old(self),
                old(pool),
                framed_area(start_va.0 as int, end_va.0 as int, permission.bits),
                None,
            ),
            final(self).owned().union(final(pool).free()) == old(self).owned().union(
                old(pool).free(),
            ),
    {
        self.push(pool, MapArea::new(start_va, end_va, MapType::Framed, permission), None);
    }

    /// Find the first area that starts at page `start`.
    fn find_area(&self, start: VirtPageNum) -> (r: Option<usize>)
        ensures
            match r {
                Some(i) => i < self.areas().len() && i == area_index(
                    self.areas(),
                    start.0 as int,
                    0,
                ) && self.areas()[i as int].start == start.0,
                None => area_index(self.areas(), start.0 as int, 0) == self.areas().len(),
            },
    {
        let mut i: usize = 0;
        while i < self.areas.len()
            invariant
                i <= self.areas@.len(),
                forall|j: int| 0 <= j < i ==> (#[trigger] self.areas()[j]).start != start.0,
            decreases self.areas@.len() - i,
        {
            assert(self.areas()[i as int] == self.areas@[i as int]@);
            if self.areas[i].start().0 == start.0 {
                proof {
                    lemma_area_index(self.areas(), start.0 as int, i as int);
                }
                return Some(i);
            }
            i = i + 1;
        }
        proof {
            lemma_area_index(self.areas(), start.0 as int, i as int);
        }
        None
    }

    /// Take out the area that starts at page `start_vpn`, if there is one.
    pub fn remove_area_with_start_vpn<M: PhysMemory>(
        &mut self,
        pool: &mut FramePool<M>,
        start_vpn: VirtPageNum,
    )
        requires
            old(pool).wf(),
            old(self).wf(old(pool)),
        ensures
            final(pool).wf(),
            final(self).wf(final(pool)),
            old(self).exact(old(pool)) ==> final(self).exact(final(pool)),
            area_removed(final(self), final(pool), old(self), old(pool), start_vpn.0 as int),
    {
        let ghost ms0 = *self;
        let ghost pool0 = *pool;
        if let Some(idx) = self.find_area(start_vpn) {
            let ghost i = idx as int;
            let ghost area0 = self.areas()[i];
            proof {
                lemma_area_unmappable(self, pool, i, area0.start);
            }
            let mut area = self.areas.remove(idx);
            assert(area@ == area0);
            area.unmap(&mut self.page_table, pool);
            proof {
                assert(self.areas() =~= ms0.areas().remove(i));
                lemma_no_data_if_linear(area0, area0.start);
                assert(cut_back(self, pool, &ms0, &pool0, i, area0.start));
                lemma_cut_back(self, pool, &ms0, &pool0, i, area0.start);
                lemma_removed_wf(self, pool, &ms0, &pool0, i);
            }
        }
    }
}

/// The framed area of the pages that hold the addresses from `start` to `end`.
pub open spec fn framed_area(start: int, end: int, perm: u8) -> AreaView {
    AreaView {
        start: start / 0x1000,
        end: (end + 0xfff) / 0x1000,
        map_type: MapType::Framed,
        perm,
        data: Map::empty(),
    }
}

proof fn lemma_no_data_if_linear(area: AreaView, s: int)
    requires
        area.wf(),
    ensures
        !area.framed() ==> data_between(area, s, area.end) == Set::<u64>::empty(),
{
    if !area.framed() {
        assert(data_between(area, s, area.end) =~= Set::empty());
    }
}

proof fn lemma_area_unmappable<M: PhysMemory>(
    ms: &MemorySet,
    pool: &FramePool<M>,
    i: int,
    s: int,
)
    requires
        ms.wf(pool),
        0 <= i < ms.areas().len(),
        ms.areas()[i].start <= s <= ms.areas()[i].end,
    ensures
        pages_unmappable(ms.areas()[i], &ms.table(), pool, s, ms.areas()[i].end),
{
    let area = ms.areas()[i];
    assert(area.wf());
    assert forall|v: int| s <= v < area.end implies #[trigger] ms.table().mapped(pool, v) is Some by {
        assert(ms.areas()[i].contains(v));
        lemma_perm_flags(area.perm);
        pte_word_valid(area.frame_of(v), perm_flags(area.perm));
    }
    assert forall|v: int| area.framed() && s <= v < area.end implies {
        &&& #[trigger] area.data.dom().contains(v)
        &&& pool.allocated(area.data[v])
        &&& !ms.table().table_frames().contains(area.data[v])
    } by {
        assert(area.data.dom().contains(v));
        assert(ms.areas()[i].data_set().contains(area.data[v]));
    }
}

proof fn lemma_removed_wf<M: PhysMemory>(
    ms: &MemorySet,
    pool: &FramePool<M>,
    ms0: &MemorySet,
    pool0: &FramePool<M>,
    i: int,
)
    requires
        ms0.wf(pool0),
        pool0.wf(),
        ms.table().wf(pool),
        0 <= i < ms0.areas().len(),
        ms.areas() == ms0.areas().remove(i),
        cut_back(ms, pool, ms0, pool0, i, ms0.areas()[i].start),
    ensures
        ms.wf(pool),
        ms0.exact(pool0) ==> ms.exact(pool),
{
    let a0 = ms0.areas();
    let a = ms.areas();
    let s = a0[i].start;
    assert(a0[i].wf());
    lemma_cut_back(ms, pool, ms0, pool0, i, s);
    assert forall|k: int| 0 <= k < a.len() implies (#[trigger] a[k]) == a0[if k < i {
        k
    } else {
        k + 1
    }] by {}
    assert(areas_wf(a, ms.table().slots()));
    assert(areas_apart(a));
    assert forall|k: int, v: int| 0 <= k < a.len() && #[trigger] a[k].contains(v) implies ms.table().leaf(
        pool,
        v,
    ) == Some(a[k].entry(v)) by {
        let k0 = if k < i {
            k
        } else {
            k + 1
        };
        assert(a0[k0].contains(v));
    }
    assert forall|k: int, f: u64| 0 <= k < a.len() && #[trigger] a[k].data_set().contains(
        f,
    ) implies pool.allocated(f) && !ms.table().table_frames().contains(f) by {
        let k0 = if k < i {
            k
        } else {
            k + 1
        };
        assert(a0[k0].data_set().contains(f));
    }
    if ms0.exact(pool0) {
        assert forall|v: int|
            own_page(ms.table().slots(), v) && (#[trigger] ms.table().mapped(pool, v))
                is Some implies exists|k: int| 0 <= k < a.len() && #[trigger] a[k].contains(v) by {
            let j = choose|j: int| 0 <= j < a0.len() && #[trigger] a0[j].contains(v);
            assert(j != i);
            if j < i {
                assert(a[j].contains(v));
            } else {
                assert(a[j - 1].contains(v));
            }
        }
    }
}

proof fn lemma_shrunk_wf<M: PhysMemory>(
    ms: &MemorySet,
    pool: &FramePool<M>,
    ms0: &MemorySet,
    pool0: &FramePool<M>,
    i: int,
    s: int,
    area: AreaView,
)
    requires
        ms0.wf(pool0),
        pool0.wf(),
        ms.table().wf(pool),
        0 <= i < ms0.areas().len(),
        ms.areas() == ms0.areas().update(i, area),
        ms0.areas()[i].start <= s <= ms0.areas()[i].end,
        cut_back(ms, pool, ms0, pool0, i, s),
        area_cut(ms0.areas()[i], area, s),
    ensures
        ms.wf(pool),
        ms0.exact(pool0) ==> ms.exact(pool),
{
    let a0 = ms0.areas();
    let a = ms.areas();
    assert(a0[i].wf());
    lemma_cut_back(ms, pool, ms0, pool0, i, s);
    assert(area.wf()) by {
        assert(a0[i].filled(a0[i].start, a0[i].end));
        assert forall|v: int, w: int|
            area.data.dom().contains(v) && area.data.dom().contains(w) && #[trigger] area.data[v]
                == #[trigger] area.data[w] implies v == w by {
            assert(a0[i].data[v] == a0[i].data[w]);
        }
        assert forall|v: int| area.start <= v < area.end implies #[trigger] area.linear_ok(v) by {
            assert(a0[i].linear_ok(v));
        }
    }
    assert forall|f: u64| #[trigger] area.data_set().contains(f) implies a0[i].data_set().contains(f)
        && exists|v: int| a0[i].data.dom().contains(v) && v < s && #[trigger] a0[i].data[v] == f by {
        let v = choose|v: int| area.data.dom().contains(v) && #[trigger] area.data[v] == f;
        assert(a0[i].data.dom().contains(v) && a0[i].data[v] == f);
    }
    assert forall|k: int| 0 <= k < a.len() && k != i implies a[k] == a0[k] by {}
    assert forall|k: int, j: int, v: int|
        0 <= k < a.len() && 0 <= j < a.len() && #[trigger] a[k].contains(v)
            && #[trigger] a[j].contains(v) implies k == j by {
        assert(a0[k].contains(v) && a0[j].contains(v));
    }
    assert(areas_wf(a, ms.table().slots())) by {
        assert forall|k: int| 0 <= k < a.len() implies (#[trigger] a[k]).wf() && a[k].end
            <= ms.table().slots() * 0x800_0000 by {
            assert(a0[k].wf() && a0[k].end <= ms.table().slots() * 0x800_0000);
        }
    }
    assert forall|k: int, j: int, f: u64|
        0 <= k < a.len() && 0 <= j < a.len() && #[trigger] a[k].data_set().contains(f)
            && #[trigger] a[j].data_set().contains(f) implies k == j by {
        assert(a0[k].data_set().contains(f) && a0[j].data_set().contains(f));
    }
    assert forall|k: int, v: int| 0 <= k < a.len() && #[trigger] a[k].contains(v) implies ms.table().leaf(
        pool,
        v,
    ) == Some(a[k].entry(v)) by {
        assert(a0[k].contains(v));
        if k == i && area.framed() {
            assert(a0[i].data.dom().contains(v));
            assert(area.data.dom().contains(v));
        }
    }
    assert forall|k: int, f: u64| 0 <= k < a.len() && #[trigger] a[k].data_set().contains(
        f,
    ) implies pool.allocated(f) && !ms.table().table_frames().contains(f) by {
        assert(a0[k].data_set().contains(f));
    }
    if ms0.exact(pool0) {
        assert forall|v: int|
            own_page(ms.table().slots(), v) && (#[trigger] ms.table().mapped(pool, v))
                is Some implies exists|k: int| 0 <= k < a.len() && #[trigger] a[k].contains(v) by {
            let j = choose|j: int| 0 <= j < a0.len() && #[trigger] a0[j].contains(v);
            assert(a[j].contains(v));
        }
    }
}

/// `ms` came from `ms0` by mapping pages at the end of area `i`, up to `e`.
pub open spec fn grown<M: PhysMemory>(
    ms: &MemorySet,
    pool: &FramePool<M>,
    ms0: &MemorySet,
    pool0: &FramePool<M>,
    i: int,
    e: int,
) -> bool {
    let area0 = ms0.areas()[i];
    let area = ms.areas()[i];
    &&& ms.areas() == ms0.areas().update(i, area)
    &&& area.start == area0.start
    &&& area.end == e
    &&& pages_mapped(area, &ms.table(), pool, area0, &ms0.table(), pool0, area0.end, e)
}

proof fn lemma_grown_wf<M: PhysMemory>(
    ms: &MemorySet,
    pool: &FramePool<M>,
    ms0: &MemorySet,
    pool0: &FramePool<M>,
    i: int,
    e: int,
)
    requires
        ms0.wf(pool0),
        pool0.wf(),
        pool.wf(),
        ms.table().wf(pool),
        0 <= i < ms0.areas().len(),
        grown(ms, pool, ms0, pool0, i, e),
        pages_mappable(ms0.areas()[i], &ms0.table(), pool0, ms0.areas()[i].end, e),
        e <= ms0.table().slots() * 0x800_0000,
    ensures
        ms.wf(pool),
        ms0.exact(pool0) ==> ms.exact(pool),
        ms.owned().union(pool.free()) == ms0.owned().union(pool0.free()),
{
    let a0 = ms0.areas();
    let a = ms.areas();
    let area0 = a0[i];
    let area = a[i];
    let slots = ms0.table().slots();
    let added = data_between(area, area0.end, e);
    lemma_root_is_table(&ms0.table(), pool0);
    assert(area0.wf());
    assert(area.wf()) by {
        assert(area0.filled(area0.start, area0.end));
        assert forall|v: int| area.start <= v < area.end implies #[trigger] area.linear_ok(v) by {
            assert(area0.linear_ok(v));
        }
    }
    assert forall|k: int| 0 <= k < a.len() && k != i implies a[k] == a0[k] by {}
    assert forall|f: u64| #[trigger] area.data_set().contains(f) == (area0.data_set().contains(f)
        || added.contains(f)) by {
        if area.data_set().contains(f) {
            let v = choose|v: int| area.data.dom().contains(v) && #[trigger] area.data[v] == f;
            if area0.data.dom().contains(v) {
                assert(area0.data[v] == f);
            } else {
                assert(area.data[v] == f);
            }
        }
        if area0.data_set().contains(f) {
            let v = choose|v: int| area0.data.dom().contains(v) && #[trigger] area0.data[v] == f;
            assert(area.data.dom().contains(v) && area.data[v] == f);
        }
        if added.contains(f) {
            let v = choose|v: int|
                area0.end <= v < e && area.data.dom().contains(v) && #[trigger] area.data[v] == f;
            assert(area.data.dom().contains(v) && area.data[v] == f);
        }
    }
    assert forall|k: int, v: int| 0 <= k < a0.len() && #[trigger] a0[k].contains(v) implies !(
    area0.end <= v < e) by {
        assert(ms0.table().leaf(pool0, v) == Some(a0[k].entry(v)));
        lemma_perm_flags(a0[k].perm);
        pte_word_valid(a0[k].frame_of(v), perm_flags(a0[k].perm));
        if area0.end <= v < e {
            assert(ms0.table().mapped(pool0, v) is None);
        }
    }
    assert forall|k: int, j: int, v: int|
        0 <= k < a.len() && 0 <= j < a.len() && #[trigger] a[k].contains(v)
            && #[trigger] a[j].contains(v) implies k == j by {
        if k != i && j != i {
            assert(a0[k].contains(v) && a0[j].contains(v));
        } else if k != i {
            assert(a0[k].contains(v));
            assert(area0.contains(v));
        } else if j != i {
            assert(a0[j].contains(v));
            assert(area0.contains(v));
        }
    }
    assert(areas_wf(a, slots)) by {
        assert forall|k: int| 0 <= k < a.len() implies (#[trigger] a[k]).wf() && a[k].end <= slots
            * 0x800_0000 by {
            if k != i {
                assert(a0[k].wf());
            }
        }
    }
    assert forall|k: int, f: u64|
        0 <= k < a.len() && #[trigger] a[k].data_set().contains(f) implies pool.allocated(f)
        && !ms.table().table_frames().contains(f) && (pool0.free().contains(f) ==> k == i) by {
        lemma_managed_by_extent(pool, pool0, f);
        if k == i && added.contains(f) {
            free_frames_are_managed(pool0.allocator@, f);
            assert(!pool.free().contains(f));
        } else {
            assert(a0[k].data_set().contains(f));
            assert(pool0.allocated(f));
            assert(!pool0.free().contains(f));
            assert(!pool.free().contains(f));
            if ms.table().table_frames().contains(f) {
                assert(ms.table().table_frames().union(added).contains(f));
            }
        }
    }
    assert forall|k: int, j: int, f: u64|
        0 <= k < a.len() && 0 <= j < a.len() && #[trigger] a[k].data_set().contains(f)
            && #[trigger] a[j].data_set().contains(f) implies k == j by {
        if !pool0.free().contains(f) {
            assert(a0[k].data_set().contains(f) && a0[j].data_set().contains(f));
        }
    }
    assert forall|k: int, v: int| 0 <= k < a.len() && #[trigger] a[k].contains(v) implies ms.table().leaf(
        pool,
        v,
    ) == Some(a[k].entry(v)) by {
        assert(a[k].wf());
        assert(own_page(slots, v));
        if k != i {
            assert(a0[k].contains(v));
        } else if v < area0.end {
            assert(a0[i].contains(v));
            if area0.framed() {
                assert(area0.data.dom().contains(v));
            }
        }
    }
    if ms0.exact(pool0) {
        assert forall|v: int|
            own_page(slots, v) && (#[trigger] ms.table().mapped(pool, v)) is Some implies exists|
            k: int,
        |
            0 <= k < a.len() && #[trigger] a[k].contains(v) by {
            if area0.end <= v < e {
                assert(a[i].contains(v));
            } else {
                pte_word_valid(0, 0);
                assert(ms.table().leaf(pool, v) == leaf_beside(
                    ms0.table().leaf(pool0, v),
                    ms.table().present(pool),
                    v,
                ));
                assert(ms0.table().mapped(pool0, v) is Some);
                let j = choose|j: int| 0 <= j < a0.len() && #[trigger] a0[j].contains(v);
                assert(a[j].contains(v));
            }
        }
    }
    assert forall|f: u64| ms.owned().union(pool.free()).contains(f) == ms0.owned().union(
        pool0.free(),
    ).contains(f) by {
        assert(ms.table().table_frames().union(added).contains(f)
            == ms0.table().table_frames().union(pool0.free().difference(pool.free())).contains(f));
        if areas_data(a).contains(f) {
            let k = choose|k: int| 0 <= k < a.len() && (#[trigger] a[k]).data_set().contains(f);
            if k != i || area0.data_set().contains(f) {
                assert(a0[k].data_set().contains(f));
            }
        }
        if areas_data(a0).contains(f) {
            let k = choose|k: int| 0 <= k < a0.len() && (#[trigger] a0[k]).data_set().contains(f);
            assert(a[k].data_set().contains(f));
        }
        if added.contains(f) {
            assert(a[i].data_set().contains(f));
        }
    }
    assert(ms.owned().union(pool.free()) =~= ms0.owned().union(pool0.free()));
}

impl MemorySet {
    /// Let the area that starts in the page of `start` end with the page
    /// before `new_end`. Returns whether there is such an area.
    pub fn shrink_to<M: PhysMemory>(
        &mut self,
        pool: &mut FramePool<M>,
        start: VirtAddr,
        new_end: VirtAddr,
    ) -> (r: bool)
        requires
            old(pool).wf(),
            old(self).wf(old(pool)),
            ({
                let i = area_index(old(self).areas(), start.0 as int / 0x1000, 0);
                i < old(self).areas().len() ==> old(self).areas()[i].start <= (new_end.0 + 0xfff)
                    / 0x1000 <= old(self).areas()[i].end
            }),
        ensures
            final(pool).wf(),
            final(self).wf(final(pool)),
            old(self).exact(old(pool)) ==> final(self).exact(final(pool)),
            area_shrunk(
                final(self),
                final(pool),
                old(self),
                old(pool),
                start.0 as int,
                new_end.0 as int,
                r,
            ),
    {
        let ghost ms0 = *self;
        let ghost pool0 = *pool;
        if let Some(idx) = self.find_area(start.floor()) {
            let ghost i = idx as int;
            let ghost area0 = self.areas()[i];
            let end: VirtPageNum = new_end.ceil();
            proof {
                lemma_area_unmappable(self, pool, i, end.0 as int);
            }
            let mut area = self.areas.remove(idx);
            assert(area@ == area0);
            area.shrink_to(&mut self.page_table, pool, end);
            let ghost left = area@;
            self.areas.insert(idx, area);
            proof {
                assert(self.areas() =~= ms0.areas().update(i, left));
                assert(area0.wf());
                lemma_no_data_if_linear(area0, end.0 as int);
                assert(area_cut(area0, left, end.0 as int));
                assert(cut_back(self, pool, &ms0, &pool0, i, end.0 as int));
                lemma_shrunk_wf(self, pool, &ms0, &pool0, i, end.0 as int, left);
            }
            true
        } else {
            false
        }
    }

    /// Let the area that starts in the page of `start` go up to `new_end`.
    /// Returns whether there is such an area.
    pub fn append_to<M: PhysMemory>(
        &mut self,
        pool: &mut FramePool<M>,
        start: VirtAddr,
        new_end: VirtAddr,
    ) -> (r: bool)
        requires
            old(pool).wf(),
            old(self).wf(old(pool)),
            ({
                let i = area_index(old(self).areas(), start.0 as int / 0x1000, 0);
                let e = (new_end.0 + 0xfff) / 0x1000;
                i < old(self).areas().len() ==> e <= old(self).table().slots() * 0x800_0000
                    && pages_mappable(
                    old(self).areas()[i],
                    &old(self).table(),
                    old(pool),
                    old(self).areas()[i].end,
                    e,
                )
            }),
        ensures
            final(pool).wf(),
            final(self).wf(final(pool)),
            old(self).exact(old(pool)) ==> final(self).exact(final(pool)),
            area_appended(
                final(self),
                final(pool),
                old(self),
                old(pool),
                start.0 as int,
                new_end.0 as int,
                r,
            ),
            final(self).owned().union(final(pool).free()) == old(self).owned().union(
                old(pool).free(),
            ),
    {
        let ghost ms0 = *self;
        let ghost pool0 = *pool;
        if let Some(idx) = self.find_area(start.floor()) {
            let ghost i = idx as int;
            let end: VirtPageNum = new_end.ceil();
            assert(self.areas()[i].wf());
            let mut area = self.areas.remove(idx);
            assert(area@ == ms0.areas()[i]);
            area.append_to(&mut self.page_table, pool, end);
            let ghost more = area@;
            self.areas.insert(idx, area);
            proof {
                assert(self.areas() =~= ms0.areas().update(i, more));
                assert(grown(self, pool, &ms0, &pool0, i, end.0 as int));
                lemma_grown_wf(self, pool, &ms0, &pool0, i, end.0 as int);
            }
            true
        } else {
            false
        }
    }
}

proof fn lemma_areas_data_take(areas: Seq<AreaView>, i: int)
    requires
        0 <= i < areas.len(),
    ensures
        areas_data(areas.take(i + 1)) == areas_data(areas.take(i)).union(areas[i].data_set()),
{
    let a = areas.take(i);
    let b = areas.take(i + 1);
    assert forall|f: u64| areas_data(b).contains(f) == areas_data(a).union(
        areas[i].data_set(),
    ).contains(f) by {
        if areas_data(b).contains(f) {
            let k = choose|k: int| 0 <= k < b.len() && (#[trigger] b[k]).data_set().contains(f);
            if k < i {
                assert(a[k].data_set().contains(f));
            }
        }
        if areas_data(a).contains(f) {
            let k = choose|k: int| 0 <= k < a.len() && (#[trigger] a[k]).data_set().contains(f);
            assert(b[k].data_set().contains(f));
        }
        if areas[i].data_set().contains(f) {
            assert(b[i].data_set().contains(f));
        }
    }
    assert(areas_data(b) =~= areas_data(a).union(areas[i].data_set()));
}

impl MemorySet {
    /// Drop all areas, which gives their frames back. Their pages stay in the
    /// page table.
    pub fn recycle_data_pages<M: PhysMemory>(&mut self, pool: &mut FramePool<M>)
        requires
            old(pool).wf(),
            old(self).wf(old(pool)),
        ensures
            final(pool).wf(),
            final(self).wf(final(pool)),
            final(self).areas() == Seq::<AreaView>::empty(),
            final(self).table() == old(self).table(),
            final(pool).same_extent(old(pool)),
            final(pool).frames() == old(pool).frames(),
            final(pool).free() == old(pool).free().union(areas_data(old(self).areas())),
            final(pool).free_count() == old(pool).free_count() + data_count(
                old(self).areas(),
                old(self).areas().len() as int,
            ),
    {
        let ghost ms0 = *self;
        let ghost pool0 = *pool;
        let ghost areas = self.areas();
        let mut i: usize = 0;
        proof {
            assert(areas_data(areas.take(0)) =~= Set::empty());
            assert(pool.free() =~= pool.free().union(areas_data(areas.take(0))));
        }
        while i < self.areas.len()
            invariant
                i <= self.areas@.len(),
                *self == ms0,
                areas == ms0.areas(),
                pool0.wf(),
                ms0.wf(&pool0),
                pool.wf(),
                pool.same_extent(&pool0),
                pool.frames() == pool0.frames(),
                pool.free() == pool0.free().union(areas_data(areas.take(i as int))),
                pool.free_count() == pool0.free_count() + data_count(areas, i as int),
            decreases self.areas@.len() - i,
        {
            proof {
                assert(areas[i as int] == self.areas@[i as int]@);
                assert(areas[i as int].wf());
                assert forall|f: u64| #[trigger] areas[i as int].data_set().contains(f) implies pool.allocated(
                    f,
                ) by {
                    assert(pool0.allocated(f));
                    lemma_managed_by_extent(pool, &pool0, f);
                    assert(!pool0.free().contains(f));
                    if areas_data(areas.take(i as int)).contains(f) {
                        let k = choose|k: int|
                            0 <= k < areas.take(i as int).len() && (#[trigger] areas.take(
                                i as int,
                            )[k]).data_set().contains(f);
                        assert(areas[k].data_set().contains(f));
                    }
                    assert(!pool.free().contains(f));
                }
                lemma_areas_data_take(areas, i as int);
            }
            let ghost before = pool.free();
            self.areas[i].release_frames(pool);
            assert(pool.free() =~= pool0.free().union(areas_data(areas.take(i + 1))));
            i = i + 1;
        }
        assert(areas.take(areas.len() as int) =~= areas);
        self.areas.clear();
        proof {
            assert(self.areas() =~= Seq::<AreaView>::empty());
            assert forall|f: u64| #[trigger] ms0.table().table_frames().contains(
                f,
            ) implies !pool.free().contains(f) by {
                assert(pool0.allocated(f));
                assert(!pool0.free().contains(f));
                if areas_data(areas).contains(f) {
                    let k = choose|k: int|
                        0 <= k < areas.len() && (#[trigger] areas[k]).data_set().contains(f);
                    assert(areas[k].data_set().contains(f));
                }
            }
            lemma_table_kept(&ms0.table(), &pool0, pool);
        }
    }

    /// Give back all frames: those of the tables and those of the areas.
    pub fn release<M: PhysMemory>(self, pool: &mut FramePool<M>)
        requires
            old(pool).wf(),
            self.wf(old(pool)),
        ensures
            final(pool).wf(),
            final(pool).same_extent(old(pool)),
            final(pool).frames() == old(pool).frames(),
            final(pool).free() == old(pool).free().union(self.owned()),
            final(pool).free_count() == old(pool).free_count() + self.owned_count(),
    {
        let mut ms = self;
        ms.recycle_data_pages(pool);
        ms.page_table.release(pool);
        proof {
            assert(pool.free() =~= old(pool).free().union(self.owned()));
        }
    }
}

/// An address space is not affected by changes to frames that are not its
/// tables, as long as none of its frames is given back.
pub proof fn lemma_space_kept<M: PhysMemory>(
    ms: &MemorySet,
    pool0: &FramePool<M>,
    pool: &FramePool<M>,
)
    requires
        ms.wf(pool0),
        pool.same_extent(pool0),
        forall|f: u64| #[trigger]
            ms.table().table_frames().contains(f) ==> pool.frames()[f] == pool0.frames()[f],
        forall|f: u64| #[trigger] ms.owned().contains(f) ==> !pool.free().contains(f),
    ensures
        ms.wf(pool),
        ms.exact(pool0) ==> ms.exact(pool),
        ms.table().present(pool) == ms.table().present(pool0),
        forall|v: int|
            own_page(ms.table().slots(), v) ==> #[trigger] ms.table().leaf(pool, v)
                == ms.table().leaf(pool0, v),
{
    let areas = ms.areas();
    assert forall|f: u64| #[trigger] ms.table().table_frames().contains(
        f,
    ) implies !pool.free().contains(f) by {
        assert(ms.owned().contains(f));
    }
    lemma_table_kept(&ms.table(), pool0, pool);
    assert forall|i: int, v: int| 0 <= i < areas.len() && #[trigger] areas[i].contains(v) implies ms.table().leaf(
        pool,
        v,
    ) == Some(areas[i].entry(v)) by {
        assert(areas[i].wf());
        assert(own_page(ms.table().slots(), v));
        assert(ms.table().leaf(pool0, v) == Some(areas[i].entry(v)));
    }
    assert forall|i: int, f: u64| 0 <= i < areas.len() && #[trigger] areas[i].data_set().contains(
        f,
    ) implies pool.allocated(f) && !ms.table().table_frames().contains(f) by {
        assert(areas_data(areas).contains(f));
        assert(ms.owned().contains(f));
        assert(pool0.allocated(f));
        lemma_managed_by_extent(pool, pool0, f);
        assert(!pool.free().contains(f));
    }
    if ms.exact(pool0) {
        assert forall|v: int|
            own_page(ms.table().slots(), v) && (#[trigger] ms.table().mapped(pool, v))
                is Some implies exists|i: int|
            0 <= i < areas.len() && #[trigger] areas[i].contains(v) by {
            assert(ms.table().leaf(pool, v) == ms.table().leaf(pool0, v));
            assert(ms.table().mapped(pool0, v) is Some);
        }
    }
}

/// The frames of an address space are handed out.
pub proof fn lemma_owned_allocated<M: PhysMemory>(ms: &MemorySet, pool: &FramePool<M>, f: u64)
    requires
        ms.wf(pool),
        ms.owned().contains(f),
    ensures
        pool.allocated(f),
        !pool.free().contains(f),
{
    if areas_data(ms.areas()).contains(f) {
        let i = choose|i: int|
            0 <= i < ms.areas().len() && (#[trigger] ms.areas()[i]).data_set().contains(f);
        assert(ms.areas()[i].data_set().contains(f));
    }
}

/// The root entry from which on the physmap at `phys_offset` lies.
pub open spec fn physmap_slot(phys_offset: u64) -> int {
    (phys_offset as int / 0x80_0000_0000) % 512
}

proof fn lemma_areas_needed_mono(t: Set<(int, int)>, areas: Seq<AreaView>, i: int, n: int)
    requires
        0 <= i <= n,
    ensures
        areas_needed(t, areas, i) <= areas_needed(t, areas, n),
    decreases n - i,
{
    if i < n {
        lemma_areas_needed_mono(t, areas, i, n - 1);
    }
}

/// The names of the tables of an empty page table.
pub open spec fn bare_tables() -> Set<(int, int)> {
    set![(0int, 0int)]
}

/// `ms` is an address space made from free frames: it has the areas `areas`,
/// shares the root entries from `slots` on with the root `kernel_root`, and
/// nothing else was touched.
pub open spec fn space_made<M: PhysMemory>(
    ms: &MemorySet,
    pool: &FramePool<M>,
    pool0: &FramePool<M>,
    kernel_root: u64,
    slots: int,
    areas: Seq<AreaView>,
) -> bool {
    &&& ms.wf(pool)
    &&& ms.exact(pool)
    &&& ms.table().slots() == slots
    &&& ms.table().stale() == Seq::<u64>::empty()
    &&& configs(ms.areas()) == configs(areas)
    &&& pool.same_extent(pool0)
    &&& pool.free().subset_of(pool0.free())
    &&& ms.owned() == pool0.free().difference(pool.free())
    &&& pool.free_count() == pool0.free_count() - 1 - areas_needed(
        bare_tables(),
        areas,
        areas.len() as int,
    )
    &&& ms.table().present(pool) == areas_paths(bare_tables(), areas, areas.len() as int)
    &&& forall|f: u64|
        !pool0.free().contains(f) ==> #[trigger] pool.frames()[f] == pool0.frames()[f]
    &&& forall|i: int|
        slots <= i < 512 ==> #[trigger] pool.frames()[ms.root()][i]
            == pool0.frames()[kernel_root][i]
}

impl MemorySet {
    /// Share the kernel's high half and the physmap: the entries of the root
    /// from the physmap on become those of `kernel_root`.
    ///
    /// This covers the physmap itself, the windows of devices mapped after it,
    /// and the kernel's high half in the last entry.
    fn graft_kernel_entries<M: PhysMemory>(
        &mut self,
        pool: &mut FramePool<M>,
        kernel_root: u64,
        phys_offset: u64,
    )
        requires
            old(pool).wf(),
            old(self).wf(old(pool)),
            old(self).areas().len() == 0,
            old(self).table().slots() == 512,
            old(self).table().present(old(pool)) == bare_tables(),
            old(pool).frames().dom().contains(kernel_root),
            kernel_root != old(self).root(),
        ensures
            final(pool).wf(),
            final(self).wf(final(pool)),
            final(self).exact(final(pool)),
            final(self).areas() == old(self).areas(),
            final(self).root() == old(self).root(),
            final(self).table().slots() == physmap_slot(phys_offset),
            final(self).table().stale() == old(self).table().stale(),
            final(self).table().table_frames() == old(self).table().table_frames(),
            final(self).table().table_count() == old(self).table().table_count(),
            final(self).table().present(final(pool)) == bare_tables(),
            final(pool).allocator@ == old(pool).allocator@,
            final(pool).same_extent(old(pool)),
            forall|f: u64|
                f != old(self).root() ==> #[trigger] final(pool).frames()[f]
                    == old(pool).frames()[f],
            forall|i: int|
                physmap_slot(phys_offset) <= i < 512 ==> #[trigger] final(
                    pool).frames()[old(self).root()][i] == old(pool).frames()[kernel_root][i],
    {
        let physmap_idx: usize = ((phys_offset / 0x80_0000_0000) % 512) as usize;
        self.page_table.share_root(pool, kernel_root, physmap_idx);
        proof {
            assert forall|v: int|
                own_page(self.table().slots(), v) implies #[trigger] self.table().mapped(
                pool,
                v,
            ) is None by {
                assert(self.table().leaf(pool, v) is None);
            }
        }
    }

    /// Start a user address space: no areas yet, the kernel's part shared.
    fn new_user<M: PhysMemory>(pool: &mut FramePool<M>, kernel_root: u64, phys_offset: u64) -> (r:
        Self)
        requires
            old(pool).wf(),
            old(pool).free_count() >= 1,
            old(pool).allocated(kernel_root),
        ensures
            final(pool).wf(),
            space_made(
                &r,
                final(pool),
                old(pool),
                kernel_root,
                physmap_slot(phys_offset),
                Seq::empty(),
            ),
            r.areas() == Seq::<AreaView>::empty(),
            r.table().table_count() == 1,
    {
        let ghost pool0 = *pool;
        let mut r = Self::new_bare(pool);
        let ghost pool1 = *pool;
        r.graft_kernel_entries(pool, kernel_root, phys_offset);
        proof {
            assert(areas_data(r.areas()) =~= Set::empty());
            assert(r.owned() =~= pool0.free().difference(pool.free()));
            assert(configs(r.areas()) =~= configs(Seq::empty()));
            assert forall|f: u64|
                !pool0.free().contains(f) implies #[trigger] pool.frames()[f] == pool0.frames()[f] by {
                assert(pool1.frames()[f] == pool0.frames()[f]);
            }
            assert(pool1.frames()[kernel_root] == pool0.frames()[kernel_root]);
        }
        r
    }
}

proof fn lemma_areas_needed_prefix(
    t: Set<(int, int)>,
    a: Seq<AreaView>,
    b: Seq<AreaView>,
    n: int,
)
    requires
        0 <= n <= a.len(),
        n <= b.len(),
        forall|i: int| 0 <= i < n ==> config(#[trigger] a[i]) == config(b[i]),
    ensures
        areas_needed(t, a, n) == areas_needed(t, b, n),
        areas_paths(t, a, n) == areas_paths(t, b, n),
    decreases n,
{
    if n > 0 {
        lemma_areas_needed_prefix(t, a, b, n - 1);
        assert(config(a[n - 1]) == config(b[n - 1]));
        let ca = config(a[n - 1]);
        let cb = config(b[n - 1]);
        assert(ca.start == cb.start && ca.end == cb.end && ca.map_type == cb.map_type);
        assert(a[n - 1].per_page() == b[n - 1].per_page());
    }
}

/// A complete address space maps a new area only where it has none.
pub proof fn lemma_area_mappable<M: PhysMemory>(ms: &MemorySet, pool: &FramePool<M>, a: AreaView)
    requires
        ms.wf(pool),
        ms.exact(pool),
        0 <= a.start <= a.end <= ms.table().slots() * 0x800_0000,
        a.data == Map::<int, u64>::empty(),
        forall|v: int| a.contains(v) ==> #[trigger] a.linear_ok(v),
        forall|i: int, v: int|
            0 <= i < ms.areas().len() && #[trigger] ms.areas()[i].contains(v) ==> !a.contains(v),
        pool.free_count() >= frames_needed(
            ms.table().present(pool),
            a.start,
            a.end,
            a.per_page(),
        ),
    ensures
        pages_mappable(a, &ms.table(), pool, a.start, a.end),
{
    assert forall|v: int| a.start <= v < a.end implies #[trigger] ms.table().mapped(pool, v) is None by {
        if ms.table().mapped(pool, v) is Some {
            assert(own_page(ms.table().slots(), v));
            let i = choose|i: int| 0 <= i < ms.areas().len() && #[trigger] ms.areas()[i].contains(v);
            assert(!a.contains(v));
        }
    }
    assert forall|v: int| a.start <= v < a.end implies #[trigger] a.linear_ok(v) by {
        assert(a.contains(v));
    }
}

proof fn lemma_user_space_step<M: PhysMemory>(
    ms: &MemorySet,
    pool: &FramePool<M>,
    ms1: &MemorySet,
    pool1: &FramePool<M>,
    pool0: &FramePool<M>,
    kernel_root: u64,
    slots: int,
    areas: Seq<AreaView>,
    a: AreaView,
    data: Option<Seq<u8>>,
)
    requires
        space_made(ms1, pool1, pool0, kernel_root, slots, areas),
        pool0.wf(),
        pool1.wf(),
        pool.wf(),
        pushed(ms, pool, ms1, pool1, config(a), data),
        ms.wf(pool),
        ms.exact(pool),
        ms.owned().union(pool.free()) == ms1.owned().union(pool1.free()),
    ensures
        space_made(ms, pool, pool0, kernel_root, slots, areas.push(a)),
        forall|f: u64|
            areas_data(ms1.areas()).contains(f) ==> #[trigger] pool.frames()[f]
                == pool1.frames()[f],
{
    let n = areas.len() as int;
    let new = ms.areas()[ms1.areas().len() as int];
    assert(configs(ms1.areas()).len() == configs(areas).len());
    assert(ms1.areas().len() == n);
    assert(configs(ms.areas()) =~= configs(areas.push(a))) by {
        assert forall|i: int| 0 <= i < n + 1 implies config(ms.areas()[i]) == config(
            areas.push(a)[i],
        ) by {
            if i < n {
                assert(configs(ms1.areas())[i] == configs(areas)[i]);
            }
        }
    }
    lemma_areas_needed_prefix(bare_tables(), areas, areas.push(a), n);
    assert(areas.push(a)[n] == a);
    assert(areas_needed(bare_tables(), areas.push(a), n + 1) == areas_needed(
        bare_tables(),
        areas.push(a),
        n,
    ) + frames_needed(
        areas_paths(bare_tables(), areas.push(a), n),
        a.start,
        a.end,
        a.per_page(),
    ));
    assert(config(a).per_page() == a.per_page());
    assert(ms.owned() =~= pool0.free().difference(pool.free())) by {
        assert forall|f: u64| ms.owned().contains(f) == pool0.free().difference(
            pool.free(),
        ).contains(f) by {
            assert(ms.owned().union(pool.free()).contains(f) == ms1.owned().union(
                pool1.free(),
            ).contains(f));
            if ms.owned().contains(f) {
                lemma_owned_allocated(ms, pool, f);
            }
            assert(ms1.owned().contains(f) == pool0.free().difference(pool1.free()).contains(f));
            assert(pool1.free().contains(f) ==> pool0.free().contains(f));
            assert(ms.owned().union(pool.free()).contains(f) == pool0.free().contains(f));
        }
    }
    assert forall|f: u64| !pool0.free().contains(f) implies #[trigger] pool.frames()[f]
        == pool0.frames()[f] by {
        assert(pool1.frames()[f] == pool0.frames()[f]);
        assert(!ms1.owned().contains(f));
        assert(!ms1.table().table_frames().contains(f));
    }
    assert forall|f: u64| areas_data(ms1.areas()).contains(f) implies #[trigger] pool.frames()[f]
        == pool1.frames()[f] by {
        let i = choose|i: int|
            0 <= i < ms1.areas().len() && (#[trigger] ms1.areas()[i]).data_set().contains(f);
        assert(ms1.areas()[i].data_set().contains(f));
        assert(pool1.allocated(f));
    }
    assert forall|i: int| slots <= i < 512 implies #[trigger] pool.frames()[ms.root()][i]
        == pool0.frames()[kernel_root][i] by {
        assert(pool1.frames()[ms1.root()][i] == pool0.frames()[kernel_root][i]);
    }
}

/// Whether page `v` of area `i` of `ms` holds what the same page of `ms0` held.
pub open spec fn same_contents<M: PhysMemory>(
    ms: &MemorySet,
    pool: &FramePool<M>,
    ms0: &MemorySet,
    pool0: &FramePool<M>,
    i: int,
    v: int,
) -> bool {
    pool.frames()[ms.areas()[i].data[v]] == pool0.frames()[ms0.areas()[i].data[v]]
}

impl MemorySet {
    /// Copy a user address space: the new one has the same areas, and its pages
    /// hold the same bytes in frames of their own.
    pub fn from_existed_user<M: PhysMemory>(
        user_space: &Self,
        pool: &mut FramePool<M>,
        kernel_root: u64,
        phys_offset: u64,
    ) -> (r: Self)
        requires
            old(pool).wf(),
            user_space.wf(old(pool)),
            old(pool).allocated(kernel_root),
            forall|i: int|
                0 <= i < user_space.areas().len() ==> (#[trigger] user_space.areas()[i]).framed()
                    && user_space.areas()[i].end <= physmap_slot(phys_offset) * 0x800_0000,
            old(pool).free_count() >= 1 + areas_needed(
                bare_tables(),
                user_space.areas(),
                user_space.areas().len() as int,
            ),
        ensures
            final(pool).wf(),
            user_space.wf(final(pool)),
            user_space.exact(old(pool)) ==> user_space.exact(final(pool)),
            space_made(
                &r,
                final(pool),
                old(pool),
                kernel_root,
                physmap_slot(phys_offset),
                user_space.areas(),
            ),
            forall|i: int, v: int|
                0 <= i < user_space.areas().len() && #[trigger] user_space.areas()[i].contains(v)
                    ==> same_contents(&r, final(pool), user_space, old(pool), i, v),
            grants(&r, final(pool)),
    {
        let ghost pool0 = *pool;
        let ghost slots = physmap_slot(phys_offset);
        let ghost areas = user_space.areas();
        let mut memory_set = Self::new_user(pool, kernel_root, phys_offset);
        let mut i: usize = 0;
        assert(areas.take(0) =~= Seq::empty());
        while i < user_space.areas.len()
            invariant
                i <= user_space.areas@.len(),
                areas == user_space.areas(),
                slots == physmap_slot(phys_offset),
                pool0.wf(),
                pool.wf(),
                user_space.wf(&pool0),
                pool0.allocated(kernel_root),
                pool0.free_count() >= 1 + areas_needed(bare_tables(), areas, areas.len() as int),
                forall|k: int|
                    0 <= k < areas.len() ==> (#[trigger] areas[k]).framed() && areas[k].end <= slots
                        * 0x800_0000,
                space_made(
                    &memory_set,
                    pool,
                    &pool0,
                    kernel_root,
                    slots,
                    areas.take(i as int),
                ),
                forall|k: int, v: int|
                    0 <= k < i && #[trigger] areas[k].contains(v) ==> same_contents(
                        &memory_set,
                        pool,
                        user_space,
                        &pool0,
                        k,
                        v,
                    ),
            decreases user_space.areas@.len() - i,
        {
            let ghost idx = i as int;
            let ghost ms1 = memory_set;
            let ghost pool1 = *pool;
            proof {
                assert(areas[idx] == user_space.areas@[idx]@);
                assert(areas[idx].wf());
                assert(configs(ms1.areas()).len() == configs(areas.take(idx)).len());
            }
            let area: &MapArea = &user_space.areas[i];
            let new_area = MapArea::from_another(area);
            proof {
                lemma_copy_step(user_space, &ms1, pool, &pool0, kernel_root, slots, idx);
            }
            memory_set.push(pool, new_area, None);
            let ghost pool2 = *pool;
            proof {
                lemma_user_space_step(
                    &memory_set,
                    pool,
                    &ms1,
                    &pool1,
                    &pool0,
                    kernel_root,
                    slots,
                    areas.take(idx),
                    areas[idx],
                    None,
                );
                assert(areas.take(idx + 1) =~= areas.take(idx).push(areas[idx]));
                assert forall|k: int, v: int| 0 <= k < idx && #[trigger] areas[k].contains(
                    v,
                ) implies same_contents(&memory_set, pool, user_space, &pool0, k, v) by {
                    assert(configs(ms1.areas())[k] == configs(areas.take(idx))[k]);
                    assert(config(ms1.areas()[k]) == config(areas[k]));
                    lemma_page_frame(&ms1, &pool1, k, v, config(areas[k]));
                    assert(same_contents(&ms1, &pool1, user_space, &pool0, k, v));
                    assert(memory_set.areas()[k] == ms1.areas()[k]);
                }
            }
            let end: VirtPageNum = area.end();
            let mut vpn: VirtPageNum = area.start();
            while vpn.0 < end.0
                invariant
                    0 <= idx < areas.len(),
                    areas == user_space.areas(),
                    areas[idx].wf(),
                    areas[idx].framed(),
                    end.0 == areas[idx].end,
                    areas[idx].start <= vpn.0 <= areas[idx].end,
                    areas[idx].end <= slots * 0x800_0000,
                    0 <= slots <= 512,
                    forall|k: int| 0 <= k <= idx ==> (#[trigger] areas[k]).framed(),
                    pool0.wf(),
                    pool.wf(),
                    user_space.wf(&pool0),
                    space_made(
                        &memory_set,
                        pool,
                        &pool0,
                        kernel_root,
                        slots,
                        areas.take(idx + 1),
                    ),
                    forall|k: int, v: int|
                        0 <= k <= idx && #[trigger] areas[k].contains(v) && (k < idx || v < vpn.0)
                            ==> same_contents(&memory_set, pool, user_space, &pool0, k, v),
                decreases end.0 - vpn.0,
            {
                let ghost cur = vpn.0 as int;
                let ghost pool3 = *pool;
                proof {
                    assert(areas[idx].contains(cur));
                    lemma_user_reads(user_space, &memory_set, pool, &pool0, kernel_root, slots, idx, cur);
                }
                let src_ppn = user_space.translate(&pool.mem, vpn).unwrap().ppn();
                let dst_ppn = memory_set.translate(&pool.mem, vpn).unwrap().ppn();
                copy_frame(&mut pool.mem, dst_ppn.0, src_ppn.0);
                proof {
                    lemma_copied(
                        user_space,
                        &memory_set,
                        pool,
                        &pool3,
                        &pool0,
                        kernel_root,
                        slots,
                        areas.take(idx + 1),
                        idx,
                        cur,
                    );
                }
                vpn.step();
            }
            i = i + 1;
        }
        proof {
            assert(areas.take(areas.len() as int) =~= areas);
            lemma_user_kept(user_space, &memory_set, pool, &pool0, kernel_root, slots, areas);
        }
        proof {
            areas_grant_their_permissions(&memory_set, pool);
        }
        memory_set
    }
}

proof fn lemma_user_kept<M: PhysMemory>(
    user: &MemorySet,
    ms: &MemorySet,
    pool: &FramePool<M>,
    pool0: &FramePool<M>,
    kernel_root: u64,
    slots: int,
    areas: Seq<AreaView>,
)
    requires
        user.wf(pool0),
        space_made(ms, pool, pool0, kernel_root, slots, areas),
    ensures
        user.wf(pool),
        user.exact(pool0) ==> user.exact(pool),
        forall|v: int|
            own_page(user.table().slots(), v) ==> #[trigger] user.table().leaf(pool, v)
                == user.table().leaf(pool0, v),
{
    assert forall|f: u64| #[trigger] user.owned().contains(f) implies !pool.free().contains(f) by {
        lemma_owned_allocated(user, pool0, f);
    }
    assert forall|f: u64| #[trigger] user.table().table_frames().contains(f) implies pool.frames()[f]
        == pool0.frames()[f] by {
        assert(user.owned().contains(f));
        lemma_owned_allocated(user, pool0, f);
    }
    lemma_space_kept(user, pool0, pool);
}

/// The frame of page `v` of area `k`, which looks like `a`, is one of the
/// frames of the areas.
pub proof fn lemma_page_frame<M: PhysMemory>(
    ms: &MemorySet,
    pool: &FramePool<M>,
    k: int,
    v: int,
    a: AreaView,
)
    requires
        ms.wf(pool),
        0 <= k < ms.areas().len(),
        config(ms.areas()[k]) == a,
        a.framed(),
        a.contains(v),
    ensures
        ms.areas()[k].data.dom().contains(v),
        ms.areas()[k].data_set().contains(ms.areas()[k].data[v]),
        areas_data(ms.areas()).contains(ms.areas()[k].data[v]),
        ms.owned().contains(ms.areas()[k].data[v]),
        pool.allocated(ms.areas()[k].data[v]),
{
    let area = ms.areas()[k];
    assert(area.wf());
    assert(area.start == a.start && area.end == a.end && area.map_type == a.map_type);
    assert(area.data.dom().contains(v));
    assert(area.data_set().contains(area.data[v]));
    assert(ms.areas()[k].data_set().contains(area.data[v]));
}

proof fn lemma_copy_step<M: PhysMemory>(
    user: &MemorySet,
    ms: &MemorySet,
    pool: &FramePool<M>,
    pool0: &FramePool<M>,
    kernel_root: u64,
    slots: int,
    idx: int,
)
    requires
        user.wf(pool0),
        0 <= idx < user.areas().len(),
        0 <= slots <= 512,
        forall|k: int|
            0 <= k < user.areas().len() ==> (#[trigger] user.areas()[k]).framed()
                && user.areas()[k].end <= slots * 0x800_0000,
        pool0.free_count() >= 1 + areas_needed(
            bare_tables(),
            user.areas(),
            user.areas().len() as int,
        ),
        space_made(ms, pool, pool0, kernel_root, slots, user.areas().take(idx)),
    ensures
        pages_mappable(
            config(user.areas()[idx]),
            &ms.table(),
            pool,
            user.areas()[idx].start,
            user.areas()[idx].end,
        ),
{
    let areas = user.areas();
    let a = config(areas[idx]);
    assert(areas[idx].wf() && areas[idx].framed());
    lemma_areas_needed_prefix(bare_tables(), areas, areas.take(idx), idx);
    lemma_areas_needed_mono(bare_tables(), areas, idx + 1, areas.len() as int);
    assert(a.per_page() == areas[idx].per_page());
    assert forall|i: int, v: int| 0 <= i < ms.areas().len() && #[trigger] ms.areas()[i].contains(
        v,
    ) implies !a.contains(v) by {
        assert(configs(ms.areas()).len() == configs(areas.take(idx)).len());
        assert(configs(ms.areas())[i] == configs(areas.take(idx))[i]);
        assert(config(ms.areas()[i]).start == config(areas[i]).start);
        assert(config(ms.areas()[i]).end == config(areas[i]).end);
        assert(areas[i].contains(v));
        if a.contains(v) {
            assert(areas[idx].contains(v));
        }
    }
    lemma_area_mappable(ms, pool, a);
}

proof fn lemma_user_reads<M: PhysMemory>(
    user: &MemorySet,
    ms: &MemorySet,
    pool: &FramePool<M>,
    pool0: &FramePool<M>,
    kernel_root: u64,
    slots: int,
    idx: int,
    v: int,
)
    requires
        user.wf(pool0),
        pool0.wf(),
        pool.wf(),
        0 <= idx < user.areas().len(),
        0 <= slots <= 512,
        user.areas()[idx].framed(),
        user.areas()[idx].end <= slots * 0x800_0000,
        user.areas()[idx].contains(v),
        space_made(ms, pool, pool0, kernel_root, slots, user.areas().take(idx + 1)),
    ensures
        walkable(pool.frames(), user.root(), v),
        walkable(pool.frames(), ms.root(), v),
        leaf(pool.frames(), user.root(), v) is Some,
        leaf(pool.frames(), ms.root(), v) is Some,
        pte_ppn(leaf(pool.frames(), user.root(), v)->Some_0) == user.areas()[idx].data[v],
        pte_ppn(leaf(pool.frames(), ms.root(), v)->Some_0) == ms.areas()[idx].data[v],
        pool.frames().dom().contains(user.areas()[idx].data[v]),
        pool.frames().dom().contains(ms.areas()[idx].data[v]),
        v < VPN_LIMIT,
{
    let areas = user.areas();
    lemma_user_kept(user, ms, pool, pool0, kernel_root, slots, areas.take(idx + 1));
    assert(areas[idx].wf());
    assert(configs(ms.areas()).len() == configs(areas.take(idx + 1)).len());
    assert(configs(ms.areas())[idx] == configs(areas.take(idx + 1))[idx]);
    let a = config(areas[idx]);
    assert(config(ms.areas()[idx]) == a);
    lemma_page_frame(user, pool, idx, v, a);
    lemma_page_frame(ms, pool, idx, v, a);
    assert(ms.areas()[idx].wf());
    assert(ms.areas()[idx].start == a.start && ms.areas()[idx].end == a.end
        && ms.areas()[idx].map_type == a.map_type);
    assert(ms.areas()[idx].contains(v));
    lemma_own_walkable(
        pool.frames(),
        user.root(),
        user.table().slots(),
        user.table().table_frames(),
        v,
    );
    lemma_own_walkable(pool.frames(), ms.root(), slots, ms.table().table_frames(), v);
    pool.mem.frames_wf();
    lemma_perm_flags(areas[idx].perm);
    lemma_perm_flags(ms.areas()[idx].perm);
    pte_reads_back(areas[idx].data[v], perm_flags(areas[idx].perm));
    pte_reads_back(ms.areas()[idx].data[v], perm_flags(ms.areas()[idx].perm));
    assert(user.table().leaf(pool, v) == Some(areas[idx].entry(v)));
    assert(ms.table().leaf(pool, v) == Some(ms.areas()[idx].entry(v)));
}

proof fn lemma_copied<M: PhysMemory>(
    user: &MemorySet,
    ms: &MemorySet,
    pool: &FramePool<M>,
    pool3: &FramePool<M>,
    pool0: &FramePool<M>,
    kernel_root: u64,
    slots: int,
    made: Seq<AreaView>,
    idx: int,
    cur: int,
)
    requires
        user.wf(pool0),
        pool0.wf(),
        pool3.wf(),
        0 <= idx < user.areas().len(),
        made == user.areas().take(idx + 1),
        user.areas()[idx].framed(),
        user.areas()[idx].contains(cur),
        space_made(ms, pool3, pool0, kernel_root, slots, made),
        pool.allocator == pool3.allocator,
        pool.frames() == pool3.frames().insert(
            ms.areas()[idx].data[cur],
            pool3.frames()[user.areas()[idx].data[cur]],
        ),
        pool3.frames().dom().contains(ms.areas()[idx].data[cur]),
        forall|k: int, v: int|
            0 <= k <= idx && #[trigger] user.areas()[k].contains(v) && (k < idx || v < cur)
                ==> same_contents(ms, pool3, user, pool0, k, v),
        forall|k: int| 0 <= k <= idx ==> (#[trigger] user.areas()[k]).framed(),
    ensures
        pool.wf(),
        space_made(ms, pool, pool0, kernel_root, slots, made),
        forall|k: int, v: int|
            0 <= k <= idx && #[trigger] user.areas()[k].contains(v) && (k < idx || v < cur + 1)
                ==> same_contents(ms, pool, user, pool0, k, v),
{
    let areas = user.areas();
    let dst = ms.areas()[idx].data[cur];
    let src = areas[idx].data[cur];
    assert(configs(ms.areas()).len() == configs(made).len());
    assert forall|k: int| 0 <= k <= idx implies config(#[trigger] ms.areas()[k]) == config(areas[k]) by {
        assert(configs(ms.areas())[k] == configs(made)[k]);
    }
    lemma_page_frame(ms, pool3, idx, cur, config(areas[idx]));
    lemma_page_frame(user, pool0, idx, cur, config(areas[idx]));
    assert(pool.frames().dom() =~= pool3.frames().dom());
    assert(!ms.table().table_frames().contains(dst)) by {
        assert(ms.areas()[idx].data_set().contains(dst));
    }
    lemma_root_is_table(&ms.table(), pool3);
    lemma_table_kept_mem(&ms.table(), pool3, pool);
    assert forall|f: u64| #[trigger] ms.owned().contains(f) implies !pool.free().contains(f) by {
        lemma_owned_allocated(ms, pool3, f);
    }
    lemma_space_kept(ms, pool3, pool);
    assert(pool.free() =~= pool3.free());
    assert(pool0.free().contains(dst)) by {
        assert(ms.owned().contains(dst));
    }
    assert forall|f: u64| !pool0.free().contains(f) implies #[trigger] pool.frames()[f]
        == pool0.frames()[f] by {
        assert(pool3.frames()[f] == pool0.frames()[f]);
    }
    assert(!pool0.free().contains(src));
    assert(pool3.frames()[src] == pool0.frames()[src]);
    assert forall|i: int| slots <= i < 512 implies #[trigger] pool.frames()[ms.root()][i]
        == pool0.frames()[kernel_root][i] by {
        assert(pool3.frames()[ms.root()][i] == pool0.frames()[kernel_root][i]);
        assert(ms.root() != dst);
    }
    assert forall|k: int, v: int|
        0 <= k <= idx && #[trigger] areas[k].contains(v) && (k < idx || v < cur + 1) implies same_contents(
        ms,
        pool,
        user,
        pool0,
        k,
        v,
    ) by {
        if k == idx && v == cur {
        } else {
            assert(same_contents(ms, pool3, user, pool0, k, v));
            lemma_page_frame(ms, pool3, k, v, config(areas[k]));
            let f = ms.areas()[k].data[v];
            if f == dst {
                assert(ms.areas()[k].data_set().contains(f) && ms.areas()[idx].data_set().contains(
                    f,
                ));
                assert(ms.areas()[idx].wf());
            }
        }
    }
}

/// Byte `j` of page `v` of area `k` is what the piece of the image says.
pub open spec fn filled_as<M: PhysMemory>(
    ms: &MemorySet,
    pool: &FramePool<M>,
    segments: Seq<Segment>,
    k: int,
    v: int,
    j: int,
) -> bool {
    frame_byte(pool.frames()[ms.areas()[k].data[v]], j) == initial_byte(
        segments[k].fill,
        (v - segments[k].area.start) * 0x1000 + j,
    )
}

/// The address space holds the pieces of the image.
pub open spec fn holds_segments<M: PhysMemory>(
    ms: &MemorySet,
    pool: &FramePool<M>,
    segments: Seq<Segment>,
) -> bool {
    forall|k: int, v: int, j: int|
        0 <= k < segments.len() && segments[k].area.contains(v) && 0 <= j < 0x1000
            ==> #[trigger] filled_as(ms, pool, segments, k, v, j)
}

proof fn lemma_segments_step<M: PhysMemory>(
    ms: &MemorySet,
    pool: &FramePool<M>,
    ms1: &MemorySet,
    pool1: &FramePool<M>,
    pool0: &FramePool<M>,
    kernel_root: u64,
    slots: int,
    segments: Seq<Segment>,
    piece: Segment,
)
    requires
        space_made(ms1, pool1, pool0, kernel_root, slots, segment_areas(segments)),
        pool0.wf(),
        pool1.wf(),
        pool.wf(),
        holds_segments(ms1, pool1, segments),
        forall|k: int| 0 <= k < segments.len() ==> (#[trigger] segments[k]).area.framed(),
        piece.area.framed(),
        piece.area.data == Map::<int, u64>::empty(),
        pushed(ms, pool, ms1, pool1, piece.area, piece.fill),
        ms.wf(pool),
        ms.exact(pool),
        ms.owned().union(pool.free()) == ms1.owned().union(pool1.free()),
    ensures
        space_made(ms, pool, pool0, kernel_root, slots, segment_areas(segments.push(piece))),
        holds_segments(ms, pool, segments.push(piece)),
{
    let n = segments.len() as int;
    let all = segments.push(piece);
    assert(config(piece.area) =~= piece.area);
    lemma_user_space_step(
        ms,
        pool,
        ms1,
        pool1,
        pool0,
        kernel_root,
        slots,
        segment_areas(segments),
        piece.area,
        piece.fill,
    );
    assert(segment_areas(all) =~= segment_areas(segments).push(piece.area));
    assert(configs(ms1.areas()).len() == configs(segment_areas(segments)).len());
    assert forall|k: int, v: int, j: int|
        0 <= k < all.len() && all[k].area.contains(v) && 0 <= j < 0x1000 implies #[trigger] filled_as(
        ms,
        pool,
        all,
        k,
        v,
        j,
    ) by {
        if k < n {
            assert(filled_as(ms1, pool1, segments, k, v, j));
            assert(configs(ms1.areas())[k] == configs(segment_areas(segments))[k]);
            assert(segments[k].area.framed());
            lemma_page_frame(ms1, pool1, k, v, config(segments[k].area));
            assert(ms.areas()[k] == ms1.areas()[k]);
        } else {
            let new = ms.areas()[n];
            assert(new.start == piece.area.start && new.end == piece.area.end && new.map_type
                == piece.area.map_type);
            assert(frame_byte(pool.frames()[new.data[v]], j) == initial_byte(
                piece.fill,
                (v - new.start) * 0x1000 + j,
            ));
        }
    }
}

proof fn lemma_segment_mappable<M: PhysMemory>(
    ms: &MemorySet,
    pool: &FramePool<M>,
    pool0: &FramePool<M>,
    kernel_root: u64,
    slots: int,
    segments: Seq<Segment>,
    all: Seq<Segment>,
)
    requires
        space_made(ms, pool, pool0, kernel_root, slots, segment_areas(segments)),
        segments.len() < all.len(),
        forall|k: int| 0 <= k < segments.len() ==> segments[k] == #[trigger] all[k],
        segments_apart(all, slots),
        all[segments.len() as int].area.framed(),
        all[segments.len() as int].area.data == Map::<int, u64>::empty(),
        pool0.free_count() >= 1 + areas_needed(
            bare_tables(),
            segment_areas(all),
            all.len() as int,
        ),
    ensures
        ({
            let a = all[segments.len() as int].area;
            pages_mappable(a, &ms.table(), pool, a.start, a.end)
        }),
{
    let n = segments.len() as int;
    let a = all[n].area;
    let areas = segment_areas(all);
    lemma_areas_needed_prefix(bare_tables(), areas, segment_areas(segments), n);
    lemma_areas_needed_mono(bare_tables(), areas, n + 1, all.len() as int);
    assert(areas[n] == a);
    assert(configs(ms.areas()).len() == configs(segment_areas(segments)).len());
    assert forall|i: int, v: int| 0 <= i < ms.areas().len() && #[trigger] ms.areas()[i].contains(
        v,
    ) implies !a.contains(v) by {
        assert(configs(ms.areas())[i] == configs(segment_areas(segments))[i]);
        assert(config(ms.areas()[i]).start == config(segments[i].area).start);
        assert(config(ms.areas()[i]).end == config(segments[i].area).end);
        assert(all[i].area.contains(v));
        if a.contains(v) {
            assert(all[n].area.contains(v));
        }
    }
    lemma_area_mappable(ms, pool, a);
}

/// The image of the first program headers is the start of the whole image.
proof fn lemma_load_segments_prefix(b: Seq<u8>, i: int, n: int)
    requires
        0 <= i <= n,
    ensures
        load_segments(b, i).len() <= load_segments(b, n).len(),
        forall|k: int|
            0 <= k < load_segments(b, i).len() ==> load_segments(b, i)[k] == #[trigger] load_segments(
                b,
                n,
            )[k],
        forall|k: int|
            0 <= k < load_segments(b, n).len() ==> (#[trigger] load_segments(b, n)[k]).area.framed()
                && load_segments(b, n)[k].area.data == Map::<int, u64>::empty(),
    decreases n,
{
    if i < n {
        lemma_load_segments_prefix(b, i, n - 1);
    } else if n > 0 {
        lemma_load_segments_prefix(b, n - 1, n - 1);
    }
}

/// The table of a page exists if it is that of a page of a piece.
proof fn lemma_anchored<M: PhysMemory>(
    ms: &MemorySet,
    pool: &FramePool<M>,
    done: Seq<Segment>,
    page: int,
)
    requires
        ms.wf(pool),
        configs(ms.areas()) == configs(segment_areas(done)),
        anchored(done, page),
    ensures
        own_page(ms.table().slots(), page),
        ms.table().leaf(pool, page) is Some,
{
    let (k, v) = choose|k: int, v: int|
        0 <= k < done.len() && #[trigger] done[k].area.contains(v) && v / 512 == page / 512;
    assert(configs(ms.areas()).len() == ms.areas().len());
    assert(configs(segment_areas(done)).len() == done.len());
    assert(configs(ms.areas())[k] == config(ms.areas()[k]));
    assert(configs(segment_areas(done))[k] == config(done[k].area));
    assert(config(ms.areas()[k]).start == done[k].area.start);
    assert(config(ms.areas()[k]).end == done[k].area.end);
    assert(ms.areas()[k].contains(v));
    assert(ms.table().leaf(pool, v) is Some);
    lemma_root_is_table(&ms.table(), pool);
}

impl MemorySet {
    /// Make the address space of the program in an ELF file: its loadable
    /// segments and, one guard page above the last of them, the user stack.
    /// Also returns the top of the user stack and the entry point.
    pub fn from_elf<M: PhysMemory>(
        elf_data: &[u8],
        pool: &mut FramePool<M>,
        kernel_root: u64,
        phys_offset: u64,
    ) -> (r: (Self, u64, u64))
        requires
            old(pool).wf(),
            old(pool).allocated(kernel_root),
            loadable(elf_data@, physmap_slot(phys_offset)),
            old(pool).free_count() >= 1 + areas_needed(
                bare_tables(),
                segment_areas(image_segments(elf_data@)),
                image_segments(elf_data@).len() as int,
            ),
        ensures
            final(pool).wf(),
            space_made(
                &r.0,
                final(pool),
                old(pool),
                kernel_root,
                physmap_slot(phys_offset),
                segment_areas(image_segments(elf_data@)),
            ),
            holds_segments(&r.0, final(pool), image_segments(elf_data@)),
            r.1 == image_stack_bottom(elf_data@) + USER_STACK_SIZE,
            r.2 == elf_entry(elf_data@),
            grants(&r.0, final(pool)),
    {
        let ghost b = elf_data@;
        let ghost pool0 = *pool;
        let ghost slots = physmap_slot(phys_offset);
        let ghost all = image_segments(b);
        let mut memory_set = Self::new_user(pool, kernel_root, phys_offset);
        let elf_header = elf_header(elf_data).unwrap();
        let ph_count: u16 = elf_header.ph_count;
        let mut max_end_vpn = VirtPageNum(0);
        let mut i: u16 = 0;
        assert(segment_areas(load_segments(b, 0)) =~= Seq::empty());
        while i < ph_count
            invariant
                i <= ph_count,
                ph_count == elf_ph_count(b),
                b == elf_data@,
                slots == physmap_slot(phys_offset),
                all == image_segments(b),
                loadable(b, slots),
                pool0.wf(),
                pool.wf(),
                pool0.free_count() >= 1 + areas_needed(
                    bare_tables(),
                    segment_areas(all),
                    all.len() as int,
                ),
                space_made(
                    &memory_set,
                    pool,
                    &pool0,
                    kernel_root,
                    slots,
                    segment_areas(load_segments(b, i as int)),
                ),
                holds_segments(&memory_set, pool, load_segments(b, i as int)),
                max_end_vpn.0 == (if load_segments(b, i as int).len() == 0 {
                    0
                } else {
                    load_segments(b, i as int).last().area.end
                }),
            decreases ph_count - i,
        {
            proof {
                assert(segment_at(b, i as int) is Some);
                lemma_load_segments_prefix(b, i as int, elf_ph_count(b));
                lemma_load_segments_prefix(b, i + 1, elf_ph_count(b));
            }
            let ph: SegmentHeader = elf_segment(elf_data, i).unwrap();
            if ph.load {
                let ghost done = load_segments(b, i as int);
                let ghost piece = load_segment(b, ph);
                let start_va = VirtAddr::new(ph.virtual_addr);
                let end_va = VirtAddr::new(ph.virtual_addr + ph.mem_size);
                proof {
                    assert(forall|x: u8| #![trigger x | 0] x | 0 == x) by (bit_vector);
                }
                let mut map_perm = MapPermission { bits: MAP_U };
                if ph.flags & 4 == 4 {
                    map_perm = map_perm.union(MapPermission { bits: MAP_R });
                }
                if ph.flags & 2 == 2 {
                    map_perm = map_perm.union(MapPermission { bits: MAP_W });
                }
                if ph.flags & 1 == 1 {
                    map_perm = map_perm.union(MapPermission { bits: MAP_X });
                }
                let map_area = MapArea::new(start_va, end_va, MapType::Framed, map_perm);
                max_end_vpn = map_area.end();
                let len: usize = elf_data.len();
                let from: usize = ph.offset as usize;
                let to: usize = (ph.offset + ph.file_size) as usize;
                let ghost ms1 = memory_set;
                let ghost pool1 = *pool;
                proof {
                    assert(map_area@ =~= piece.area);
                    let n = done.len() as int;
                    assert(load_segments(b, i + 1) == done.push(piece));
                    assert(load_segments(b, i + 1)[n] == piece);
                    assert(all[n] == load_segments(b, elf_ph_count(b))[n]);
                    assert forall|k: int| 0 <= k < done.len() implies done[k] == #[trigger] all[k] by {
                        assert(all[k] == load_segments(b, elf_ph_count(b))[k]);
                    }
                    lemma_segment_mappable(
                        &memory_set,
                        pool,
                        &pool0,
                        kernel_root,
                        slots,
                        done,
                        all,
                    );
                }
                let bytes: &[u8] = slice_subrange(elf_data, from, to);
                proof {
                    if piece.area.start >= piece.area.end {
                        lemma_anchored(&memory_set, pool, done, piece.area.start);
                    }
                }
                memory_set.push(pool, map_area, Some(bytes));
                proof {
                    assert(piece.fill == Some(bytes@));
                    lemma_load_segments_prefix(b, i as int, i as int);
                    lemma_segments_step(
                        &memory_set,
                        pool,
                        &ms1,
                        &pool1,
                        &pool0,
                        kernel_root,
                        slots,
                        done,
                        piece,
                    );
                }
            }
            i = i + 1;
        }
        let ghost done = load_segments(b, elf_ph_count(b));
        proof {
            if done.len() > 0 {
                assert(all[done.len() - 1] == done.last());
                assert(all[done.len() - 1].area.end <= slots * 0x800_0000);
            }
        }
        let max_end_va: VirtAddr = max_end_vpn.addr();
        let mut user_stack_bottom: u64 = max_end_va.to_ptr();
        user_stack_bottom = user_stack_bottom + PAGE_SIZE;
        let user_stack_top: u64 = user_stack_bottom + USER_STACK_SIZE;
        let ghost ms1 = memory_set;
        let ghost pool1 = *pool;
        let ghost piece = stack_segment(b);
        proof {
            assert(all[done.len() as int] == piece);
            lemma_load_segments_prefix(b, elf_ph_count(b), elf_ph_count(b));
            lemma_segment_mappable(&memory_set, pool, &pool0, kernel_root, slots, done, all);
        }
        let perm = MapPermission { bits: MAP_R }.union(MapPermission { bits: MAP_W }).union(
            MapPermission { bits: MAP_U },
        );
        let map_area = MapArea::new(
            VirtAddr::new(user_stack_bottom),
            VirtAddr::new(user_stack_top),
            MapType::Framed,
            perm,
        );
        assert(map_area@ =~= piece.area);
        memory_set.push(pool, map_area, None);
        proof {
            lemma_segments_step(
                &memory_set,
                pool,
                &ms1,
                &pool1,
                &pool0,
                kernel_root,
                slots,
                done,
                piece,
            );
        }
        proof {
            areas_grant_their_permissions(&memory_set, pool);
        }
        (memory_set, user_stack_top, elf_header.entry_point)
    }
}

/// Where the kernel image was linked: the addresses of its sections.
#[derive(Copy, Clone, Debug, PartialEq, Eq, Structural)]
pub struct KernelLayout {
    pub stext: u64,
    pub etext: u64,
    pub srodata: u64,
    pub erodata: u64,
    pub sdata: u64,
    pub egot: u64,
    pub sbss_with_stack: u64,
    pub ebss: u64,
}

/// The linear area of the pages that hold the pointer values from `start` to
/// `end`.
pub open spec fn linear_area(start: int, end: int, perm: u8, pa_offset: u64) -> AreaView {
    AreaView {
        start: (start % (VA_LIMIT as int)) / 0x1000,
        end: (end % (VA_LIMIT as int) + 0xfff) / 0x1000,
        map_type: MapType::Linear { pa_offset },
        perm,
        data: Map::empty(),
    }
}

/// The offset between the virtual and the physical addresses of the kernel
/// image, which lies at `kernel_phys`.
pub open spec fn kernel_offset(kernel_phys: u64) -> u64 {
    (KERNEL_BASE % VA_LIMIT - kernel_phys) as u64
}

/// The areas of the kernel's address space: the sections of its image, the
/// physmap, and the local APIC as seen in the physmap.
pub open spec fn kernel_areas(layout: KernelLayout, kernel_phys: u64, phys_offset: u64) -> Seq<
    AreaView,
> {
    let offset = kernel_offset(kernel_phys);
    let base = phys_offset % VA_LIMIT;
    seq![
        linear_area(layout.stext as int, layout.etext as int, MAP_R | MAP_X, offset),
        linear_area(layout.srodata as int, layout.erodata as int, MAP_R, offset),
        linear_area(layout.sdata as int, layout.egot as int, MAP_R | MAP_W, offset),
        linear_area(layout.sbss_with_stack as int, layout.ebss as int, MAP_R | MAP_W, offset),
        linear_area(base as int, base + MEMORY_END, MAP_R | MAP_W, base),
        linear_area(base + LAPIC_BASE, base + LAPIC_BASE + PAGE_SIZE, MAP_R | MAP_W, base),
    ]
}

/// Areas that can be mapped one after the other below root entry `slots`.
pub open spec fn areas_mappable(areas: Seq<AreaView>, slots: int) -> bool {
    &&& forall|i: int|
        0 <= i < areas.len() ==> {
            &&& 0 <= (#[trigger] areas[i]).start <= areas[i].end <= slots * 0x800_0000
            &&& areas[i].data == Map::<int, u64>::empty()
            &&& forall|v: int| areas[i].contains(v) ==> #[trigger] areas[i].linear_ok(v)
        }
    &&& forall|i: int, j: int, v: int|
        0 <= i < areas.len() && 0 <= j < areas.len() && #[trigger] areas[i].contains(v)
            && #[trigger] areas[j].contains(v) ==> i == j
}

proof fn lemma_next_mappable<M: PhysMemory>(
    ms: &MemorySet,
    pool: &FramePool<M>,
    pool0: &FramePool<M>,
    slots: int,
    areas: Seq<AreaView>,
    n: int,
)
    requires
        space_made(ms, pool, pool0, 0, slots, areas.take(n)),
        0 <= n < areas.len(),
        areas_mappable(areas, slots),
        pool0.free_count() >= 1 + areas_needed(bare_tables(), areas, areas.len() as int),
    ensures
        pages_mappable(areas[n], &ms.table(), pool, areas[n].start, areas[n].end),
{
    let a = areas[n];
    lemma_areas_needed_prefix(bare_tables(), areas, areas.take(n), n);
    lemma_areas_needed_mono(bare_tables(), areas, n + 1, areas.len() as int);
    assert(configs(ms.areas()).len() == configs(areas.take(n)).len());
    assert forall|i: int, v: int| 0 <= i < ms.areas().len() && #[trigger] ms.areas()[i].contains(
        v,
    ) implies !a.contains(v) by {
        assert(configs(ms.areas())[i] == configs(areas.take(n))[i]);
        assert(config(ms.areas()[i]).start == config(areas[i]).start);
        assert(config(ms.areas()[i]).end == config(areas[i]).end);
        assert(areas[i].contains(v));
        if a.contains(v) {
            assert(areas[n].contains(v));
        }
    }
    lemma_area_mappable(ms, pool, a);
}

impl MemorySet {
    /// Map area `n` of the areas of a new address space.
    fn push_next<M: PhysMemory>(
        &mut self,
        pool: &mut FramePool<M>,
        map_area: MapArea,
        Ghost(pool0): Ghost<FramePool<M>>,
        Ghost(areas): Ghost<Seq<AreaView>>,
        Ghost(n): Ghost<int>,
    )
        requires
            pool0.wf(),
            old(pool).wf(),
            0 <= n < areas.len(),
            map_area@ == areas[n],
            space_made(old(self), old(pool), &pool0, 0, 512, areas.take(n)),
            areas_mappable(areas, 512),
            pool0.free_count() >= 1 + areas_needed(bare_tables(), areas, areas.len() as int),
        ensures
            final(pool).wf(),
            space_made(final(self), final(pool), &pool0, 0, 512, areas.take(n + 1)),
    {
        let ghost ms1 = *self;
        let ghost pool1 = *pool;
        proof {
            lemma_next_mappable(self, pool, &pool0, 512, areas, n);
        }
        self.push(pool, map_area, None);
        proof {
            assert(config(areas[n]) =~= areas[n]);
            lemma_user_space_step(
                self,
                pool,
                &ms1,
                &pool1,
                &pool0,
                0,
                512,
                areas.take(n),
                areas[n],
                None,
            );
            assert(areas.take(n + 1) =~= areas.take(n).push(areas[n]));
        }
    }

    /// The offset between the virtual and the physical addresses of the kernel
    /// image, which lies at `kernel_phys`.
    fn kernel_pa_offset(kernel_phys: u64) -> (r: u64)
        requires
            kernel_phys <= KERNEL_BASE % VA_LIMIT,
        ensures
            r == kernel_offset(kernel_phys),
    {
        VirtAddr::new(KERNEL_BASE).0 - kernel_phys
    }

    /// Make the kernel's address space: the sections of its image, each with
    /// the access it needs, the physmap, and the local APIC, which the timer
    /// uses from trap handlers in any address space.
    pub fn new_kernel<M: PhysMemory>(
        pool: &mut FramePool<M>,
        layout: KernelLayout,
        kernel_phys: u64,
        phys_offset: u64,
    ) -> (r: Self)
        requires
            old(pool).wf(),
            kernel_phys <= KERNEL_BASE % VA_LIMIT,
            areas_mappable(kernel_areas(layout, kernel_phys, phys_offset), 512),
            old(pool).free_count() >= 1 + areas_needed(
                bare_tables(),
                kernel_areas(layout, kernel_phys, phys_offset),
                6,
            ),
        ensures
            final(pool).wf(),
            r.wf(final(pool)),
            r.exact(final(pool)),
            r.areas() == kernel_areas(layout, kernel_phys, phys_offset),
            grants(&r, final(pool)),
            r.table().slots() == 512,
            r.table().stale() == Seq::<u64>::empty(),
            final(pool).same_extent(old(pool)),
            final(pool).free().subset_of(old(pool).free()),
            r.owned() == old(pool).free().difference(final(pool).free()),
            final(pool).free_count() == old(pool).free_count() - 1 - areas_needed(
                bare_tables(),
                kernel_areas(layout, kernel_phys, phys_offset),
                6,
            ),
            r.table().present(final(pool)) == areas_paths(
                bare_tables(),
                kernel_areas(layout, kernel_phys, phys_offset),
                6,
            ),
            forall|f: u64|
                !old(pool).free().contains(f) ==> #[trigger] final(pool).frames()[f]
                    == old(pool).frames()[f],
    {
        let ghost pool0 = *pool;
        let ghost areas = kernel_areas(layout, kernel_phys, phys_offset);
        let mut memory_set = Self::new_bare(pool);
        proof {
            assert(areas.take(0) =~= Seq::empty());
            assert(configs(memory_set.areas()) =~= configs(areas.take(0)));
            assert(areas_data(memory_set.areas()) =~= Set::empty());
            assert(memory_set.owned() =~= pool0.free().difference(pool.free()));
        }
        let kernel_offset: u64 = Self::kernel_pa_offset(kernel_phys);
        let r = MapPermission { bits: MAP_R };
        let rx = r.union(MapPermission { bits: MAP_X });
        let rw = r.union(MapPermission { bits: MAP_W });
        assert(areas[0].start <= areas[0].end && areas[1].start <= areas[1].end && areas[2].start
            <= areas[2].end && areas[3].start <= areas[3].end && areas[4].start <= areas[4].end
            && areas[5].start <= areas[5].end);
        let text = MapArea::new_linear(
            VirtAddr::new(layout.stext),
            VirtAddr::new(layout.etext),
            rx,
            kernel_offset,
        );
        assert(text@ =~= areas[0]);
        memory_set.push_next(pool, text, Ghost(pool0), Ghost(areas), Ghost(0));
        let rodata = MapArea::new_linear(
            VirtAddr::new(layout.srodata),
            VirtAddr::new(layout.erodata),
            r,
            kernel_offset,
        );
        assert(rodata@ =~= areas[1]);
        memory_set.push_next(pool, rodata, Ghost(pool0), Ghost(areas), Ghost(1));
        let data = MapArea::new_linear(
            VirtAddr::new(layout.sdata),
            VirtAddr::new(layout.egot),
            rw,
            kernel_offset,
        );
        assert(data@ =~= areas[2]);
        memory_set.push_next(pool, data, Ghost(pool0), Ghost(areas), Ghost(2));
        let bss = MapArea::new_linear(
            VirtAddr::new(layout.sbss_with_stack),
            VirtAddr::new(layout.ebss),
            rw,
            kernel_offset,
        );
        assert(bss@ =~= areas[3]);
        memory_set.push_next(pool, bss, Ghost(pool0), Ghost(areas), Ghost(3));
        let phys_base: u64 = VirtAddr::new(phys_offset).0;
        let physmap = MapArea::new_linear(
            VirtAddr::new(phys_base),
            VirtAddr::new(phys_base + MEMORY_END),
            rw,
            phys_base,
        );
        assert(physmap@ =~= areas[4]);
        memory_set.push_next(pool, physmap, Ghost(pool0), Ghost(areas), Ghost(4));
        let lapic = MapArea::new_linear(
            VirtAddr::new(phys_base + LAPIC_BASE),
            VirtAddr::new(phys_base + LAPIC_BASE + PAGE_SIZE),
            rw,
            phys_base,
        );
        assert(lapic@ =~= areas[5]);
        memory_set.push_next(pool, lapic, Ghost(pool0), Ghost(areas), Ghost(5));
        proof {
            assert(areas.take(6) =~= areas);
            assert(configs(memory_set.areas()).len() == configs(areas).len());
            assert forall|i: int| 0 <= i < 6 implies memory_set.areas()[i] == areas[i] by {
                assert(configs(memory_set.areas())[i] == configs(areas)[i]);
                let a = memory_set.areas()[i];
                assert(a.wf());
                assert(config(a) == config(areas[i]));
                assert(config(a).map_type == config(areas[i]).map_type);
                assert(!a.framed());
                assert(a.data =~= Map::empty());
                assert(areas[i].data =~= Map::empty());
                assert(a =~= config(a));
                assert(areas[i] =~= config(areas[i]));
            }
            assert(memory_set.areas() =~= areas);
            areas_grant_their_permissions(&memory_set, pool);
        }
        memory_set
    }
}

/// Show a window of physical memory, such as the registers of a device, in the
/// physmap of the kernel's address space. `pa` and `len` are multiples of the
/// page size.
pub fn ioremap<M: PhysMemory>(
    kernel_space: &mut MemorySet,
    pool: &mut FramePool<M>,
    phys_offset: u64,
    pa: u64,
    len: u64,
)
    requires
        old(pool).wf(),
        old(kernel_space).wf(old(pool)),
        can_map_window(old(kernel_space), old(pool), phys_offset, pa, len),
    ensures
        final(pool).wf(),
        final(kernel_space).wf(final(pool)),
        old(kernel_space).exact(old(pool)) ==> final(kernel_space).exact(final(pool)),
        pushed(
            final(kernel_space),
            final(pool),
            old(kernel_space),
            old(pool),
            window_area(phys_offset, pa as int, len as int),
            None,
        ),
        final(kernel_space).owned().union(final(pool).free()) == old(kernel_space).owned().union(
            old(pool).free(),
        ),
{
    let phys_base: u64 = VirtAddr::new(phys_offset).0;
    let rw = MapPermission { bits: MAP_R }.union(MapPermission { bits: MAP_W });
    let area = MapArea::new_linear(
        VirtAddr::new(phys_base + pa),
        VirtAddr::new(phys_base + pa + len),
        rw,
        phys_base,
    );
    assert(area@ =~= window_area(phys_offset, pa as int, len as int));
    kernel_space.push(pool, area, None);
}

/// Whether `len` bytes of physical memory from `pa` on, which are whole pages, can be
/// shown in the physmap: no page there is mapped yet, and the frames suffice.
pub open spec fn can_map_window<M: PhysMemory>(
    kernel_space: &MemorySet,
    pool: &FramePool<M>,
    phys_offset: u64,
    pa: u64,
    len: u64,
) -> bool {
    let a = window_area(phys_offset, pa as int, len as int);
    &&& pa % PAGE_SIZE == 0
    &&& len % PAGE_SIZE == 0
    &&& (phys_offset % VA_LIMIT) + pa + len <= u64::MAX
    &&& a.end <= kernel_space.table().slots() * 0x800_0000
    &&& pages_mappable(a, &kernel_space.table(), pool, a.start, a.end)
}

/// Whether `len` bytes of physical memory from `pa` on can be shown in the physmap.
pub fn window_possible<M: PhysMemory>(
    kernel_space: &MemorySet,
    pool: &FramePool<M>,
    phys_offset: u64,
    pa: u64,
    len: u64,
) -> (r: bool)
    requires
        pool.wf(),
        kernel_space.wf(pool),
        kernel_space.table().slots() == 512,
    ensures
        r == can_map_window(kernel_space, pool, phys_offset, pa, len),
{
    let ghost a = window_area(phys_offset, pa as int, len as int);
    let ghost table = kernel_space.table();
    if pa % PAGE_SIZE != 0 || len % PAGE_SIZE != 0 {
        return false;
    }
    let base: u64 = VirtAddr::new(phys_offset).0;
    if pa > u64::MAX - base || len > u64::MAX - base - pa {
        return false;
    }
    let start: u64 = VirtAddr::new(base + pa).floor().0;
    let end: u64 = VirtAddr::new(base + pa + len).ceil().0;
    assert(start == a.start && end == a.end);
    if start > end {
        return false;
    }
    if start < end && start * 0x1000 < base {
        assert(!a.linear_ok(start as int));
        return false;
    }
    let free: u128 = pool.allocator.free_count();
    match kernel_space.spend(pool, start, end, 0, free) {
        Some(_) => {
            assert(forall|v: int| a.start <= v < a.end ==> #[trigger] a.linear_ok(v));
            true
        },
        None => false,
    }
}

/// The area that shows `len` bytes of physical memory from `pa` on.
pub open spec fn window_area(phys_offset: u64, pa: int, len: int) -> AreaView {
    let base = phys_offset % VA_LIMIT;
    linear_area(base + pa, base + pa + len, MAP_R | MAP_W, base)
}

/// A page of the physmap, of a device window or of the local APIC shows the
/// physical page at its distance from the start of the physmap.
pub proof fn window_shows_physical_page(phys_offset: u64, pa: int, len: int, v: int)
    requires
        0 <= pa,
        0 <= len,
        pa % 0x1000 == 0,
        phys_offset % 0x1000 == 0,
        (phys_offset % VA_LIMIT) + pa + len < VA_LIMIT,
        window_area(phys_offset, pa, len).contains(v),
    ensures
        window_area(phys_offset, pa, len).frame_of(v) == v - (phys_offset % VA_LIMIT) as int
            / 0x1000,
        pa / 0x1000 <= window_area(phys_offset, pa, len).frame_of(v),
{
}

/// An address in a linear area is translated to the one at the distance of the area.
pub proof fn linear_areas_translate<M: PhysMemory>(
    ms: &MemorySet,
    pool: &FramePool<M>,
    k: int,
    pa_offset: u64,
    va: int,
)
    requires
        ms.wf(pool),
        0 <= k < ms.areas().len(),
        ms.areas()[k].map_type == (MapType::Linear { pa_offset }),
        ms.areas()[k].contains(va / 0x1000),
        pa_offset % 0x1000 == 0,
        pa_offset <= va < VA_LIMIT,
    ensures
        translated(pool.frames(), ms.root(), va) == Some(PhysAddr((va - pa_offset) as u64)),
{
    let area = ms.areas()[k];
    let v = va / 0x1000;
    assert(ms.table().leaf(pool, v) == Some(area.entry(v)));
    lemma_perm_flags(area.perm);
    pte_reads_back(area.frame_of(v), perm_flags(area.perm));
}

/// The page of an address in the physmap.
proof fn lemma_physmap_page(base: int, pa: int)
    requires
        0 <= base,
        base + MEMORY_END < VA_LIMIT,
        0 <= pa < MEMORY_END,
    ensures
        (base % (VA_LIMIT as int)) / 0x1000 <= (base + pa) / 0x1000 < ((base + MEMORY_END) % (
        VA_LIMIT as int) + 0xfff) / 0x1000,
{
}

proof fn lemma_physmap_shown<M: PhysMemory>(
    ms: &MemorySet,
    pool: &FramePool<M>,
    base: u64,
    pa: int,
)
    requires
        ms.wf(pool),
        ms.areas().len() == 6,
        ms.areas()[4] == linear_area(base as int, base + MEMORY_END, MAP_R | MAP_W, base),
        base % 0x1000 == 0,
        base + MEMORY_END < VA_LIMIT,
        0 <= pa < MEMORY_END,
    ensures
        translated(pool.frames(), ms.root(), base + pa) == Some(PhysAddr(pa as u64)),
{
    lemma_physmap_page(base as int, pa);
    linear_areas_translate(ms, pool, 4, base, base + pa);
}

/// In the kernel's address space the physmap shows physical memory: the address at
/// distance `pa` from its start is translated to `pa`.
pub proof fn physmap_shows_memory<M: PhysMemory>(
    ms: &MemorySet,
    pool: &FramePool<M>,
    layout: KernelLayout,
    kernel_phys: u64,
    phys_offset: u64,
    pa: int,
)
    requires
        ms.wf(pool),
        ms.areas() == kernel_areas(layout, kernel_phys, phys_offset),
        phys_offset % 0x1000 == 0,
        (phys_offset % VA_LIMIT) + MEMORY_END < VA_LIMIT,
        0 <= pa < MEMORY_END,
    ensures
        translated(pool.frames(), ms.root(), (phys_offset % VA_LIMIT) + pa) == Some(
            PhysAddr(pa as u64),
        ),
{
    let base = phys_offset % VA_LIMIT;
    assert(base % 0x1000 == 0);
    assert(ms.areas()[4] == linear_area(base as int, base + MEMORY_END, MAP_R | MAP_W, base));
    lemma_physmap_shown(ms, pool, base, pa);
}

/// The low part of an address in the kernel image.
proof fn lemma_image_address(va: int)
    requires
        KERNEL_BASE <= va <= u64::MAX,
    ensures
        va % (VA_LIMIT as int) == va - 0xffff_0000_0000_0000,
        KERNEL_BASE % VA_LIMIT == 0xffff_8000_0000,
{
}

/// In the kernel's address space the code of the kernel is found where the image
/// lies.
pub proof fn image_shows_code<M: PhysMemory>(
    ms: &MemorySet,
    pool: &FramePool<M>,
    layout: KernelLayout,
    kernel_phys: u64,
    phys_offset: u64,
    va: int,
)
    requires
        ms.wf(pool),
        ms.areas() == kernel_areas(layout, kernel_phys, phys_offset),
        kernel_phys % 0x1000 == 0,
        kernel_phys <= KERNEL_BASE % VA_LIMIT,
        KERNEL_BASE <= layout.stext <= va < layout.etext,
    ensures
        translated(pool.frames(), ms.root(), va % (VA_LIMIT as int)) == Some(
            PhysAddr((va - KERNEL_BASE + kernel_phys) as u64),
        ),
{
    let area = linear_area(
        layout.stext as int,
        layout.etext as int,
        MAP_R | MAP_X,
        kernel_offset(kernel_phys),
    );
    assert(ms.areas()[0] == area);
    lemma_image_address(va);
    lemma_image_address(layout.stext as int);
    lemma_image_address(layout.etext as int);
    assert(area.start == (layout.stext - 0xffff_0000_0000_0000) / 0x1000);
    assert(area.end == (layout.etext - 0xffff_0000_0000_0000 + 0xfff) / 0x1000);
    assert(area.contains((va - 0xffff_0000_0000_0000) / 0x1000));
    linear_areas_translate(ms, pool, 0, kernel_offset(kernel_phys), va % (VA_LIMIT as int));
}

/// What an address space holds is not affected by writes to frames of others.
pub proof fn lemma_segments_kept<M: PhysMemory>(
    ms: &MemorySet,
    pool: &FramePool<M>,
    pool0: &FramePool<M>,
    segments: Seq<Segment>,
)
    requires
        ms.wf(pool0),
        holds_segments(ms, pool0, segments),
        configs(ms.areas()) == configs(segment_areas(segments)),
        forall|k: int| 0 <= k < segments.len() ==> (#[trigger] segments[k]).area.framed(),
        forall|f: u64| #[trigger] ms.owned().contains(f) ==> pool.frames()[f] == pool0.frames()[f],
    ensures
        holds_segments(ms, pool, segments),
{
    assert(configs(ms.areas()).len() == configs(segment_areas(segments)).len());
    assert(configs(ms.areas()).len() == ms.areas().len());
    assert(configs(segment_areas(segments)).len() == segment_areas(segments).len());
    assert(segment_areas(segments).len() == segments.len());
    assert forall|k: int, v: int, j: int|
        0 <= k < segments.len() && segments[k].area.contains(v) && 0 <= j
            < 0x1000 implies #[trigger] filled_as(ms, pool, segments, k, v, j) by {
        assert(filled_as(ms, pool0, segments, k, v, j));
        assert(configs(ms.areas())[k] == configs(segment_areas(segments))[k]);
        assert(segments[k].area.framed());
        lemma_page_frame(ms, pool0, k, v, config(segments[k].area));
    }
}

/// The pieces of a program image have frames of their own.
pub proof fn lemma_image_framed(b: Seq<u8>)
    ensures
        forall|k: int|
            0 <= k < image_segments(b).len() ==> (#[trigger] image_segments(b)[k]).area.framed(),
        segment_areas(image_segments(b)).len() == image_segments(b).len(),
{
    let all = image_segments(b);
    let load = load_segments(b, elf_ph_count(b));
    if elf_ph_count(b) >= 0 {
        lemma_load_segments_prefix(b, elf_ph_count(b), elf_ph_count(b));
    }
    assert forall|k: int| 0 <= k < all.len() implies (#[trigger] all[k]).area.framed() by {
        if k < load.len() {
            assert(all[k] == load[k]);
        }
    }
}

proof fn lemma_frames_needed_split(t: Set<(int, int)>, s: int, e: int)
    requires
        s <= e,
    ensures
        frames_needed(t, s, e, 1) == frames_needed(t, s, e, 0) + (e - s),
    decreases e - s,
{
    if s < e {
        lemma_frames_needed_split(with_path(t, s), s + 1, e);
    }
}

/// Taking out an area undoes mapping it: the areas are those before, the same
/// pages are mapped to the same frames, and of the frames that mapping took only
/// those of new tables are not given back.
pub proof fn removing_undoes_mapping<M: PhysMemory>(
    ms2: &MemorySet,
    pool2: &FramePool<M>,
    ms1: &MemorySet,
    pool1: &FramePool<M>,
    ms0: &MemorySet,
    pool0: &FramePool<M>,
    area: AreaView,
    data: Option<Seq<u8>>,
)
    requires
        ms0.wf(pool0),
        area.start <= area.end,
        forall|v: int| area.contains(v) ==> #[trigger] ms0.table().mapped(pool0, v) is None,
        pushed(ms1, pool1, ms0, pool0, area, data),
        ms2.areas() == ms1.areas().remove(ms0.areas().len() as int),
        cut_back(ms2, pool2, ms1, pool1, ms0.areas().len() as int, area.start),
    ensures
        ms2.areas() == ms0.areas(),
        forall|v: int|
            own_page(ms0.table().slots(), v) ==> #[trigger] ms2.table().mapped(pool2, v)
                == ms0.table().mapped(pool0, v),
        ms2.root() == ms0.root(),
        pool0.free_count() - pool2.free_count() == ms2.table().table_count()
            - ms0.table().table_count(),
{
    let n = ms0.areas().len() as int;
    let new = ms1.areas()[n];
    assert(config(new).start == new.start && config(new).end == new.end);
    assert(config(new).map_type == new.map_type);
    assert(ms2.areas() =~= ms0.areas());
    assert(!pte_valid(0)) by {
        pte_word_valid(0, 0);
    }
    assert forall|v: int| own_page(ms0.table().slots(), v) implies #[trigger] ms2.table().mapped(
        pool2,
        v,
    ) == ms0.table().mapped(pool0, v) by {
        assert(ms2.table().leaf(pool2, v) == if new.start <= v < new.end {
            Some(0u64)
        } else {
            ms1.table().leaf(pool1, v)
        });
        if !area.contains(v) {
            assert(ms1.table().leaf(pool1, v) == leaf_beside(
                ms0.table().leaf(pool0, v),
                ms1.table().present(pool1),
                v,
            ));
        } else {
            assert(ms0.table().mapped(pool0, v) is None);
        }
    }
    lemma_frames_needed_split(ms0.table().present(pool0), area.start, area.end);
}

} // verus!
