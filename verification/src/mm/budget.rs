//! Reckoning, before anything is mapped, whether the free frames suffice.
use vstd::prelude::*;
use super::address::{table_index, VirtPageNum, VPN_LIMIT};
use super::frame_allocator::FramePool;
use super::map_area::AreaView;
use super::memory_set::{areas_needed, areas_paths, bare_tables};
use super::page_table::{PageTable, PageTableEntry};
use super::phys::{Frames, PhysMemory};
use super::table_tree::{
    absent, frames_needed, lemma_prefix, missing, own_page, prefix, table_at, with_path, with_paths,
};

verus! {

/// The names of page tables, each as its level and its prefix.
pub struct TableNames {
    names: Vec<(u64, u64)>,
}

impl View for TableNames {
    type V = Set<(int, int)>;

    closed spec fn view(&self) -> Set<(int, int)> {
        Set::new(
            |n: (int, int)|
                exists|i: int|
                    0 <= i < self.names@.len() && (#[trigger] self.names@[i]).0 == n.0
                        && self.names@[i].1 == n.1,
        )
    }
}

impl TableNames {
    /// The names of the tables of an empty address space: that of the root.
    pub fn bare() -> (r: Self)
        ensures
            r@ == bare_tables(),
    {
        let mut names: Vec<(u64, u64)> = Vec::new();
        names.push((0, 0));
        let r = TableNames { names };
        assert(r.names@[0] == (0u64, 0u64));
        assert(r@ =~= bare_tables());
        r
    }

    /// Put a name in. Returns 1 if it was not in before, else 0.
    fn put(&mut self, level: u64, index: u64) -> (r: u128)
        ensures
            r == absent(old(self)@, level as int, index as int),
            final(self)@ == old(self)@.insert((level as int, index as int)),
    {
        let ghost n = (level as int, index as int);
        let mut i: usize = 0;
        while i < self.names.len()
            invariant
                i <= self.names@.len(),
                *self == *old(self),
                n == (level as int, index as int),
                forall|j: int|
                    0 <= j < i ==> !((#[trigger] self.names@[j]).0 == level && self.names@[j].1
                        == index),
            decreases self.names@.len() - i,
        {
            let name: (u64, u64) = self.names[i];
            if name.0 == level && name.1 == index {
                assert(self@.contains(n));
                assert(self@ =~= self@.insert(n));
                return 0;
            }
            i = i + 1;
        }
        assert(!self@.contains(n));
        let ghost before = self.names@;
        self.names.push((level, index));
        proof {
            assert(self.names@[before.len() as int] == (level, index));
            assert forall|m: (int, int)| #[trigger]
                self@.contains(m) <==> old(self)@.contains(m) || m == n by {
                if old(self)@.contains(m) {
                    let i = choose|i: int|
                        0 <= i < before.len() && (#[trigger] before[i]).0 == m.0 && before[i].1 == m.1;
                    assert(self.names@[i] == before[i]);
                }
                if self@.contains(m) {
                    let i = choose|i: int|
                        0 <= i < self.names@.len() && (#[trigger] self.names@[i]).0 == m.0
                            && self.names@[i].1 == m.1;
                    if i < before.len() {
                        assert(before[i] == self.names@[i]);
                    }
                }
            }
            assert(self@ =~= old(self)@.insert(n));
        }
        1
    }

    /// Put in the names of the tables above page `vpn`. Returns how many were not in
    /// before.
    fn put_path(&mut self, vpn: u64) -> (r: u128)
        ensures
            r == missing(old(self)@, vpn as int),
            r <= 3,
            final(self)@ == with_path(old(self)@, vpn as int),
    {
        let a: u128 = self.put(1, vpn / 0x800_0000);
        let b: u128 = self.put(2, vpn / 0x4_0000);
        let c: u128 = self.put(3, vpn / 512);
        a + b + c
    }

    /// Take from `left` frames those that it takes to map the pages from `s` to `e`,
    /// each with `per_page` frames of its own. Returns how many are left, if they
    /// suffice.
    pub fn spend(&mut self, s: u64, e: u64, per_page: u64, left: u128) -> (r: Option<u128>)
        requires
            per_page <= 1,
        ensures
            match r {
                Some(rest) => {
                    &&& rest + frames_needed(old(self)@, s as int, e as int, per_page as nat) == left
                    &&& final(self)@ == with_paths(old(self)@, s as int, e as int)
                },
                None => frames_needed(old(self)@, s as int, e as int, per_page as nat) > left,
            },
    {
        let ghost t0 = self@;
        let mut rest: u128 = left;
        let mut v: u64 = s;
        while v < e
            invariant
                t0 == old(self)@,
                s <= v,
                s < e ==> v <= e,
                s >= e ==> v == s,
                per_page <= 1,
                rest <= left,
                left - rest + frames_needed(self@, v as int, e as int, per_page as nat)
                    == frames_needed(t0, s as int, e as int, per_page as nat),
                with_paths(self@, v as int, e as int) == with_paths(t0, s as int, e as int),
            decreases e - v,
        {
            let ghost t1 = self@;
            let cost: u128 = self.put_path(v) + per_page as u128;
            assert(frames_needed(t1, v as int, e as int, per_page as nat) == cost + frames_needed(
                self@,
                v + 1,
                e as int,
                per_page as nat,
            ));
            if cost > rest {
                return None;
            }
            rest = rest - cost;
            v = v + 1;
        }
        Some(rest)
    }
}

proof fn lemma_areas_needed_grow(t: Set<(int, int)>, areas: Seq<AreaView>, n: int, m: int)
    requires
        0 <= n <= m,
    ensures
        areas_needed(t, areas, n) <= areas_needed(t, areas, m),
    decreases m,
{
    if n < m {
        lemma_areas_needed_grow(t, areas, n, m - 1);
    }
}

/// Where the walk to page `vpn` ends: the level of the last table on the way that exists,
/// and whether the page is mapped.
fn walk_end<M: PhysMemory>(table: &PageTable, pool: &FramePool<M>, vpn: u64) -> (r: (u64, bool))
    requires
        table.wf(pool),
        own_page(table.slots(), vpn as int),
    ensures
        r.0 <= 3,
        forall|k: int|
            1 <= k <= 3 ==> (#[trigger] table.present(pool).contains((k, prefix(vpn as int, k)))
                <==> k <= r.0),
        r.1 == table.mapped(pool, vpn as int) is Some,
{
    let ghost v = vpn as int;
    let ghost mem = pool.frames();
    let ghost root = table.root();
    let ghost slots = table.slots();
    proof {
        lemma_prefix(slots, v, 0);
        lemma_prefix(slots, v, 1);
        lemma_prefix(slots, v, 2);
        lemma_prefix(slots, v, 3);
        pool.mem.frames_wf();
    }
    let idxs: [usize; 4] = VirtPageNum(vpn).indexes();
    let mut t: u64 = table.root_ppn().0;
    let mut k: usize = 0;
    while k < 3
        invariant
            k <= 3,
            v == vpn as int,
            mem == pool.frames(),
            root == table.root(),
            slots == table.slots(),
            0 <= slots <= 512,
            own_page(slots, v),
            table.wf(pool),
            forall|p: u64| #[trigger] mem.dom().contains(p) ==> mem[p].len() == 512,
            forall|j: int| 0 <= j < 4 ==> #[trigger] idxs[j] == table_index(v, j),
            table_at(mem, root, k as int, prefix(v, k as int)) == Some(t),
            forall|j: int|
                1 <= j <= k ==> #[trigger] table.present(pool).contains((j, prefix(v, j))),
        decreases 3 - k,
    {
        proof {
            lemma_prefix(slots, v, k as int);
            lemma_prefix(slots, v, k + 1);
            assert(table.table_frames().contains(t));
            assert(idxs[k as int] == table_index(v, k as int));
        }
        let entry = PageTableEntry { bits: pool.mem.read_word(t, idxs[k]) };
        if !entry.is_valid() {
            proof {
                assert(table_at(mem, root, k + 1, prefix(v, k + 1)) is None);
                assert forall|j: int| 1 <= j <= 3 implies (
                #[trigger] table.present(pool).contains((j, prefix(v, j))) <==> j <= k) by {
                    if j > k {
                        lemma_missing_below(mem, root, v, k + 1, j);
                    }
                }
                lemma_missing_below(mem, root, v, k + 1, 3);
            }
            return (k as u64, false);
        }
        t = entry.ppn().0;
        k = k + 1;
        assert(table.present(pool).contains((k as int, prefix(v, k as int))));
    }
    proof {
        lemma_prefix(slots, v, 3);
        assert(table.table_frames().contains(t));
        assert(idxs[3] == table_index(v, 3));
    }
    let entry = PageTableEntry { bits: pool.mem.read_word(t, idxs[3]) };
    (3, entry.is_valid())
}

/// Where a table is missing, so are those below it.
proof fn lemma_missing_below(mem: Frames, root: u64, vpn: int, k: int, j: int)
    requires
        0 <= vpn < VPN_LIMIT,
        0 <= k <= j <= 3,
        table_at(mem, root, k, prefix(vpn, k)) is None,
    ensures
        table_at(mem, root, j, prefix(vpn, j)) is None,
    decreases j,
{
    if k < j {
        lemma_missing_below(mem, root, vpn, k, j - 1);
        lemma_prefix(512, vpn, j);
    }
}

/// The names of the tables above pages are those of the tables above each of them.
proof fn lemma_with_paths(t: Set<(int, int)>, s: int, e: int, n: (int, int))
    ensures
        with_paths(t, s, e).contains(n) <==> t.contains(n) || exists|u: int|
            s <= u < e && #[trigger] on_path(u, n),
    decreases e - s,
{
    if s < e {
        lemma_with_paths(with_path(t, s), s + 1, e, n);
        assert(with_path(t, s).contains(n) <==> t.contains(n) || on_path(s, n));
        if exists|u: int| s <= u < e && #[trigger] on_path(u, n) {
            let u = choose|u: int| s <= u < e && #[trigger] on_path(u, n);
            assert(u == s || s + 1 <= u < e);
        }
    }
}

/// Whether `n` names a table above page `u`.
spec fn on_path(u: int, n: (int, int)) -> bool {
    1 <= n.0 <= 3 && n.1 == prefix(u, n.0)
}

/// The tables that are missing to map page `v` once the pages from `s` on are mapped.
proof fn lemma_missing_after(t: Set<(int, int)>, s: int, v: int, k: int)
    requires
        0 <= s <= v,
        1 <= k <= 3,
    ensures
        absent(with_paths(t, s, v), k, prefix(v, k)) == (if s < v && prefix(v - 1, k) == prefix(v, k) {
            0nat
        } else {
            absent(t, k, prefix(v, k))
        }),
        with_paths(t, s, v + 1) == with_path(with_paths(t, s, v), v),
{
    let n = (k, prefix(v, k));
    lemma_with_paths(t, s, v, n);
    if s < v && prefix(v - 1, k) == prefix(v, k) {
        assert(on_path(v - 1, n));
    }
    if exists|u: int| s <= u < v && #[trigger] on_path(u, n) {
        let u = choose|u: int| s <= u < v && #[trigger] on_path(u, n);
        assert(prefix(u, k) <= prefix(v - 1, k) <= prefix(v, k));
    }
    let a = with_paths(t, s, v + 1);
    let b = with_path(with_paths(t, s, v), v);
    assert forall|m: (int, int)| a.contains(m) == b.contains(m) by {
        lemma_with_paths(t, s, v + 1, m);
        lemma_with_paths(t, s, v, m);
        assert(b.contains(m) <==> with_paths(t, s, v).contains(m) || on_path(v, m));
        if exists|u: int| s <= u < v + 1 && #[trigger] on_path(u, m) {
            let u = choose|u: int| s <= u < v + 1 && #[trigger] on_path(u, m);
            assert(u == v || s <= u < v);
        }
    }
    assert(a =~= b);
}

/// Take from `left` frames those that it takes to map the pages from `s` to `e` in
/// `table`, each with `per_page` frames of its own. Returns how many are left, if they
/// suffice and none of the pages is mapped.
pub fn spend_in<M: PhysMemory>(
    table: &PageTable,
    pool: &FramePool<M>,
    s: u64,
    e: u64,
    per_page: u64,
    left: u128,
) -> (r: Option<u128>)
    requires
        table.wf(pool),
        per_page <= 1,
        s < e ==> e <= table.slots() * 0x800_0000,
    ensures
        ({
            let unmapped = forall|v: int| s <= v < e ==> #[trigger] table.mapped(pool, v) is None;
            let needed = frames_needed(table.present(pool), s as int, e as int, per_page as nat);
            match r {
                Some(rest) => unmapped && rest + needed == left,
                None => !unmapped || needed > left,
            }
        }),
{
    let ghost t0 = table.present(pool);
    let mut rest: u128 = left;
    let mut v: u64 = s;
    while v < e
        invariant
            t0 == table.present(pool),
            table.wf(pool),
            per_page <= 1,
            s <= v,
            s < e ==> v <= e <= table.slots() * 0x800_0000,
            s >= e ==> v == s,
            rest <= left,
            left - rest + frames_needed(
                with_paths(t0, s as int, v as int),
                v as int,
                e as int,
                per_page as nat,
            ) == frames_needed(t0, s as int, e as int, per_page as nat),
            forall|u: int| s <= u < v ==> #[trigger] table.mapped(pool, u) is None,
        decreases e - v,
    {
        let (depth, mapped) = walk_end(table, pool, v);
        if mapped {
            assert(table.mapped(pool, v as int) is Some);
            return None;
        }
        let before: u64 = if v > s {
            v - 1
        } else {
            v
        };
        let mut cost: u128 = per_page as u128;
        if depth < 1 && !(v > s && before / 0x800_0000 == v / 0x800_0000) {
            cost = cost + 1;
        }
        if depth < 2 && !(v > s && before / 0x4_0000 == v / 0x4_0000) {
            cost = cost + 1;
        }
        if depth < 3 && !(v > s && before / 512 == v / 512) {
            cost = cost + 1;
        }
        proof {
            let cur = with_paths(t0, s as int, v as int);
            lemma_missing_after(t0, s as int, v as int, 1);
            lemma_missing_after(t0, s as int, v as int, 2);
            lemma_missing_after(t0, s as int, v as int, 3);
            assert(t0.contains((1int, prefix(v as int, 1))) <==> 1 <= depth);
            assert(t0.contains((2int, prefix(v as int, 2))) <==> 2 <= depth);
            assert(t0.contains((3int, prefix(v as int, 3))) <==> 3 <= depth);
            assert(cost == missing(cur, v as int) + per_page);
            assert(frames_needed(cur, v as int, e as int, per_page as nat) == cost + frames_needed(
                with_path(cur, v as int),
                v + 1,
                e as int,
                per_page as nat,
            ));
        }
        if cost > rest {
            return None;
        }
        rest = rest - cost;
        v = v + 1;
    }
    Some(rest)
}

/// Whether `pages` are the pages of `areas`, each as the first one and the one after the
/// last, and each page takes `per_page` frames.
pub open spec fn pages_of_areas(
    areas: Seq<AreaView>,
    pages: Seq<(u64, u64)>,
    per_page: u64,
) -> bool {
    &&& pages.len() == areas.len()
    &&& forall|k: int|
        0 <= k < areas.len() ==> (#[trigger] pages[k]).0 == areas[k].start && pages[k].1
            == areas[k].end && areas[k].per_page() == per_page
}

/// Take from `free` frames those of an address space with areas that have these pages:
/// one for the root, and those that it takes to map the areas. Returns how many are
/// left, if they suffice.
pub(crate) fn spend_areas(
    pages: &Vec<(u64, u64)>,
    per_page: u64,
    free: u128,
    Ghost(areas): Ghost<Seq<AreaView>>,
) -> (r: Option<u128>)
    requires
        per_page <= 1,
        pages_of_areas(areas, pages@, per_page),
    ensures
        match r {
            Some(rest) => rest + 1 + areas_needed(bare_tables(), areas, areas.len() as int) == free,
            None => 1 + areas_needed(bare_tables(), areas, areas.len() as int) > free,
        },
{
    if free == 0 {
        return None;
    }
    let mut names = TableNames::bare();
    let mut left: u128 = free - 1;
    let mut i: usize = 0;
    while i < pages.len()
        invariant
            i <= pages@.len(),
            free >= 1,
            per_page <= 1,
            pages_of_areas(areas, pages@, per_page),
            names@ == areas_paths(bare_tables(), areas, i as int),
            left + 1 + areas_needed(bare_tables(), areas, i as int) == free,
        decreases pages@.len() - i,
    {
        let range: (u64, u64) = pages[i];
        assert(range == pages@[i as int]);
        match names.spend(range.0, range.1, per_page, left) {
            Some(rest) => {
                left = rest;
            },
            None => {
                proof {
                    lemma_areas_needed_grow(
                        bare_tables(),
                        areas,
                        i + 1,
                        areas.len() as int,
                    );
                }
                return None;
            },
        }
        i = i + 1;
    }
    Some(left)
}

} // verus!
