//! The tree of page tables that a root spans, as read from memory.
//!
//! A table is named by its level and its prefix: the table of level `k` and
//! prefix `p` translates the pages whose number starts with `p`. The root has
//! level 0 and prefix 0; a table of level 3 holds leaf entries.
use vstd::prelude::*;
use super::address::{table_index, VPN_LIMIT};
use super::page_table::{pte_ppn, pte_valid, PTE_ALL, PTE_U, PTE_V, PTE_W};
use super::phys::{cleared_frame, Frames};

verus! {

/// The prefix of page `vpn` that names its table of level `k`.
pub open spec fn prefix(vpn: int, k: int) -> int {
    if k == 0 {
        0
    } else if k == 1 {
        vpn / 0x800_0000
    } else if k == 2 {
        vpn / 0x4_0000
    } else {
        vpn / 512
    }
}

/// The frame of the table of level `k` and prefix `p`, if there is one.
pub open spec fn table_at(mem: Frames, root: u64, k: int, p: int) -> Option<u64>
    decreases k,
{
    if k <= 0 {
        Some(root)
    } else {
        match table_at(mem, root, k - 1, p / 512) {
            None => None,
            Some(t) => {
                let w = mem[t][p % 512];
                if pte_valid(w) {
                    Some(pte_ppn(w))
                } else {
                    None
                }
            },
        }
    }
}

/// The leaf entry of page `vpn`, if the tables above it exist.
pub open spec fn leaf(mem: Frames, root: u64, vpn: int) -> Option<u64> {
    match table_at(mem, root, 3, vpn / 512) {
        None => None,
        Some(t) => Some(mem[t][vpn % 512]),
    }
}

/// The leaf entry of page `vpn`, if the page is mapped.
pub open spec fn mapped(mem: Frames, root: u64, vpn: int) -> Option<u64> {
    match leaf(mem, root, vpn) {
        Some(w) => if pte_valid(w) {
            Some(w)
        } else {
            None
        },
        None => None,
    }
}

/// Whether a table with this name belongs to a tree of which the first
/// `slots` entries of the root are its own.
pub open spec fn own(slots: int, k: int, p: int) -> bool {
    if k == 0 {
        p == 0
    } else if k == 1 {
        0 <= p < slots
    } else if k == 2 {
        0 <= p < slots * 512
    } else {
        k == 3 && 0 <= p < slots * 0x4_0000
    }
}

/// Whether page `vpn` is translated by the tree's own tables.
pub open spec fn own_page(slots: int, vpn: int) -> bool {
    0 <= vpn < slots * 0x800_0000
}

/// The entry through which the table of level `k` and prefix `p` hangs in the table
/// above it.
pub open spec fn link(mem: Frames, root: u64, k: int, p: int) -> u64 {
    mem[table_at(mem, root, k - 1, p / 512)->Some_0][p % 512]
}

/// Whether an entry above the leaf leads to a table and takes no right away from the
/// pages below: it is present, allows writes, user access and execution, and stands for
/// no large page. The processor checks these flags at every level of a walk.
pub open spec fn open_link(w: u64) -> bool {
    w & PTE_ALL == PTE_V | PTE_W | PTE_U
}

/// The tables lie in `frames`, which exist, no frame is used twice, and the entries
/// above the leaves take no right away.
pub open spec fn tree_wf(mem: Frames, root: u64, slots: int, frames: Set<u64>) -> bool {
    &&& 0 <= slots <= 512
    &&& forall|f: u64| #[trigger] frames.contains(f) ==> mem.dom().contains(f)
    &&& forall|k: int, p: int|
        own(slots, k, p) && (#[trigger] table_at(mem, root, k, p)) is Some ==> frames.contains(
            table_at(mem, root, k, p)->Some_0,
        )
    &&& forall|k: int, p: int, k2: int, p2: int|
        own(slots, k, p) && own(slots, k2, p2) && (#[trigger] table_at(mem, root, k, p)) is Some
            && table_at(mem, root, k, p) == (#[trigger] table_at(mem, root, k2, p2)) ==> k == k2
            && p == p2
    &&& forall|k: int, p: int|
        own(slots, k, p) && k > 0 && table_at(mem, root, k, p) is Some ==> open_link(
            #[trigger] link(mem, root, k, p),
        )
}

/// The tables on the way to page `vpn` exist in memory.
pub open spec fn walkable(mem: Frames, root: u64, vpn: int) -> bool {
    forall|k: int|
        0 <= k <= 3 ==> ((#[trigger] table_at(mem, root, k, prefix(vpn, k))) matches Some(t)
            ==> mem.dom().contains(t))
}

/// The names of the tables that exist.
pub open spec fn present(mem: Frames, root: u64, slots: int) -> Set<(int, int)> {
    Set::new(|n: (int, int)| own(slots, n.0, n.1) && table_at(mem, root, n.0, n.1) is Some)
}

/// The entries of the root that are not the tree's own, and those that are valid,
/// are in `mem` as they were in `mem0`.
pub open spec fn root_kept(mem: Frames, mem0: Frames, root: u64, slots: int) -> bool {
    forall|i: int|
        0 <= i < 512 && (i >= slots || pte_valid(mem0[root][i])) ==> #[trigger] mem[root][i]
            == mem0[root][i]
}

/// Whether page `vpn` is translated through an entry of the root that is not the
/// tree's own, by tables that lie outside `frames`.
pub open spec fn shared_page(
    mem: Frames,
    root: u64,
    slots: int,
    frames: Set<u64>,
    vpn: int,
) -> bool {
    &&& slots * 0x800_0000 <= vpn < VPN_LIMIT
    &&& forall|k: int|
        1 <= k <= 3 ==> ((#[trigger] table_at(mem, root, k, prefix(vpn, k))) matches Some(t)
            ==> !frames.contains(t))
}

/// A page that is translated through an entry of the root that is not the tree's own
/// stays as it was where only frames of the tree changed.
pub proof fn lemma_shared_leaf(
    mem: Frames,
    mem0: Frames,
    root: u64,
    slots: int,
    frames: Set<u64>,
    vpn: int,
)
    requires
        0 <= slots <= 512,
        shared_page(mem0, root, slots, frames, vpn),
        root_kept(mem, mem0, root, slots),
        forall|f: u64| !frames.contains(f) ==> #[trigger] mem[f] == mem0[f],
    ensures
        leaf(mem, root, vpn) == leaf(mem0, root, vpn),
        mapped(mem, root, vpn) == mapped(mem0, root, vpn),
{
    reveal_with_fuel(table_at, 4);
    assert(prefix(vpn, 2) / 512 == prefix(vpn, 1));
    assert(prefix(vpn, 3) / 512 == prefix(vpn, 2));
    assert(slots <= prefix(vpn, 1) < 512);
    assert(mem[root][prefix(vpn, 1)] == mem0[root][prefix(vpn, 1)]);
    assert(table_at(mem0, root, 1, prefix(vpn, 1)) == table_at(mem, root, 1, prefix(vpn, 1)));
    assert(table_at(mem0, root, 2, prefix(vpn, 2)) == table_at(mem, root, 2, prefix(vpn, 2)));
    assert(table_at(mem0, root, 3, prefix(vpn, 3)) == table_at(mem, root, 3, prefix(vpn, 3)));
}

/// The names in `t` and those of the tables above page `vpn`.
pub open spec fn with_path(t: Set<(int, int)>, vpn: int) -> Set<(int, int)> {
    t.insert((1, prefix(vpn, 1))).insert((2, prefix(vpn, 2))).insert((3, prefix(vpn, 3)))
}

/// The names in `t` and those of the tables above the pages from `s` to `e`.
pub open spec fn with_paths(t: Set<(int, int)>, s: int, e: int) -> Set<(int, int)>
    decreases e - s,
{
    if s >= e {
        t
    } else {
        with_paths(with_path(t, s), s + 1, e)
    }
}

/// 1 if the table with this name is not in `t`.
pub open spec fn absent(t: Set<(int, int)>, k: int, p: int) -> nat {
    if t.contains((k, p)) {
        0
    } else {
        1
    }
}

/// How many tables have to be made to map page `vpn`.
pub open spec fn missing(t: Set<(int, int)>, vpn: int) -> nat {
    absent(t, 1, prefix(vpn, 1)) + absent(t, 2, prefix(vpn, 2)) + absent(t, 3, prefix(vpn, 3))
}

/// How many frames it takes to map the pages from `s` to `e`, each of them
/// with `per_page` frames of its own.
pub open spec fn frames_needed(t: Set<(int, int)>, s: int, e: int, per_page: nat) -> nat
    decreases e - s,
{
    if s >= e {
        0
    } else {
        missing(t, s) + per_page + frames_needed(with_path(t, s), s + 1, e, per_page)
    }
}

pub proof fn lemma_prefix(slots: int, vpn: int, k: int)
    requires
        0 <= slots <= 512,
        own_page(slots, vpn),
        0 <= k <= 3,
    ensures
        own(slots, k, prefix(vpn, k)),
        k > 0 ==> prefix(vpn, k) / 512 == prefix(vpn, k - 1),
        k > 0 ==> prefix(vpn, k) % 512 == table_index(vpn, k - 1),
        0 <= table_index(vpn, k) < 512,
        vpn < VPN_LIMIT,
{
}

pub proof fn lemma_own_parent(slots: int, k: int, p: int)
    requires
        0 <= slots <= 512,
        own(slots, k, p),
        k > 0,
    ensures
        own(slots, k - 1, p / 512),
        0 <= p % 512 < 512,
        k == 1 ==> p % 512 == p,
{
}

pub proof fn lemma_own_walkable(mem: Frames, root: u64, slots: int, frames: Set<u64>, vpn: int)
    requires
        tree_wf(mem, root, slots, frames),
        own_page(slots, vpn),
    ensures
        walkable(mem, root, vpn),
{
    assert forall|k: int| 0 <= k <= 3 implies ((#[trigger] table_at(mem, root, k, prefix(vpn, k))) matches Some(
        t,
    ) ==> mem.dom().contains(t)) by {
        lemma_prefix(slots, vpn, k);
    }
}

/// A tree is read the same from memories that agree on its frames.
pub proof fn lemma_table_at_same(
    mem: Frames,
    mem2: Frames,
    root: u64,
    slots: int,
    frames: Set<u64>,
    k: int,
    p: int,
)
    requires
        tree_wf(mem, root, slots, frames),
        forall|f: u64| #[trigger] frames.contains(f) ==> mem2[f] == mem[f],
        own(slots, k, p),
    ensures
        table_at(mem2, root, k, p) == table_at(mem, root, k, p),
    decreases k,
{
    if k > 0 {
        lemma_own_parent(slots, k, p);
        lemma_table_at_same(mem, mem2, root, slots, frames, k - 1, p / 512);
    }
}

pub proof fn lemma_tree_same(
    mem: Frames,
    mem2: Frames,
    root: u64,
    slots: int,
    frames: Set<u64>,
)
    requires
        tree_wf(mem, root, slots, frames),
        forall|f: u64| #[trigger] frames.contains(f) ==> mem2[f] == mem[f],
        forall|f: u64| #[trigger] frames.contains(f) ==> mem2.dom().contains(f),
    ensures
        tree_wf(mem2, root, slots, frames),
        present(mem2, root, slots) == present(mem, root, slots),
        forall|v: int|
            own_page(slots, v) ==> #[trigger] leaf(mem2, root, v) == leaf(mem, root, v),
{
    assert forall|k: int, p: int| own(slots, k, p) implies #[trigger] table_at(mem2, root, k, p)
        == table_at(mem, root, k, p) by {
        lemma_table_at_same(mem, mem2, root, slots, frames, k, p);
    }
    assert(present(mem2, root, slots) =~= present(mem, root, slots));
    assert forall|k: int, p: int|
        own(slots, k, p) && k > 0 && table_at(mem2, root, k, p) is Some implies open_link(
        #[trigger] link(mem2, root, k, p),
    ) by {
        lemma_own_parent(slots, k, p);
        assert(table_at(mem2, root, k, p) == table_at(mem, root, k, p));
        assert(frames.contains(table_at(mem, root, k - 1, p / 512)->Some_0));
        assert(open_link(link(mem, root, k, p)));
    }
    assert forall|v: int| own_page(slots, v) implies #[trigger] leaf(mem2, root, v) == leaf(
        mem,
        root,
        v,
    ) by {
        lemma_prefix(slots, v, 3);
        assert(table_at(mem2, root, 3, v / 512) == table_at(mem, root, 3, v / 512));
    }
}

/// The memory after a cleared frame `new` was hung into entry `i` of table `t`.
pub open spec fn hung(mem: Frames, t: u64, i: int, w: u64, new: u64) -> Frames {
    let cleared = mem.insert(new, cleared_frame());
    cleared.insert(t, cleared[t].update(i, w))
}

pub proof fn lemma_hang_table_at(
    mem: Frames,
    root: u64,
    slots: int,
    frames: Set<u64>,
    vpn: int,
    k: int,
    w: u64,
    new: u64,
    k2: int,
    p2: int,
)
    requires
        tree_wf(mem, root, slots, frames),
        own_page(slots, vpn),
        0 <= k < 3,
        table_at(mem, root, k, prefix(vpn, k)) is Some,
        table_at(mem, root, k + 1, prefix(vpn, k + 1)) is None,
        !frames.contains(new),
        forall|f: u64| #[trigger] frames.contains(f) ==> mem[f].len() == 512,
        pte_valid(w),
        pte_ppn(w) == new,
        !pte_valid(0),
        own(slots, k2, p2),
    ensures
        ({
            let t = table_at(mem, root, k, prefix(vpn, k))->Some_0;
            table_at(hung(mem, t, table_index(vpn, k), w, new), root, k2, p2) == if k2 == k + 1
                && p2 == prefix(vpn, k + 1) {
                Some(new)
            } else {
                table_at(mem, root, k2, p2)
            }
        }),
    decreases k2,
{
    let t = table_at(mem, root, k, prefix(vpn, k))->Some_0;
    let mem2 = hung(mem, t, table_index(vpn, k), w, new);
    lemma_prefix(slots, vpn, k);
    lemma_prefix(slots, vpn, k + 1);
    assert(frames.contains(t));
    if k2 > 0 {
        lemma_own_parent(slots, k2, p2);
        lemma_hang_table_at(mem, root, slots, frames, vpn, k, w, new, k2 - 1, p2 / 512);
        let parent = table_at(mem, root, k2 - 1, p2 / 512);
        if k2 - 1 == k + 1 && p2 / 512 == prefix(vpn, k + 1) {
            assert(table_at(mem2, root, k2 - 1, p2 / 512) == Some(new));
            assert(mem2[new] == cleared_frame());
            assert(mem2[new][p2 % 512] == 0);
        } else if parent is Some {
            let t2 = parent->Some_0;
            assert(frames.contains(t2));
            if k2 - 1 == k && p2 / 512 == prefix(vpn, k) {
                assert(t2 == t);
                assert(mem2[t] == mem[t].update(table_index(vpn, k), w));
                if p2 % 512 == table_index(vpn, k) {
                    assert(p2 == prefix(vpn, k + 1));
                } else {
                    assert(mem2[t][p2 % 512] == mem[t][p2 % 512]);
                }
            } else {
                assert(t2 != t);
                assert(mem2[t2] == mem[t2]);
            }
        }
    }
}

pub proof fn lemma_hang(
    mem: Frames,
    root: u64,
    slots: int,
    frames: Set<u64>,
    vpn: int,
    k: int,
    w: u64,
    new: u64,
)
    requires
        tree_wf(mem, root, slots, frames),
        own_page(slots, vpn),
        0 <= k < 3,
        table_at(mem, root, k, prefix(vpn, k)) is Some,
        table_at(mem, root, k + 1, prefix(vpn, k + 1)) is None,
        !frames.contains(new),
        mem.dom().contains(new),
        forall|f: u64| #[trigger] frames.contains(f) ==> mem[f].len() == 512,
        pte_valid(w),
        open_link(w),
        pte_ppn(w) == new,
        !pte_valid(0),
    ensures
        ({
            let t = table_at(mem, root, k, prefix(vpn, k))->Some_0;
            let mem2 = hung(mem, t, table_index(vpn, k), w, new);
            &&& tree_wf(mem2, root, slots, frames.insert(new))
            &&& forall|k2: int, p2: int|
                own(slots, k2, p2) ==> #[trigger] table_at(mem2, root, k2, p2) == if k2 == k + 1
                    && p2 == prefix(vpn, k + 1) {
                    Some(new)
                } else {
                    table_at(mem, root, k2, p2)
                }
            &&& forall|v: int|
                own_page(slots, v) ==> #[trigger] leaf(mem2, root, v) == if k == 2 && v / 512
                    == vpn / 512 {
                    Some(0u64)
                } else {
                    leaf(mem, root, v)
                }
            &&& present(mem2, root, slots) == present(mem, root, slots).insert(
                (k + 1, prefix(vpn, k + 1)),
            )
        }),
{
    let t = table_at(mem, root, k, prefix(vpn, k))->Some_0;
    let mem2 = hung(mem, t, table_index(vpn, k), w, new);
    lemma_prefix(slots, vpn, k);
    lemma_prefix(slots, vpn, k + 1);
    assert forall|k2: int, p2: int| own(slots, k2, p2) implies #[trigger] table_at(
        mem2,
        root,
        k2,
        p2,
    ) == if k2 == k + 1 && p2 == prefix(vpn, k + 1) {
        Some(new)
    } else {
        table_at(mem, root, k2, p2)
    } by {
        lemma_hang_table_at(mem, root, slots, frames, vpn, k, w, new, k2, p2);
    }
    assert forall|k2: int, p2: int|
        own(slots, k2, p2) && k2 > 0 && table_at(mem2, root, k2, p2) is Some implies open_link(
        #[trigger] link(mem2, root, k2, p2),
    ) by {
        lemma_own_parent(slots, k2, p2);
        let parent = table_at(mem2, root, k2 - 1, p2 / 512);
        assert(table_at(mem2, root, k2, p2) is Some ==> parent is Some);
        if k2 == k + 1 && p2 == prefix(vpn, k + 1) {
            assert(parent == Some(t));
            assert(mem2[t][table_index(vpn, k)] == w);
        } else {
            assert(table_at(mem2, root, k2, p2) == table_at(mem, root, k2, p2));
            assert(table_at(mem, root, k2 - 1, p2 / 512) is Some);
            let t2 = table_at(mem, root, k2 - 1, p2 / 512)->Some_0;
            assert(frames.contains(t2));
            assert(parent == Some(t2));
            assert(open_link(link(mem, root, k2, p2)));
            if t2 == t {
                assert(k2 - 1 == k && p2 / 512 == prefix(vpn, k));
                assert(p2 % 512 != table_index(vpn, k));
            }
        }
    }
    assert(tree_wf(mem2, root, slots, frames.insert(new)));
    assert forall|v: int| own_page(slots, v) implies #[trigger] leaf(mem2, root, v) == if k == 2
        && v / 512 == vpn / 512 {
        Some(0u64)
    } else {
        leaf(mem, root, v)
    } by {
        lemma_prefix(slots, v, 3);
        let t3 = table_at(mem, root, 3, v / 512);
        assert(table_at(mem2, root, 3, v / 512) == if k == 2 && v / 512 == vpn / 512 {
            Some(new)
        } else {
            t3
        });
        if k == 2 && v / 512 == vpn / 512 {
            assert(mem2[new] == cleared_frame());
        } else if t3 is Some {
            assert(frames.contains(t3->Some_0));
            assert(t3->Some_0 != t);
            assert(mem2[t3->Some_0] == mem[t3->Some_0]);
        }
    }
    assert(present(mem2, root, slots) =~= present(mem, root, slots).insert(
        (k + 1, prefix(vpn, k + 1)),
    ));
}

/// The memory after leaf entry `vpn` was set to `w`.
pub open spec fn leaf_set(mem: Frames, root: u64, vpn: int, w: u64) -> Frames {
    let t = table_at(mem, root, 3, vpn / 512)->Some_0;
    mem.insert(t, mem[t].update(vpn % 512, w))
}

pub proof fn lemma_leaf_set_table_at(
    mem: Frames,
    root: u64,
    slots: int,
    frames: Set<u64>,
    vpn: int,
    w: u64,
    k2: int,
    p2: int,
)
    requires
        tree_wf(mem, root, slots, frames),
        own_page(slots, vpn),
        leaf(mem, root, vpn) is Some,
        own(slots, k2, p2),
    ensures
        table_at(leaf_set(mem, root, vpn, w), root, k2, p2) == table_at(mem, root, k2, p2),
    decreases k2,
{
    lemma_prefix(slots, vpn, 3);
    if k2 > 0 {
        lemma_own_parent(slots, k2, p2);
        lemma_leaf_set_table_at(mem, root, slots, frames, vpn, w, k2 - 1, p2 / 512);
        let parent = table_at(mem, root, k2 - 1, p2 / 512);
        if parent is Some {
            assert(parent != table_at(mem, root, 3, vpn / 512));
        }
    }
}

pub proof fn lemma_leaf_set(
    mem: Frames,
    root: u64,
    slots: int,
    frames: Set<u64>,
    vpn: int,
    w: u64,
)
    requires
        tree_wf(mem, root, slots, frames),
        own_page(slots, vpn),
        leaf(mem, root, vpn) is Some,
        forall|f: u64| #[trigger] frames.contains(f) ==> mem[f].len() == 512,
    ensures
        ({
            let mem2 = leaf_set(mem, root, vpn, w);
            &&& tree_wf(mem2, root, slots, frames)
            &&& present(mem2, root, slots) == present(mem, root, slots)
            &&& forall|v: int|
                own_page(slots, v) ==> #[trigger] leaf(mem2, root, v) == if v == vpn {
                    Some(w)
                } else {
                    leaf(mem, root, v)
                }
        }),
{
    let mem2 = leaf_set(mem, root, vpn, w);
    lemma_prefix(slots, vpn, 3);
    assert forall|k2: int, p2: int| own(slots, k2, p2) implies #[trigger] table_at(
        mem2,
        root,
        k2,
        p2,
    ) == table_at(mem, root, k2, p2) by {
        lemma_leaf_set_table_at(mem, root, slots, frames, vpn, w, k2, p2);
    }
    assert(present(mem2, root, slots) =~= present(mem, root, slots));
    let t = table_at(mem, root, 3, vpn / 512)->Some_0;
    assert(frames.contains(t));
    assert forall|k2: int, p2: int|
        own(slots, k2, p2) && k2 > 0 && table_at(mem2, root, k2, p2) is Some implies open_link(
        #[trigger] link(mem2, root, k2, p2),
    ) by {
        lemma_own_parent(slots, k2, p2);
        assert(table_at(mem2, root, k2, p2) == table_at(mem, root, k2, p2));
        assert(table_at(mem, root, k2 - 1, p2 / 512) is Some);
        assert(table_at(mem, root, k2 - 1, p2 / 512) != table_at(mem, root, 3, vpn / 512));
        assert(open_link(link(mem, root, k2, p2)));
    }
    assert forall|v: int| own_page(slots, v) implies #[trigger] leaf(mem2, root, v) == if v == vpn {
        Some(w)
    } else {
        leaf(mem, root, v)
    } by {
        lemma_prefix(slots, v, 3);
        assert(table_at(mem2, root, 3, v / 512) == table_at(mem, root, 3, v / 512));
        if table_at(mem, root, 3, v / 512) is Some {
            if v / 512 == vpn / 512 {
                assert(v == vpn || v % 512 != vpn % 512);
            } else {
                assert(table_at(mem, root, 3, v / 512) != table_at(mem, root, 3, vpn / 512));
            }
        }
    }
}

} // verus!
