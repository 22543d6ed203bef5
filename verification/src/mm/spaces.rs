//! All address spaces together: the kernel's and one for each process, none of
//! which shares a frame with another.
use vstd::prelude::*;
use super::frame_allocator::FramePool;
use super::memory_set::{
    areas_data, cut_back, lemma_owned_allocated, lemma_space_kept, pushed, space_made, MemorySet,
};
use super::map_area::{data_between, AreaView};
use super::page_table::{lemma_root_is_table, pte_valid};
use super::phys::PhysMemory;
use super::table_tree::{root_kept, table_at};

verus! {

/// The address space shares what the kernel has mapped above its own part: there
/// its root has every valid entry of the kernel's root.
pub open spec fn shares_kernel<M: PhysMemory>(
    pool: &FramePool<M>,
    kernel: &MemorySet,
    ms: &MemorySet,
) -> bool {
    forall|i: int|
        ms.table().slots() <= i < 512 && pte_valid(pool.frames()[kernel.root()][i])
            ==> #[trigger] pool.frames()[ms.root()][i] == pool.frames()[kernel.root()][i]
}

/// Every address space is sound and shares what the kernel has mapped, and no
/// frame belongs to two of them.
pub open spec fn spaces_wf<M: PhysMemory>(
    pool: &FramePool<M>,
    kernel: &MemorySet,
    spaces: Map<usize, MemorySet>,
) -> bool {
    &&& pool.wf()
    &&& kernel.wf(pool)
    &&& forall|p: usize| #[trigger] spaces.dom().contains(p) ==> spaces[p].wf(pool)
    &&& forall|p: usize| #[trigger]
        spaces.dom().contains(p) ==> shares_kernel(pool, kernel, &spaces[p])
    &&& forall|p: usize| #[trigger]
        spaces.dom().contains(p) ==> spaces[p].owned().disjoint(kernel.owned())
    &&& forall|p: usize, q: usize|
        #[trigger] spaces.dom().contains(p) && #[trigger] spaces.dom().contains(q) && p != q
            ==> spaces[p].owned().disjoint(spaces[q].owned())
}

/// Between `pool0` and `pool` only frames of `owned` and free frames were
/// touched or changed hands.
pub open spec fn confined<M: PhysMemory>(
    pool: &FramePool<M>,
    pool0: &FramePool<M>,
    owned: Set<u64>,
) -> bool {
    &&& pool.same_extent(pool0)
    &&& forall|f: u64| #[trigger]
        pool.free().contains(f) ==> owned.contains(f) || pool0.free().contains(f)
    &&& forall|f: u64|
        !owned.contains(f) && !pool0.free().contains(f) ==> #[trigger] pool.frames()[f]
            == pool0.frames()[f]
}

pub proof fn lemma_confined_trans<M: PhysMemory>(
    p2: &FramePool<M>,
    p1: &FramePool<M>,
    p0: &FramePool<M>,
    owned1: Set<u64>,
    owned0: Set<u64>,
)
    requires
        confined(p1, p0, owned0),
        confined(p2, p1, owned1),
        forall|f: u64| #[trigger] owned1.contains(f) ==> owned0.contains(f) || p0.free().contains(f),
    ensures
        confined(p2, p0, owned0),
{
    assert forall|f: u64| #[trigger] p2.free().contains(f) implies owned0.contains(f)
        || p0.free().contains(f) by {
        if p1.free().contains(f) {
        } else {
            assert(owned1.contains(f));
        }
    }
    assert forall|f: u64| !owned0.contains(f) && !p0.free().contains(f) implies #[trigger] p2.frames()[f]
        == p0.frames()[f] by {
        assert(p1.frames()[f] == p0.frames()[f]);
        assert(!owned1.contains(f));
        assert(!p1.free().contains(f));
    }
}

/// An address space that shares no frame with `owned` survives a change that
/// is confined to `owned`.
pub proof fn lemma_bystander<M: PhysMemory>(
    ms: &MemorySet,
    pool: &FramePool<M>,
    pool0: &FramePool<M>,
    owned: Set<u64>,
)
    requires
        ms.wf(pool0),
        confined(pool, pool0, owned),
        ms.owned().disjoint(owned),
    ensures
        ms.wf(pool),
        ms.exact(pool0) ==> ms.exact(pool),
        ms.table().present(pool) == ms.table().present(pool0),
        forall|f: u64| #[trigger] ms.owned().contains(f) ==> pool.frames()[f] == pool0.frames()[f],
{
    assert forall|f: u64| #[trigger] ms.owned().contains(f) implies !pool.free().contains(f)
        && pool.frames()[f] == pool0.frames()[f] by {
        lemma_owned_allocated(ms, pool0, f);
        assert(!owned.contains(f));
    }
    assert forall|f: u64| #[trigger] ms.table().table_frames().contains(f) implies pool.frames()[f]
        == pool0.frames()[f] by {
        assert(ms.owned().contains(f));
    }
    lemma_space_kept(ms, pool0, pool);
}

/// What is shared with the kernel stays shared while neither root changes.
proof fn lemma_roots_kept<M: PhysMemory>(
    ms: &MemorySet,
    kernel: &MemorySet,
    pool: &FramePool<M>,
    pool0: &FramePool<M>,
)
    requires
        ms.wf(pool0),
        kernel.wf(pool0),
        shares_kernel(pool0, kernel, ms),
        forall|f: u64| #[trigger] ms.owned().contains(f) ==> pool.frames()[f] == pool0.frames()[f],
        forall|f: u64| #[trigger]
            kernel.owned().contains(f) ==> pool.frames()[f] == pool0.frames()[f],
    ensures
        shares_kernel(pool, kernel, ms),
{
    lemma_root_is_table(&ms.table(), pool0);
    lemma_root_is_table(&kernel.table(), pool0);
    assert(ms.owned().contains(ms.root()));
    assert(kernel.owned().contains(kernel.root()));
}

/// The frames of a process's address space after a change: `owned` says which
/// frames the changed address space had, and what it has now comes from there
/// or was free.
pub proof fn lemma_space_changed<M: PhysMemory>(
    pool: &FramePool<M>,
    pool0: &FramePool<M>,
    kernel: &MemorySet,
    spaces: Map<usize, MemorySet>,
    p: usize,
    new: MemorySet,
    owned: Set<u64>,
)
    requires
        spaces_wf(pool0, kernel, spaces),
        pool.wf(),
        confined(pool, pool0, owned),
        owned == if spaces.dom().contains(p) {
            spaces[p].owned()
        } else {
            Set::empty()
        },
        new.wf(pool),
        shares_kernel(pool, kernel, &new),
        forall|f: u64| #[trigger]
            new.owned().contains(f) ==> owned.contains(f) || pool0.free().contains(f),
    ensures
        spaces_wf(pool, kernel, spaces.insert(p, new)),
{
    let after = spaces.insert(p, new);
    assert(kernel.owned().disjoint(owned));
    lemma_bystander(kernel, pool, pool0, owned);
    assert forall|q: usize| #[trigger] after.dom().contains(q) implies after[q].wf(pool)
        && shares_kernel(pool, kernel, &after[q]) by {
        if q != p {
            assert(spaces.dom().contains(q));
            assert(spaces[q].owned().disjoint(owned));
            lemma_bystander(&spaces[q], pool, pool0, owned);
            lemma_roots_kept(&spaces[q], kernel, pool, pool0);
        }
    }
    assert forall|q: usize| #[trigger] after.dom().contains(q) implies after[q].owned().disjoint(
        kernel.owned(),
    ) by {
        if q != p {
            assert(spaces.dom().contains(q));
        } else {
            assert forall|f: u64| new.owned().contains(f) implies !kernel.owned().contains(f) by {
                if kernel.owned().contains(f) {
                    lemma_owned_allocated(kernel, pool0, f);
                }
            }
        }
    }
    assert forall|q: usize, r: usize|
        #[trigger] after.dom().contains(q) && #[trigger] after.dom().contains(r) && q
            != r implies after[q].owned().disjoint(after[r].owned()) by {
        if q != p && r != p {
            assert(spaces.dom().contains(q) && spaces.dom().contains(r));
        } else {
            let o = if q == p {
                r
            } else {
                q
            };
            assert(spaces.dom().contains(o));
            assert forall|f: u64| new.owned().contains(f) implies !spaces[o].owned().contains(f) by {
                if spaces[o].owned().contains(f) {
                    lemma_owned_allocated(&spaces[o], pool0, f);
                    if owned.contains(f) {
                        assert(spaces.dom().contains(p));
                    }
                }
            }
        }
    }
}

/// The root of the kernel's address space has no valid entry that it did not have
/// before.
pub open spec fn root_settled<M: PhysMemory>(
    kernel: &MemorySet,
    pool: &FramePool<M>,
    kernel0: &MemorySet,
    pool0: &FramePool<M>,
) -> bool {
    &&& kernel.root() == kernel0.root()
    &&& forall|i: int|
        0 <= i < 512 && pte_valid(pool.frames()[kernel.root()][i])
            ==> #[trigger] pool.frames()[kernel.root()][i] == pool0.frames()[kernel.root()][i]
}

/// The same for the kernel's address space.
pub proof fn lemma_kernel_changed<M: PhysMemory>(
    pool: &FramePool<M>,
    pool0: &FramePool<M>,
    kernel0: &MemorySet,
    kernel: &MemorySet,
    spaces: Map<usize, MemorySet>,
)
    requires
        spaces_wf(pool0, kernel0, spaces),
        pool.wf(),
        confined(pool, pool0, kernel0.owned()),
        kernel.wf(pool),
        root_settled(kernel, pool, kernel0, pool0),
        forall|f: u64| #[trigger]
            kernel.owned().contains(f) ==> kernel0.owned().contains(f) || pool0.free().contains(f),
    ensures
        spaces_wf(pool, kernel, spaces),
{
    assert forall|q: usize| #[trigger] spaces.dom().contains(q) implies spaces[q].wf(pool)
        && shares_kernel(pool, kernel, &spaces[q]) by {
        lemma_bystander(&spaces[q], pool, pool0, kernel0.owned());
        lemma_root_is_table(&spaces[q].table(), pool0);
        assert(spaces[q].owned().contains(spaces[q].root()));
    }
    assert forall|q: usize| #[trigger] spaces.dom().contains(q) implies spaces[q].owned().disjoint(
        kernel.owned(),
    ) by {
        assert forall|f: u64| spaces[q].owned().contains(f) implies !kernel.owned().contains(f) by {
            lemma_owned_allocated(&spaces[q], pool0, f);
        }
    }
}

/// An address space that was given back is gone.
pub proof fn lemma_space_gone<M: PhysMemory>(
    pool: &FramePool<M>,
    pool0: &FramePool<M>,
    kernel: &MemorySet,
    spaces: Map<usize, MemorySet>,
    p: usize,
)
    requires
        spaces_wf(pool0, kernel, spaces),
        spaces.dom().contains(p),
        pool.wf(),
        confined(pool, pool0, spaces[p].owned()),
    ensures
        spaces_wf(pool, kernel, spaces.remove(p)),
{
    let after = spaces.remove(p);
    let owned = spaces[p].owned();
    assert(kernel.owned().disjoint(owned));
    lemma_bystander(kernel, pool, pool0, owned);
    assert forall|q: usize| #[trigger] after.dom().contains(q) implies after[q].wf(pool)
        && shares_kernel(pool, kernel, &after[q]) && after[q].owned().disjoint(kernel.owned()) by {
        assert(spaces.dom().contains(q));
        assert(spaces[q].owned().disjoint(owned));
        lemma_bystander(&spaces[q], pool, pool0, owned);
        lemma_roots_kept(&spaces[q], kernel, pool, pool0);
    }
    assert forall|q: usize, r: usize|
        #[trigger] after.dom().contains(q) && #[trigger] after.dom().contains(r) && q
            != r implies after[q].owned().disjoint(after[r].owned()) by {
        assert(spaces.dom().contains(q) && spaces.dom().contains(r));
    }
}

/// Mapping an area is confined to the address space.
pub proof fn lemma_pushed_confined<M: PhysMemory>(
    ms: &MemorySet,
    pool: &FramePool<M>,
    ms0: &MemorySet,
    pool0: &FramePool<M>,
    area: AreaView,
    data: Option<Seq<u8>>,
)
    requires
        pushed(ms, pool, ms0, pool0, area, data),
        ms.owned().union(pool.free()) == ms0.owned().union(pool0.free()),
    ensures
        confined(pool, pool0, ms0.owned()),
        forall|f: u64| #[trigger]
            ms.owned().contains(f) ==> ms0.owned().contains(f) || pool0.free().contains(f),
{
    assert forall|f: u64| #[trigger] ms.owned().contains(f) implies ms0.owned().contains(f)
        || pool0.free().contains(f) by {
        assert(ms.owned().union(pool.free()).contains(f));
    }
}

/// Taking an area out, or a part of it, is confined to the address space.
pub proof fn lemma_cut_confined<M: PhysMemory>(
    ms: &MemorySet,
    pool: &FramePool<M>,
    ms0: &MemorySet,
    pool0: &FramePool<M>,
    i: int,
    s: int,
)
    requires
        0 <= i < ms0.areas().len(),
        cut_back(ms, pool, ms0, pool0, i, s),
    ensures
        confined(pool, pool0, ms0.owned()),
{
    let area0 = ms0.areas()[i];
    assert forall|f: u64| #[trigger] pool.free().contains(f) implies ms0.owned().contains(f)
        || pool0.free().contains(f) by {
        if data_between(area0, s, area0.end).contains(f) {
            let v = choose|v: int|
                s <= v < area0.end && area0.data.dom().contains(v) && #[trigger] area0.data[v] == f;
            assert(area0.data.dom().contains(v) && area0.data[v] == f);
            assert(ms0.areas()[i].data_set().contains(f));
            assert(areas_data(ms0.areas()).contains(f));
        }
    }
}

/// Making a new address space is confined to free frames.
pub proof fn lemma_made_confined<M: PhysMemory>(
    ms: &MemorySet,
    pool: &FramePool<M>,
    pool0: &FramePool<M>,
    kernel_root: u64,
    slots: int,
    areas: Seq<AreaView>,
)
    requires
        space_made(ms, pool, pool0, kernel_root, slots, areas),
    ensures
        confined(pool, pool0, Set::empty()),
        forall|f: u64| #[trigger] ms.owned().contains(f) ==> pool0.free().contains(f),
{
    assert forall|f: u64| #[trigger] ms.owned().contains(f) implies pool0.free().contains(f) by {
        assert(pool0.free().difference(pool.free()).contains(f));
    }
}

/// An address space that changed in its own part shares what it shared before.
pub proof fn lemma_own_part_changed<M: PhysMemory>(
    ms: &MemorySet,
    pool: &FramePool<M>,
    ms0: &MemorySet,
    pool0: &FramePool<M>,
    kernel: &MemorySet,
)
    requires
        ms0.wf(pool0),
        kernel.wf(pool0),
        shares_kernel(pool0, kernel, ms0),
        ms0.owned().disjoint(kernel.owned()),
        confined(pool, pool0, ms0.owned()),
        ms.root() == ms0.root(),
        ms.table().slots() == ms0.table().slots(),
        root_kept(pool.frames(), pool0.frames(), ms0.root(), ms0.table().slots()),
    ensures
        shares_kernel(pool, kernel, ms),
{
    lemma_root_is_table(&ms0.table(), pool0);
    lemma_root_is_table(&kernel.table(), pool0);
    assert(kernel.owned().contains(kernel.root()));
    assert(pool.frames()[kernel.root()] == pool0.frames()[kernel.root()]);
}

/// The kernel's root is settled if no table hangs on it that was not there.
pub proof fn lemma_root_settled<M: PhysMemory>(
    kernel: &MemorySet,
    pool: &FramePool<M>,
    kernel0: &MemorySet,
    pool0: &FramePool<M>,
)
    requires
        kernel.root() == kernel0.root(),
        kernel.table().slots() == 512,
        kernel0.table().slots() == 512,
        root_kept(pool.frames(), pool0.frames(), kernel0.root(), 512),
        forall|i: int| #[trigger]
            kernel.table().present(pool).contains((1int, i)) ==> kernel0.table().present(
                pool0,
            ).contains((1int, i)),
    ensures
        root_settled(kernel, pool, kernel0, pool0),
{
    let root = kernel.root();
    assert forall|i: int| 0 <= i < 512 && pte_valid(pool.frames()[root][i]) implies #[trigger] pool.frames()[root][i]
        == pool0.frames()[root][i] by {
        reveal_with_fuel(table_at, 2);
        assert(table_at(pool.frames(), root, 1, i) is Some);
        assert(kernel.table().present(pool).contains((1int, i)));
        assert(table_at(pool0.frames(), root, 1, i) is Some);
        assert(pte_valid(pool0.frames()[root][i]));
    }
}

} // verus!
