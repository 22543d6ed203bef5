//! What the processor lets a program do with a page.
//!
//! A walk passes one entry at each of four levels. User access and writes have to be
//! allowed by all of them; execution is forbidden as soon as one forbids it.
use vstd::prelude::*;
use super::address::{table_index, VPN_LIMIT};
use super::frame_allocator::FramePool;
use super::map_area::{entry_allows_what_permissions_say, MAP_U, MAP_W, MAP_X};
use super::memory_set::MemorySet;
use super::page_table::{PTE_NX, PTE_PS, PTE_U, PTE_V, PTE_W};
use super::phys::{Frames, PhysMemory};
use super::table_tree::{
    lemma_prefix, link, mapped, open_link, own, own_page, prefix, table_at, tree_wf,
};

verus! {

/// What can be done with a page.
pub struct Rights {
    /// it can be used from user mode
    pub user: bool,
    /// it can be written
    pub write: bool,
    /// code can be fetched from it
    pub execute: bool,
}

/// The entry of level `k` that the walk to page `vpn` passes.
pub open spec fn walk_entry(mem: Frames, root: u64, vpn: int, k: int) -> u64 {
    mem[table_at(mem, root, k, prefix(vpn, k))->Some_0][table_index(vpn, k)]
}

/// What the processor lets a program do with page `vpn` under the tables of `root`, if
/// the page is mapped by four levels of tables.
pub open spec fn page_rights(mem: Frames, root: u64, vpn: int) -> Option<Rights> {
    if mapped(mem, root, vpn) is Some && forall|k: int|
        0 <= k < 3 ==> #[trigger] walk_entry(mem, root, vpn, k) & PTE_PS == 0 {
        Some(
            Rights {
                user: forall|k: int|
                    0 <= k <= 3 ==> #[trigger] walk_entry(mem, root, vpn, k) & PTE_U != 0,
                write: forall|k: int|
                    0 <= k <= 3 ==> #[trigger] walk_entry(mem, root, vpn, k) & PTE_W != 0,
                execute: forall|k: int|
                    0 <= k <= 3 ==> #[trigger] walk_entry(mem, root, vpn, k) & PTE_NX == 0,
            },
        )
    } else {
        None
    }
}

/// The rights that a leaf entry gives.
pub open spec fn entry_rights(w: u64) -> Rights {
    Rights { user: w & PTE_U != 0, write: w & PTE_W != 0, execute: w & PTE_NX == 0 }
}

/// The rights that permissions stand for.
pub open spec fn perm_rights(perm: u8) -> Rights {
    Rights {
        user: perm & MAP_U == MAP_U,
        write: perm & MAP_W == MAP_W,
        execute: perm & MAP_X == MAP_X,
    }
}

/// Every page of every area can be used exactly as the permissions of the area say.
pub open spec fn grants<M: PhysMemory>(ms: &MemorySet, pool: &FramePool<M>) -> bool {
    forall|i: int, v: int|
        0 <= i < ms.areas().len() && #[trigger] ms.areas()[i].contains(v) ==> page_rights(
            pool.frames(),
            ms.root(),
            v,
        ) == Some(perm_rights(ms.areas()[i].perm))
}

/// An entry above the leaf takes no right away.
proof fn lemma_open_link(w: u64)
    requires
        open_link(w),
    ensures
        w & PTE_V != 0,
        w & PTE_U != 0,
        w & PTE_W != 0,
        w & PTE_NX == 0,
        w & PTE_PS == 0,
{
    assert(w & 1 != 0 && w & 4 != 0 && w & 2 != 0 && w & 0x8000_0000_0000_0000 == 0 && w & 0x80
        == 0) by (bit_vector)
        requires
            w & 0x8000_0000_0000_0087 == 1u64 | 2u64 | 4u64,
    ;
}

/// The rights on a page of a tree are those that its leaf entry gives.
pub proof fn leaf_entry_decides(mem: Frames, root: u64, slots: int, frames: Set<u64>, vpn: int)
    requires
        tree_wf(mem, root, slots, frames),
        own_page(slots, vpn),
        mapped(mem, root, vpn) is Some,
    ensures
        page_rights(mem, root, vpn) == Some(entry_rights(mapped(mem, root, vpn)->Some_0)),
{
    let w = mapped(mem, root, vpn)->Some_0;
    lemma_prefix(slots, vpn, 0);
    lemma_prefix(slots, vpn, 1);
    lemma_prefix(slots, vpn, 2);
    lemma_prefix(slots, vpn, 3);
    assert(table_at(mem, root, 3, prefix(vpn, 3)) is Some);
    assert(table_at(mem, root, 2, prefix(vpn, 2)) is Some);
    assert(table_at(mem, root, 1, prefix(vpn, 1)) is Some);
    assert(walk_entry(mem, root, vpn, 3) == w);
    assert forall|k: int| 0 <= k < 3 implies {
        let e = #[trigger] walk_entry(mem, root, vpn, k);
        &&& e & PTE_U != 0
        &&& e & PTE_W != 0
        &&& e & PTE_NX == 0
        &&& e & PTE_PS == 0
    } by {
        lemma_prefix(slots, vpn, k + 1);
        assert(walk_entry(mem, root, vpn, k) == link(mem, root, k + 1, prefix(vpn, k + 1)));
        assert(own(slots, k + 1, prefix(vpn, k + 1)));
        assert(table_at(mem, root, k + 1, prefix(vpn, k + 1)) is Some);
        lemma_open_link(walk_entry(mem, root, vpn, k));
    }
    let rights = page_rights(mem, root, vpn)->Some_0;
    assert(rights.user ==> walk_entry(mem, root, vpn, 3) & PTE_U != 0);
    assert(rights.write ==> walk_entry(mem, root, vpn, 3) & PTE_W != 0);
    assert(rights.execute ==> walk_entry(mem, root, vpn, 3) & PTE_NX == 0);
}

/// In a sound address space every page of every area can be used exactly as the
/// permissions of the area say.
pub proof fn areas_grant_their_permissions<M: PhysMemory>(ms: &MemorySet, pool: &FramePool<M>)
    requires
        pool.wf(),
        ms.wf(pool),
    ensures
        grants(ms, pool),
{
    let mem = pool.frames();
    assert forall|i: int, v: int|
        0 <= i < ms.areas().len() && #[trigger] ms.areas()[i].contains(v) implies page_rights(
        mem,
        ms.root(),
        v,
    ) == Some(perm_rights(ms.areas()[i].perm)) by {
        let area = ms.areas()[i];
        assert(area.wf());
        assert(ms.table().leaf(pool, v) == Some(area.entry(v)));
        assert(area.linear_ok(v));
        if area.framed() {
            assert(area.data.dom().contains(v));
            assert(area.data_set().contains(area.data[v]));
            assert(pool.allocated(area.data[v]));
            pool.mem.frames_wf();
        }
        entry_allows_what_permissions_say(area.frame_of(v), area.perm);
        leaf_entry_decides(mem, ms.root(), ms.table().slots(), ms.table().table_frames(), v);
    }
}

/// Two roots with the same entry above a page give the same rights on it.
pub proof fn shared_entry_shares_rights(mem: Frames, root: u64, other: u64, vpn: int)
    requires
        0 <= vpn < VPN_LIMIT,
        mem[root][vpn / 0x800_0000] == mem[other][vpn / 0x800_0000],
    ensures
        page_rights(mem, root, vpn) == page_rights(mem, other, vpn),
{
    reveal_with_fuel(table_at, 4);
    let p3 = vpn / 512;
    let p2 = p3 / 512;
    let p1 = p2 / 512;
    assert(p1 == vpn / 0x800_0000 && p2 == vpn / 0x4_0000);
    assert(table_at(mem, root, 1, p1) == table_at(mem, other, 1, p1));
    assert(table_at(mem, root, 2, p2) == table_at(mem, other, 2, p2));
    assert(table_at(mem, root, 3, p3) == table_at(mem, other, 3, p3));
    assert(walk_entry(mem, root, vpn, 0) == walk_entry(mem, other, vpn, 0));
    assert(walk_entry(mem, root, vpn, 1) == walk_entry(mem, other, vpn, 1));
    assert(walk_entry(mem, root, vpn, 2) == walk_entry(mem, other, vpn, 2));
    assert(walk_entry(mem, root, vpn, 3) == walk_entry(mem, other, vpn, 3));
    assert forall|k: int| 0 <= k <= 3 implies #[trigger] walk_entry(mem, root, vpn, k)
        == walk_entry(mem, other, vpn, k) by {
        assert(k == 0 || k == 1 || k == 2 || k == 3);
    }
    assert forall|k: int| 0 <= k <= 3 implies #[trigger] walk_entry(mem, other, vpn, k)
        == walk_entry(mem, root, vpn, k) by {
        assert(k == 0 || k == 1 || k == 2 || k == 3);
    }
}

} // verus!
