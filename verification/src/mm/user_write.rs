//! Writing to the memory of a user program.
use vstd::prelude::*;
use super::address::{PhysAddr, PPN_LIMIT, VA_LIMIT};
use super::frame_allocator::FramePool;
use super::map_area::{lemma_perm_flags, perm_flags};
use super::memory_set::{
    areas_data, config, lemma_owned_allocated, lemma_page_frame, lemma_space_kept, MemorySet,
};
use super::page_table::{lemma_root_is_table, pte_reads_back, token_reads_back};
use super::phys::{frame_byte, write_byte, PhysMemory};
use super::table_tree::{lemma_own_walkable, own_page};
use super::user_memory::{reachable, translated_refmut, user_frame};

verus! {

/// Whether page `v` belongs to area `k`, which has frames of its own.
pub open spec fn page_of(ms: &MemorySet, k: int, v: int) -> bool {
    0 <= k < ms.areas().len() && ms.areas()[k].framed() && ms.areas()[k].contains(v)
}

/// Whether the `len` bytes from pointer value `ptr` on lie in pages of areas.
pub open spec fn user_range(ms: &MemorySet, ptr: int, len: int) -> bool {
    &&& ptr + len <= u64::MAX
    &&& ptr % (VA_LIMIT as int) + len <= VA_LIMIT
    &&& forall|i: int|
        0 <= i < len ==> user_mapped(ms, #[trigger] user_page(ptr, i))
}

/// Whether page `v` belongs to an area that has frames of its own.
pub open spec fn user_mapped(ms: &MemorySet, v: int) -> bool {
    exists|k: int| page_of(ms, k, v)
}

/// The page of the byte `i` bytes after pointer value `ptr`.
pub open spec fn user_page(ptr: int, i: int) -> int {
    ((ptr + i) % (VA_LIMIT as int)) / 0x1000
}

/// Byte `j` of page `v` of area `k`.
pub open spec fn area_byte<M: PhysMemory>(
    ms: &MemorySet,
    pool: &FramePool<M>,
    k: int,
    v: int,
    j: int,
) -> u8 {
    frame_byte(pool.frames()[ms.areas()[k].data[v]], j)
}

/// Byte `j` of page `v` once `bytes` were written from pointer value `ptr` on,
/// where `b` was before.
pub open spec fn overwritten(ptr: int, bytes: Seq<u8>, v: int, j: int, b: u8) -> u8 {
    let i = v * 0x1000 + j - ptr % (VA_LIMIT as int);
    if 0 <= i < bytes.len() {
        bytes[i]
    } else {
        b
    }
}

/// `pool` came from `pool0` by writing `bytes` from pointer value `ptr` on.
pub open spec fn user_written<M: PhysMemory>(
    ms: &MemorySet,
    pool: &FramePool<M>,
    pool0: &FramePool<M>,
    ptr: int,
    bytes: Seq<u8>,
) -> bool {
    &&& pool.same_extent(pool0)
    &&& pool.free() == pool0.free()
    &&& pool.free_count() == pool0.free_count()
    &&& forall|f: u64|
        !areas_data(ms.areas()).contains(f) ==> #[trigger] pool.frames()[f] == pool0.frames()[f]
    &&& forall|k: int, v: int, j: int|
        page_of(ms, k, v) && 0 <= j < 0x1000 ==> #[trigger] area_byte(ms, pool, k, v, j)
            == overwritten(ptr, bytes, v, j, area_byte(ms, pool0, k, v, j))
}

/// The byte at a pointer into page `v` of area `k` is reached through the tables
/// and lies in the frame of the page.
pub proof fn lemma_user_frame<M: PhysMemory>(
    ms: &MemorySet,
    pool: &FramePool<M>,
    k: int,
    ptr: int,
)
    requires
        ms.wf(pool),
        pool.wf(),
        page_of(ms, k, (ptr % (VA_LIMIT as int)) / 0x1000),
    ensures
        ({
            let v = (ptr % (VA_LIMIT as int)) / 0x1000;
            &&& reachable(pool.frames(), ms.root(), ptr)
            &&& user_frame(pool.frames(), ms.root(), ptr) == ms.areas()[k].data[v]
            &&& ms.areas()[k].data.dom().contains(v)
            &&& areas_data(ms.areas()).contains(ms.areas()[k].data[v])
            &&& !ms.table().table_frames().contains(ms.areas()[k].data[v])
            &&& pool.allocated(ms.areas()[k].data[v])
        }),
{
    let v = (ptr % (VA_LIMIT as int)) / 0x1000;
    let area = ms.areas()[k];
    lemma_page_frame(ms, pool, k, v, config(area));
    assert(area.wf());
    assert(own_page(ms.table().slots(), v));
    lemma_own_walkable(
        pool.frames(),
        ms.root(),
        ms.table().slots(),
        ms.table().table_frames(),
        v,
    );
    assert(ms.table().leaf(pool, v) == Some(area.entry(v)));
    lemma_perm_flags(area.perm);
    pool.mem.frames_wf();
    pte_reads_back(area.data[v], perm_flags(area.perm));
}

/// A byte of memory of a user program can be read.
pub proof fn lemma_user_readable<M: PhysMemory>(
    ms: &MemorySet,
    pool: &FramePool<M>,
    ptr: int,
    len: int,
    i: int,
)
    requires
        ms.wf(pool),
        pool.wf(),
        user_range(ms, ptr, len),
        0 <= i < len,
    ensures
        reachable(pool.frames(), ms.root(), ptr + i),
        pool.frames().dom().contains(user_frame(pool.frames(), ms.root(), ptr + i)),
{
    let v = user_page(ptr, i);
    assert(user_mapped(ms, v));
    let k = choose|k: int| page_of(ms, k, v);
    lemma_user_frame(ms, pool, k, ptr + i);
}

/// Write `bytes` from pointer value `ptr` on into the address space `ms`.
pub fn write_user<M: PhysMemory>(
    pool: &mut FramePool<M>,
    ms: &MemorySet,
    ptr: u64,
    bytes: &[u8],
)
    requires
        old(pool).wf(),
        ms.wf(old(pool)),
        user_range(ms, ptr as int, bytes@.len() as int),
    ensures
        final(pool).wf(),
        ms.wf(final(pool)),
        ms.exact(old(pool)) ==> ms.exact(final(pool)),
        user_written(ms, final(pool), old(pool), ptr as int, bytes@),
{
    let ghost pool0 = *pool;
    proof {
        lemma_root_is_table(&ms.table(), pool);
        pool.mem.frames_wf();
    }
    let token: u64 = ms.token();
    let mut i: usize = 0;
    while i < bytes.len()
        invariant
            i <= bytes@.len(),
            pool0.wf(),
            ms.wf(&pool0),
            pool.wf(),
            ms.wf(pool),
            ms.exact(&pool0) ==> ms.exact(pool),
            ms.root() < PPN_LIMIT,
            token == ms.root() * 0x1000,
            user_range(ms, ptr as int, bytes@.len() as int),
            user_written(ms, pool, &pool0, ptr as int, bytes@.take(i as int)),
        decreases bytes@.len() - i,
    {
        let ghost pool1 = *pool;
        let ghost v = user_page(ptr as int, i as int);
        let ghost k = choose|k: int| #[trigger] page_of(ms, k, v);
        proof {
            assert(user_mapped(ms, v));
            lemma_user_frame(ms, pool, k, ptr + i);
            token_reads_back(ms.root());
        }
        let pa: PhysAddr = translated_refmut(&pool.mem, token, ptr + i as u64);
        write_byte(&mut pool.mem, pa.floor().0, pa.page_offset() as usize, bytes[i]);
        proof {
            let f = ms.areas()[k].data[v];
            let b = bytes@[i as int];
            let bytes0 = bytes@.take(i as int);
            let bytes1 = bytes@.take(i + 1);
            let at = ptr as int % (VA_LIMIT as int) + i;
            assert((ptr + i) % (VA_LIMIT as int) == at);
            assert(v * 0x1000 + (ptr + i) % 0x1000 == at);
            assert forall|g: u64| #[trigger] ms.owned().contains(g) implies !pool.free().contains(
                g,
            ) by {
                lemma_owned_allocated(ms, &pool1, g);
            }
            lemma_space_kept(ms, &pool1, pool);
            assert forall|k2: int, v2: int, j: int|
                page_of(ms, k2, v2) && 0 <= j < 0x1000 implies #[trigger] area_byte(
                ms,
                pool,
                k2,
                v2,
                j,
            ) == overwritten(
                ptr as int,
                bytes1,
                v2,
                j,
                area_byte(ms, &pool0, k2, v2, j),
            ) by {
                let a2 = ms.areas()[k2];
                lemma_page_frame(ms, &pool1, k2, v2, config(a2));
                assert(area_byte(ms, &pool1, k2, v2, j) == overwritten(
                    ptr as int,
                    bytes0,
                    v2,
                    j,
                    area_byte(ms, &pool0, k2, v2, j),
                ));
                if a2.data[v2] == f {
                    assert(ms.areas()[k].data_set().contains(f));
                    assert(k2 == k);
                    assert(v2 == v);
                } else {
                    assert(pool.frames()[a2.data[v2]] == pool1.frames()[a2.data[v2]]);
                    if v2 == v {
                        assert(ms.areas()[k].contains(v) && ms.areas()[k2].contains(v));
                    }
                }
            }
        }
        i = i + 1;
    }
    assert(bytes@.take(bytes@.len() as int) =~= bytes@);
}

} // verus!
