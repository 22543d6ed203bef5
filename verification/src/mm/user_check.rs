//! Tests of pointers that a user program hands over, before they are followed.
use vstd::prelude::*;
use super::address::{VirtAddr, VirtPageNum, VA_LIMIT, VPN_LIMIT};
use super::page_table::{root_of, PageTable, PageTableEntry};
use super::phys::{read_byte, Frames, PhysMemory};
use super::table_tree::{leaf, lemma_prefix, prefix, table_at, walkable};
use super::user_memory::{reachable, same_half, string_at, user_byte, user_frame};

verus! {

/// Whether the byte at pointer value `ptr` can be read through the tables of `root`.
pub open spec fn byte_readable(mem: Frames, root: u64, ptr: int) -> bool {
    reachable(mem, root, ptr) && mem.dom().contains(user_frame(mem, root, ptr))
}

/// Whether the `len` bytes from pointer value `ptr` on can be read through the tables
/// of `root`.
pub open spec fn range_readable(mem: Frames, root: u64, ptr: int, len: int) -> bool {
    &&& ptr + len <= u64::MAX
    &&& same_half(ptr, ptr + len)
    &&& forall|a: int| ptr <= a < ptr + len ==> #[trigger] byte_readable(mem, root, a)
}

/// Whether a table on the way to page `vpn` lies outside memory.
spec fn strays(mem: Frames, root: u64, vpn: int, k: int) -> bool {
    table_at(mem, root, k, prefix(vpn, k)) matches Some(t) && !mem.dom().contains(t)
}

/// Where a table is missing, so are those below it, and there is no leaf entry.
proof fn lemma_no_leaf(mem: Frames, root: u64, vpn: int, k: int)
    requires
        0 <= vpn < VPN_LIMIT,
        0 <= k <= 3,
        table_at(mem, root, k, prefix(vpn, k)) is None,
    ensures
        leaf(mem, root, vpn) is None,
    decreases 3 - k,
{
    if k < 3 {
        lemma_prefix(512, vpn, k + 1);
        lemma_no_leaf(mem, root, vpn, k + 1);
    }
}

/// The leaf entry of page `vpn`, if it can be reached from `root` by tables that
/// exist.
fn find_leaf<M: PhysMemory>(mem: &M, root: u64, vpn: VirtPageNum) -> (r: Option<u64>)
    requires
        vpn.0 < VPN_LIMIT,
    ensures
        r == if walkable(mem.frames(), root, vpn.0 as int) {
            leaf(mem.frames(), root, vpn.0 as int)
        } else {
            None
        },
{
    let ghost frames = mem.frames();
    let ghost v = vpn.0 as int;
    let idxs: [usize; 4] = vpn.indexes();
    let mut t: u64 = root;
    let mut k: usize = 0;
    proof {
        mem.frames_wf();
    }
    while k < 3
        invariant
            k <= 3,
            v == vpn.0 < VPN_LIMIT,
            frames == mem.frames(),
            forall|p: u64| #[trigger] frames.dom().contains(p) ==> frames[p].len() == 512,
            forall|j: int| 0 <= j < 4 ==> #[trigger] idxs[j] == super::address::table_index(v, j),
            table_at(frames, root, k as int, prefix(v, k as int)) == Some(t),
            forall|j: int| 0 <= j < k ==> !#[trigger] strays(frames, root, v, j),
        decreases 3 - k,
    {
        proof {
            lemma_prefix(512, v, k as int);
            lemma_prefix(512, v, k + 1);
            assert(idxs[k as int] == super::address::table_index(v, k as int));
        }
        if !mem.holds(t) {
            return None;
        }
        assert(!strays(frames, root, v, k as int));
        let entry = PageTableEntry { bits: mem.read_word(t, idxs[k]) };
        if !entry.is_valid() {
            proof {
                lemma_no_leaf(frames, root, v, k + 1);
            }
            return None;
        }
        t = entry.ppn().0;
        k = k + 1;
    }
    proof {
        lemma_prefix(512, v, 3);
        assert(idxs[3] == super::address::table_index(v, 3));
    }
    if !mem.holds(t) {
        return None;
    }
    assert forall|j: int| 0 <= j <= 3 implies ((#[trigger] table_at(
        frames,
        root,
        j,
        prefix(v, j),
    )) matches Some(u) ==> frames.dom().contains(u)) by {
        assert(j < 3 ==> !strays(frames, root, v, j));
    }
    Some(mem.read_word(t, idxs[3]))
}

/// The frame with the byte at pointer value `ptr` in the address space of `token`, if
/// the byte can be read.
pub fn find_frame<M: PhysMemory>(mem: &M, token: u64, ptr: u64) -> (r: Option<u64>)
    ensures
        r == if byte_readable(mem.frames(), root_of(token), ptr as int) {
            Some(user_frame(mem.frames(), root_of(token), ptr as int))
        } else {
            None
        },
{
    let root: u64 = PageTable::from_token(token).root_ppn().0;
    let vpn: VirtPageNum = VirtAddr::new(ptr).floor();
    match find_leaf(mem, root, vpn) {
        Some(w) => {
            let frame: u64 = PageTableEntry { bits: w }.ppn().0;
            if mem.holds(frame) {
                Some(frame)
            } else {
                None
            }
        },
        None => None,
    }
}

/// The bytes of a page are in the same frame.
proof fn lemma_same_page(mem: Frames, root: u64, a: int, b: int)
    requires
        0 <= a,
        a / 0x1000 == b / 0x1000,
    ensures
        byte_readable(mem, root, a) == byte_readable(mem, root, b),
{
    assert((a % (VA_LIMIT as int)) / 0x1000 == (a / 0x1000) % 0x10_0000_0000);
    assert((b % (VA_LIMIT as int)) / 0x1000 == (b / 0x1000) % 0x10_0000_0000);
}

/// Whether the `len` bytes from pointer value `ptr` on can be read in the address
/// space of `token`.
pub fn check_range<M: PhysMemory>(mem: &M, token: u64, ptr: u64, len: u64) -> (r: bool)
    ensures
        r == range_readable(mem.frames(), root_of(token), ptr as int, len as int),
{
    if len > u64::MAX - ptr {
        return false;
    }
    let end: u64 = ptr + len;
    if end > 0x8000_0000_0000 && ptr < 0xffff_8000_0000_0000 {
        return false;
    }
    let ghost root = root_of(token);
    let mut a: u64 = ptr;
    while a < end
        invariant
            ptr <= a <= end == ptr + len,
            root == root_of(token),
            forall|b: int| ptr <= b < a ==> #[trigger] byte_readable(mem.frames(), root, b),
        decreases end - a,
    {
        if find_frame(mem, token, a).is_none() {
            return false;
        }
        let left: u64 = 0x1000 - a % 0x1000;
        let next: u64 = if end - a <= left {
            end
        } else {
            a + left
        };
        assert forall|b: int| ptr <= b < next implies #[trigger] byte_readable(
            mem.frames(),
            root,
            b,
        ) by {
            if b >= a {
                lemma_same_page(mem.frames(), root, a as int, b);
            }
        }
        a = next;
    }
    true
}

/// The length of the zero-terminated string at pointer value `ptr` in the address space
/// of `token`, if there is one that can be read.
pub fn find_string<M: PhysMemory>(mem: &M, token: u64, ptr: u64) -> (r: Option<u64>)
    ensures
        match r {
            Some(n) => string_at(mem.frames(), root_of(token), ptr as int, n as int),
            None => forall|n: int|
                !#[trigger] string_at(mem.frames(), root_of(token), ptr as int, n),
        },
{
    let ghost root = root_of(token);
    let ghost frames = mem.frames();
    let mut n: u64 = 0;
    loop
        invariant
            ptr + n <= u64::MAX,
            frames == mem.frames(),
            root == root_of(token),
            forall|i: int|
                0 <= i < n ==> #[trigger] byte_readable(frames, root, ptr + i) && user_byte(
                    frames,
                    root,
                    ptr + i,
                ) != 0,
        decreases u64::MAX - n,
    {
        let found = find_frame(mem, token, ptr + n);
        let ch: u8 = match found {
            Some(frame) => read_byte(mem, frame, ((ptr + n) % 0x1000) as usize),
            None => 0,
        };
        if found.is_some() && ch == 0 {
            assert(byte_readable(frames, root, ptr + n));
            assert forall|i: int| 0 <= i <= n implies {
                &&& #[trigger] reachable(frames, root, ptr + i)
                &&& frames.dom().contains(user_frame(frames, root, ptr + i))
                &&& (user_byte(frames, root, ptr + i) == 0) == (i == n)
            } by {
                assert(byte_readable(frames, root, ptr + i));
            }
            return Some(n);
        }
        if found.is_none() || ptr + n == u64::MAX {
            assert forall|m: int| !#[trigger] string_at(frames, root, ptr as int, m) by {
                if string_at(frames, root, ptr as int, m) {
                    assert(reachable(frames, root, ptr + m));
                    if m < n {
                        assert(byte_readable(frames, root, ptr + m));
                    } else {
                        assert(reachable(frames, root, ptr + n));
                        assert(byte_readable(frames, root, ptr + n));
                    }
                }
            }
            return None;
        }
        proof {
            assert(byte_readable(frames, root, ptr + n) && user_byte(frames, root, ptr + n) == ch);
            assert forall|i: int| 0 <= i < n + 1 implies #[trigger] byte_readable(
                frames,
                root,
                ptr + i,
            ) && user_byte(frames, root, ptr + i) != 0 by {
                if i < n {
                    assert(byte_readable(frames, root, ptr + i));
                }
            }
        }
        n = n + 1;
    }
}

} // verus!
