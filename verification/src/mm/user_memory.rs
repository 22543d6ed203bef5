//! Access to the memory of a user program through its page table.
use vstd::prelude::*;
use super::address::{canonical, PhysAddr, VirtAddr, VirtPageNum, VA_LIMIT};
use super::page_table::{pte_ppn, pte_ppn_bound, root_of, translated, PageTable};
use super::phys::{frame_byte, read_byte, Frames, PhysMemory};
use super::table_tree::{leaf, walkable};

verus! {

/// `String::push` appends one character.
pub assume_specification[ String::push ](s: &mut String, c: char)
    ensures
        final(s)@ == old(s)@.push(c),
;

/// A piece of a frame: the bytes from `start` up to but not including `end`.
#[derive(Copy, Clone, Debug, PartialEq, Eq, Structural)]
pub struct PageSlice {
    pub ppn: u64,
    pub start: usize,
    pub end: usize,
}

impl PageSlice {
    /// The number of bytes.
    pub open spec fn spec_len(&self) -> int {
        self.end - self.start
    }

    /// Whether it is a piece of a frame, and not an empty one.
    pub open spec fn wf(&self) -> bool {
        self.start < self.end <= 4096
    }
}

/// Whether the pointer values from `start` to `end` are in the same half of
/// the address space.
pub open spec fn same_half(start: int, end: int) -> bool {
    end <= 0x8000_0000_0000 || 0xffff_8000_0000_0000 <= start
}

/// Whether the byte at pointer value `ptr` is reached through the tables of
/// `root`.
pub open spec fn reachable(mem: Frames, root: u64, ptr: int) -> bool {
    let vpn = (ptr % (VA_LIMIT as int)) / 0x1000;
    walkable(mem, root, vpn) && leaf(mem, root, vpn) is Some
}

/// The pieces of frames that hold the bytes from `start` to `end`.
pub open spec fn user_slices(mem: Frames, root: u64, start: int, end: int) -> Seq<PageSlice>
    decreases end - start,
{
    if start >= end {
        Seq::empty()
    } else {
        let next = piece_end(start, end);
        let vpn = (start % (VA_LIMIT as int)) / 0x1000;
        let first = PageSlice {
            ppn: pte_ppn(leaf(mem, root, vpn)->Some_0),
            start: (start % 0x1000) as usize,
            end: (next - start / 0x1000 * 0x1000) as usize,
        };
        seq![first] + user_slices(mem, root, next, end)
    }
}

/// The total length of the first `n` pieces.
pub open spec fn total_len(slices: Seq<PageSlice>, n: int) -> int
    decreases n,
{
    if n <= 0 {
        0
    } else {
        total_len(slices, n - 1) + slices[n - 1].spec_len()
    }
}

proof fn lemma_total_len_front(first: PageSlice, rest: Seq<PageSlice>, n: int)
    requires
        0 <= n <= rest.len(),
    ensures
        total_len(seq![first] + rest, n + 1) == first.spec_len() + total_len(rest, n),
    decreases n,
{
    let all = seq![first] + rest;
    if n > 0 {
        lemma_total_len_front(first, rest, n - 1);
        assert(all[n] == rest[n - 1]);
    } else {
        assert(all[0] == first);
        assert(total_len(all, 0) == 0);
    }
}

/// The pieces of a buffer are proper pieces of frames and have together as
/// many bytes as the buffer.
pub proof fn user_slices_cover(mem: Frames, root: u64, start: int, end: int)
    requires
        0 <= start,
    ensures
        forall|i: int|
            0 <= i < user_slices(mem, root, start, end).len() ==> (#[trigger] user_slices(
                mem,
                root,
                start,
                end,
            )[i]).wf(),
        total_len(
            user_slices(mem, root, start, end),
            user_slices(mem, root, start, end).len() as int,
        ) == if start < end {
            end - start
        } else {
            0
        },
    decreases end - start,
{
    if start < end {
        let next = piece_end(start, end);
        let all = user_slices(mem, root, start, end);
        let rest = user_slices(mem, root, next, end);
        user_slices_cover(mem, root, next, end);
        assert(all =~= seq![all[0]] + rest);
        lemma_total_len_front(all[0], rest, rest.len() as int);
        assert forall|i: int| 0 <= i < all.len() implies (#[trigger] all[i]).wf() by {
            if i > 0 {
                assert(all[i] == rest[i - 1]);
            }
        }
    }
}

/// The end of the first piece of the bytes from `start` to `end`.
pub open spec fn piece_end(start: int, end: int) -> int {
    let page_end = (start / 0x1000 + 1) * 0x1000;
    if end < page_end {
        end
    } else {
        page_end
    }
}

/// In 48-bit form a piece ends at the end of its page or of the bytes,
/// whichever comes first.
proof fn lemma_piece_end(start: u64, end: u64, start_va: u64, end_va: u64)
    requires
        start < end,
        same_half(start as int, end as int),
        start_va == start % VA_LIMIT,
        end_va == (if end % VA_LIMIT < (start_va / 0x1000 + 1) * 0x1000 {
            (end % VA_LIMIT) as int
        } else {
            (start_va / 0x1000 + 1) * 0x1000
        }),
    ensures
        end_va < VA_LIMIT,
        start_va % 0x1000 == start % 0x1000,
        end_va % 0x1000 == piece_end(start as int, end as int) % 0x1000,
        canonical(end_va) == piece_end(start as int, end as int) || (piece_end(
            start as int,
            end as int,
        ) == end && end == 0x8000_0000_0000 && canonical(end_va) >= end),
        start < piece_end(start as int, end as int) <= end,
{
    if end <= 0x8000_0000_0000 {
        assert(start_va == start);
        assert(end % VA_LIMIT == end);
    } else {
        assert(start_va == start - 0xffff_0000_0000_0000);
        assert(end % VA_LIMIT == end - 0xffff_0000_0000_0000);
    }
}

proof fn lemma_first_slice(mem: Frames, root: u64, start: int, end: int, slice: PageSlice)
    requires
        0 <= start < end,
        slice.ppn == user_frame(mem, root, start),
        slice.start == start % 0x1000,
        slice.end == if piece_end(start, end) % 0x1000 == 0 {
            0x1000
        } else {
            piece_end(start, end) % 0x1000
        },
    ensures
        user_slices(mem, root, start, end) == seq![slice] + user_slices(
            mem,
            root,
            piece_end(start, end),
            end,
        ),
{
}

/// Find the pieces of frames that hold the `len` bytes from pointer value
/// `ptr` on in the address space of `token`.
pub fn translated_byte_buffer<M: PhysMemory>(mem: &M, token: u64, ptr: u64, len: u64) -> (r: Vec<
    PageSlice,
>)
    requires
        ptr + len <= u64::MAX,
        same_half(ptr as int, ptr + len),
        forall|a: int|
            ptr <= a < ptr + len ==> #[trigger] reachable(mem.frames(), root_of(token), a),
    ensures
        r@ == user_slices(mem.frames(), root_of(token), ptr as int, ptr + len),
{
    let page_table = PageTable::from_token(token);
    let mut start: u64 = ptr;
    let end: u64 = start + len;
    let mut v: Vec<PageSlice> = Vec::new();
    let ghost root = root_of(token);
    let ghost all = user_slices(mem.frames(), root, ptr as int, ptr + len);
    assert(v@ + all =~= all);
    while start < end
        invariant
            end == ptr + len,
            ptr <= start,
            start <= end || end == 0x8000_0000_0000,
            same_half(ptr as int, end as int),
            page_table.root() == root,
            all == user_slices(mem.frames(), root, ptr as int, ptr + len),
            v@ + user_slices(mem.frames(), root, start as int, end as int) == all,
            forall|a: int| ptr <= a < ptr + len ==> #[trigger] reachable(mem.frames(), root, a),
        decreases
            (if start < end {
                end - start
            } else {
                0
            }),
    {
        proof {
            assert(reachable(mem.frames(), root, start as int));
        }
        let start_va = VirtAddr::new(start);
        let mut vpn: VirtPageNum = start_va.floor();
        let ppn = page_table.translate(mem, vpn).unwrap().ppn();
        vpn.step();
        let mut end_va: VirtAddr = vpn.addr();
        let limit_va = VirtAddr::new(end);
        if limit_va.0 < end_va.0 {
            end_va = limit_va;
        }
        let ghost next = piece_end(start as int, end as int);
        proof {
            lemma_piece_end(start, end, start_va.0, end_va.0);
        }
        let slice = if end_va.page_offset() == 0 {
            PageSlice { ppn: ppn.0, start: start_va.page_offset() as usize, end: 4096 }
        } else {
            PageSlice {
                ppn: ppn.0,
                start: start_va.page_offset() as usize,
                end: end_va.page_offset() as usize,
            }
        };
        let ghost before = v@;
        let ghost rest = user_slices(mem.frames(), root, start as int, end as int);
        let ghost tail = user_slices(mem.frames(), root, next, end as int);
        proof {
            lemma_first_slice(mem.frames(), root, start as int, end as int, slice);
        }
        v.push(slice);
        start = end_va.to_ptr();
        assert(v@ + tail =~= before + rest);
    }
    assert(v@ =~= all);
    v
}

/// Whether `n` bytes other than zero, followed by a zero, can be read from
/// pointer value `ptr` on.
pub open spec fn string_at(mem: Frames, root: u64, ptr: int, n: int) -> bool {
    &&& 0 <= n
    &&& ptr + n <= u64::MAX
    &&& forall|i: int|
        0 <= i <= n ==> {
            &&& #[trigger] reachable(mem, root, ptr + i)
            &&& mem.dom().contains(user_frame(mem, root, ptr + i))
            &&& (user_byte(mem, root, ptr + i) == 0) == (i == n)
        }
}

/// The frame that holds the byte at pointer value `ptr`.
pub open spec fn user_frame(mem: Frames, root: u64, ptr: int) -> u64 {
    pte_ppn(leaf(mem, root, (ptr % (VA_LIMIT as int)) / 0x1000)->Some_0)
}

/// The byte at pointer value `ptr`.
pub open spec fn user_byte(mem: Frames, root: u64, ptr: int) -> u8 {
    frame_byte(mem[user_frame(mem, root, ptr)], ptr % 0x1000)
}

/// The characters of the `n` bytes from pointer value `ptr` on; each byte is
/// the number of a character.
pub open spec fn user_chars(mem: Frames, root: u64, ptr: int, n: int) -> Seq<char> {
    Seq::new(n as nat, |i: int| user_byte(mem, root, ptr + i) as char)
}

/// Two readings of a zero-terminated string agree on its length.
pub proof fn string_length_is_unique(mem: Frames, root: u64, ptr: int, n: int, m: int)
    requires
        string_at(mem, root, ptr, n),
        string_at(mem, root, ptr, m),
    ensures
        n == m,
{
    if n < m {
        assert(reachable(mem, root, ptr + n));
        assert(user_byte(mem, root, ptr + n) == 0);
    }
    if m < n {
        assert(reachable(mem, root, ptr + m));
        assert(user_byte(mem, root, ptr + m) == 0);
    }
}

/// Where the byte at pointer value `ptr` lies in physical memory.
proof fn lemma_user_place(mem: Frames, root: u64, ptr: u64)
    requires
        reachable(mem, root, ptr as int),
    ensures
        ({
            let f = user_frame(mem, root, ptr as int);
            let pa = translated(mem, root, ptr as int % (VA_LIMIT as int));
            &&& pa is Some
            &&& pa->Some_0.0 == f * 0x1000 + ptr % 0x1000
            &&& pa->Some_0.0 / 0x1000 == f
            &&& pa->Some_0.0 % 0x1000 == ptr % 0x1000
        }),
{
    let v48 = ptr as int % (VA_LIMIT as int);
    let f = user_frame(mem, root, ptr as int);
    pte_ppn_bound(leaf(mem, root, v48 / 0x1000)->Some_0);
    assert(v48 % 0x1000 == ptr as int % 0x1000);
    assert((f * 0x1000 + ptr % 0x1000) / 0x1000 == f);
}

/// Read the zero-terminated string at pointer value `ptr` in the address space
/// of `token`.
pub fn translated_str<M: PhysMemory>(mem: &M, token: u64, ptr: u64) -> (r: String)
    requires
        exists|n: int| string_at(mem.frames(), root_of(token), ptr as int, n),
    ensures
        string_at(mem.frames(), root_of(token), ptr as int, r@.len() as int),
        r@ == user_chars(mem.frames(), root_of(token), ptr as int, r@.len() as int),
{
    let page_table = PageTable::from_token(token);
    let mut string = String::new();
    let mut va: u64 = ptr;
    let ghost root = root_of(token);
    let ghost n = choose|n: int| string_at(mem.frames(), root, ptr as int, n);
    let mut done: bool = false;
    while !done
        invariant
            page_table.root() == root,
            string_at(mem.frames(), root, ptr as int, n),
            string@.len() == va - ptr,
            ptr <= va <= ptr + n,
            done ==> va == ptr + n,
            string@ == user_chars(mem.frames(), root, ptr as int, va - ptr),
        decreases n - (va - ptr) + (if done {
            0int
        } else {
            1
        }),
    {
        let ghost i = va - ptr;
        proof {
            assert(reachable(mem.frames(), root, ptr + i));
            mem.frames_wf();
        }
        let pa: PhysAddr = page_table.translate_va(mem, VirtAddr::new(va)).unwrap();
        let ghost f = user_frame(mem.frames(), root, va as int);
        proof {
            lemma_user_place(mem.frames(), root, va);
        }
        let ch: u8 = read_byte(mem, pa.floor().0, pa.page_offset() as usize);
        assert(ch == user_byte(mem.frames(), root, ptr + i));
        if ch == 0 {
            done = true;
        } else {
            let ghost before = string@;
            string.push(ch as char);
            va = va + 1;
            assert(string@ =~= user_chars(mem.frames(), root, ptr as int, va - ptr));
        }
    }
    string
}

/// Find the object at pointer value `ptr` in the address space of `token`:
/// the physical address of its first byte.
pub fn translated_ref<M: PhysMemory>(mem: &M, token: u64, ptr: u64) -> (r: PhysAddr)
    requires
        reachable(mem.frames(), root_of(token), ptr as int),
    ensures
        r.0 == user_frame(mem.frames(), root_of(token), ptr as int) * 0x1000 + ptr % 0x1000,
        r.0 / 0x1000 == user_frame(mem.frames(), root_of(token), ptr as int),
        r.0 % 0x1000 == ptr % 0x1000,
{
    let page_table = PageTable::from_token(token);
    proof {
        lemma_user_place(mem.frames(), root_of(token), ptr);
    }
    page_table.translate_va(mem, VirtAddr::new(ptr)).unwrap()
}

/// Find the object at pointer value `ptr` in the address space of `token`, to
/// change it: the physical address of its first byte.
pub fn translated_refmut<M: PhysMemory>(mem: &M, token: u64, ptr: u64) -> (r: PhysAddr)
    requires
        reachable(mem.frames(), root_of(token), ptr as int),
    ensures
        r.0 == user_frame(mem.frames(), root_of(token), ptr as int) * 0x1000 + ptr % 0x1000,
        r.0 / 0x1000 == user_frame(mem.frames(), root_of(token), ptr as int),
        r.0 % 0x1000 == ptr % 0x1000,
{
    translated_ref(mem, token, ptr)
}

/// Whether the word at pointer value `ptr`, which is a multiple of 8, can be
/// read.
pub open spec fn word_at(mem: Frames, root: u64, ptr: int) -> bool {
    &&& ptr % 8 == 0
    &&& reachable(mem, root, ptr)
    &&& mem.dom().contains(user_frame(mem, root, ptr))
}

/// The word at pointer value `ptr`.
pub open spec fn user_word(mem: Frames, root: u64, ptr: int) -> u64 {
    mem[user_frame(mem, root, ptr)][(ptr % 0x1000) / 8]
}

/// Read the word at pointer value `ptr` in the address space of `token`.
pub fn read_user_word<M: PhysMemory>(mem: &M, token: u64, ptr: u64) -> (r: u64)
    requires
        word_at(mem.frames(), root_of(token), ptr as int),
    ensures
        r == user_word(mem.frames(), root_of(token), ptr as int),
{
    let pa: PhysAddr = translated_ref(mem, token, ptr);
    mem.read_word(pa.floor().0, (pa.page_offset() / 8) as usize)
}

/// A buffer of a user program: the pieces of frames it lies in.
pub struct UserBuffer {
    pub buffers: Vec<PageSlice>,
}

impl UserBuffer {
    /// Every piece is a proper piece of a frame.
    pub open spec fn wf(&self) -> bool {
        forall|i: int| 0 <= i < self.buffers@.len() ==> (#[trigger] self.buffers@[i]).wf()
    }

    /// The buffer that lies in these pieces.
    pub fn new(buffers: Vec<PageSlice>) -> (r: Self)
        ensures
            r.buffers == buffers,
    {
        Self { buffers }
    }

    /// The number of bytes.
    pub fn len(&self) -> (r: usize)
        requires
            self.wf(),
            total_len(self.buffers@, self.buffers@.len() as int) <= usize::MAX,
        ensures
            r == total_len(self.buffers@, self.buffers@.len() as int),
    {
        let mut total: usize = 0;
        let mut i: usize = 0;
        while i < self.buffers.len()
            invariant
                i <= self.buffers@.len(),
                self.wf(),
                total_len(self.buffers@, self.buffers@.len() as int) <= usize::MAX,
                total == total_len(self.buffers@, i as int),
            decreases self.buffers@.len() - i,
        {
            proof {
                lemma_total_len_mono(self.buffers@, i + 1, self.buffers@.len() as int);
            }
            assert(self.buffers@[i as int].wf());
            total = total + (self.buffers[i].end - self.buffers[i].start);
            i = i + 1;
        }
        total
    }

    /// Go through the bytes one by one.
    pub fn into_iter(self) -> (r: UserBufferIterator)
        ensures
            r.slices() == self.buffers@,
            r.buffer_index() == 0,
            r.byte_index() == 0,
    {
        UserBufferIterator { buffers: self.buffers, current_buffer: 0, current_idx: 0 }
    }
}

proof fn lemma_total_len_mono(s: Seq<PageSlice>, a: int, b: int)
    requires
        0 <= a <= b <= s.len(),
        forall|i: int| 0 <= i < s.len() ==> (#[trigger] s[i]).wf(),
    ensures
        total_len(s, a) <= total_len(s, b),
    decreases b - a,
{
    if a < b {
        lemma_total_len_mono(s, a, b - 1);
        assert(s[b - 1].wf());
    }
}

/// The place of one byte in physical memory.
#[derive(Copy, Clone, Debug, PartialEq, Eq, Structural)]
pub struct BytePlace {
    pub ppn: u64,
    pub offset: usize,
}

/// `after` is what is left of `before` after the place of the next byte was handed out.
pub open spec fn byte_handed_out(
    before: &UserBufferIterator,
    after: &UserBufferIterator,
    r: Option<BytePlace>,
) -> bool {
    &&& r is None <==> before.buffer_index() == before.slices().len()
    &&& r is None ==> after.position() == before.position()
    &&& r matches Some(place) ==> {
        let piece = before.slices()[before.buffer_index()];
        &&& place.ppn == piece.ppn
        &&& place.offset == piece.start + before.byte_index()
        &&& after.position() == before.position() + 1
    }
}

/// The bytes of a [`UserBuffer`] that were not handed out yet.
pub struct UserBufferIterator {
    buffers: Vec<PageSlice>,
    current_buffer: usize,
    current_idx: usize,
}

impl UserBufferIterator {
    /// The pieces of the buffer.
    pub closed spec fn slices(&self) -> Seq<PageSlice> {
        self.buffers@
    }

    /// The piece that holds the next byte.
    pub closed spec fn buffer_index(&self) -> int {
        self.current_buffer as int
    }

    /// The position of the next byte in its piece.
    pub closed spec fn byte_index(&self) -> int {
        self.current_idx as int
    }

    /// The next byte is inside a piece, or all bytes were handed out.
    pub open spec fn wf(&self) -> bool {
        &&& forall|i: int| 0 <= i < self.slices().len() ==> (#[trigger] self.slices()[i]).wf()
        &&& 0 <= self.buffer_index() <= self.slices().len()
        &&& 0 <= self.byte_index()
        &&& self.buffer_index() < self.slices().len() ==> self.byte_index()
            < self.slices()[self.buffer_index()].spec_len()
        &&& self.buffer_index() == self.slices().len() ==> self.byte_index() == 0
    }

    /// How many bytes were handed out.
    pub open spec fn position(&self) -> int {
        total_len(self.slices(), self.buffer_index()) + self.byte_index()
    }

    /// Hand out the place of the next byte.
    pub fn next(&mut self) -> (r: Option<BytePlace>)
        requires
            old(self).wf(),
        ensures
            final(self).wf(),
            final(self).slices() == old(self).slices(),
            byte_handed_out(old(self), final(self), r),
    {
        if self.current_buffer >= self.buffers.len() {
            None
        } else {
            let piece: PageSlice = self.buffers[self.current_buffer];
            assert(self.slices()[self.buffer_index()].wf());
            let r = BytePlace { ppn: piece.ppn, offset: piece.start + self.current_idx };
            if self.current_idx + 1 == piece.end - piece.start {
                self.current_idx = 0;
                self.current_buffer = self.current_buffer + 1;
                proof {
                    if self.buffer_index() < self.slices().len() {
                        assert(self.slices()[self.buffer_index()].wf());
                    }
                }
            } else {
                self.current_idx = self.current_idx + 1;
            }
            Some(r)
        }
    }
}

} // verus!
