//! Telling whether a program can be loaded.
use vstd::prelude::*;
use super::address::VirtAddr;
use super::elf::{
    anchored, area_anchored, elf_ph_count, elf_ph_offset, elf_ph_size, elf_segment, header_complete,
    image_end, image_segments, image_stack_bottom, is_elf32, is_elf64, le, load_ok, load_segment,
    load_segments, loadable, ph_at, ph_complete, segment_at, segments_apart, stack_segment, Segment,
    SegmentHeader,
};
use super::memory_set::physmap_slot;

verus! {

/// How many numbers there are of `n` bytes.
spec fn numbers(n: int) -> int
    decreases n,
{
    if n <= 0 {
        1
    } else {
        256 * numbers(n - 1)
    }
}

proof fn lemma_le_bound(b: Seq<u8>, at: int, n: int)
    requires
        0 <= n <= 8,
    ensures
        0 <= le(b, at, n) < numbers(n),
        numbers(n) <= 0x1_0000_0000_0000_0000,
        numbers(2) == 0x1_0000,
    decreases n,
{
    reveal_with_fuel(numbers, 9);
    if n > 0 {
        lemma_le_bound(b, at + 1, n - 1);
    }
}

/// The number in the `n` bytes of `data` from `at` on, the lowest byte first.
fn read_le(data: &[u8], at: usize, n: usize) -> (r: u64)
    requires
        n <= 8,
        at + n <= data@.len(),
    ensures
        r == le(data@, at as int, n as int),
    decreases n,
{
    if n == 0 {
        0
    } else {
        proof {
            lemma_le_bound(data@, at as int, n as int);
            lemma_le_bound(data@, at + 1, n - 1);
        }
        data[at] as u64 + 256 * read_le(data, at + 1, n - 1)
    }
}

/// Whether program header `i` is complete and, if its segment is to be loaded,
/// makes sense.
spec fn segment_ok(b: Seq<u8>, i: int) -> bool {
    &&& segment_at(b, i) is Some
    &&& ph_complete(b, i)
    &&& segment_at(b, i)->Some_0.load ==> load_ok(
        segment_at(b, i)->Some_0,
        b.len() as int,
        load_segment(b, segment_at(b, i)->Some_0).area,
    )
    &&& segment_at(b, i)->Some_0.load ==> area_anchored(
        load_segments(b, i),
        load_segment(b, segment_at(b, i)->Some_0).area,
    )
}

/// The first page of the segment with this header and the one after its last page,
/// if it makes sense in a file of `len` bytes.
fn check_load(h: &SegmentHeader, len: usize, Ghost(b): Ghost<Seq<u8>>) -> (r: Option<(u64, u64)>)
    requires
        len == b.len(),
    ensures
        ({
            let area = load_segment(b, *h).area;
            match r {
                Some(pages) => load_ok(*h, len as int, area) && pages.0 == area.start && pages.1
                    == area.end,
                None => !load_ok(*h, len as int, area),
            }
        }),
{
    if h.mem_size > u64::MAX - h.virtual_addr || h.file_size > u64::MAX - h.offset || h.offset
        + h.file_size > len as u64 {
        return None;
    }
    let start: u64 = VirtAddr::new(h.virtual_addr).floor().0;
    let end: u64 = VirtAddr::new(h.virtual_addr + h.mem_size).ceil().0;
    if start > end || h.file_size > (end - start) * 0x1000 {
        return None;
    }
    Some((start, end))
}

/// The pages of the pieces, each as the first one and the one after the last.
pub open spec fn pages_of(s: Seq<Segment>, pages: Seq<(u64, u64)>) -> bool {
    &&& pages.len() == s.len()
    &&& forall|k: int|
        0 <= k < s.len() ==> (#[trigger] pages[k]).0 == s[k].area.start && pages[k].1
            == s[k].area.end
}

/// Whether range `a` has a page that is translated by the same table as page `page`.
spec fn holds_neighbour(a: (u64, u64), page: int) -> bool {
    a.0 < a.1 && a.0 as int / 512 <= page / 512 <= (a.1 - 1) / 512
}

proof fn lemma_anchored_pages(s: Seq<Segment>, pages: Seq<(u64, u64)>, page: int)
    requires
        pages_of(s, pages),
        0 <= page,
    ensures
        anchored(s, page) == exists|k: int|
            0 <= k < pages.len() && holds_neighbour(#[trigger] pages[k], page),
{
    if anchored(s, page) {
        let (k, v) = choose|k: int, v: int|
            0 <= k < s.len() && #[trigger] s[k].area.contains(v) && v / 512 == page / 512;
        assert(holds_neighbour(pages[k], page));
    }
    if exists|k: int| 0 <= k < pages.len() && holds_neighbour(#[trigger] pages[k], page) {
        let k = choose|k: int| 0 <= k < pages.len() && holds_neighbour(#[trigger] pages[k], page);
        let v = if pages[k].0 as int / 512 == page / 512 {
            pages[k].0 as int
        } else {
            page / 512 * 512
        };
        assert(s[k].area.contains(v) && v / 512 == page / 512);
    }
}

/// Whether one of the ranges has a page that is translated by the same table as page
/// `page`.
fn check_anchored(pages: &Vec<(u64, u64)>, page: u64) -> (r: bool)
    ensures
        r == exists|k: int|
            0 <= k < pages@.len() && holds_neighbour(#[trigger] pages@[k], page as int),
{
    let mut k: usize = 0;
    while k < pages.len()
        invariant
            k <= pages@.len(),
            forall|j: int| 0 <= j < k ==> !holds_neighbour(#[trigger] pages@[j], page as int),
        decreases pages@.len() - k,
    {
        let a: (u64, u64) = pages[k];
        if a.0 < a.1 && a.0 / 512 <= page / 512 && page / 512 <= (a.1 - 1) / 512 {
            assert(holds_neighbour(pages@[k as int], page as int));
            return true;
        }
        k = k + 1;
    }
    false
}

/// Whether two ranges have no page in common.
pub open spec fn apart(a: (u64, u64), b: (u64, u64)) -> bool {
    a.0 >= a.1 || b.0 >= b.1 || a.1 <= b.0 || b.1 <= a.0
}

/// Whether the ranges lie below page `limit`, and no two have a page in common.
pub open spec fn pages_apart(pages: Seq<(u64, u64)>, limit: int) -> bool {
    &&& forall|k: int|
        0 <= k < pages.len() ==> (#[trigger] pages[k]).0 <= pages[k].1 <= limit
    &&& forall|i: int, j: int|
        0 <= i < j < pages.len() ==> apart(#[trigger] pages[i], #[trigger] pages[j])
}

pub proof fn lemma_apart(s: Seq<Segment>, pages: Seq<(u64, u64)>, slots: int)
    requires
        pages_of(s, pages),
    ensures
        segments_apart(s, slots) == pages_apart(pages, slots * 0x800_0000),
{
    if pages_apart(pages, slots * 0x800_0000) {
        assert forall|i: int| 0 <= i < s.len() implies 0 <= (#[trigger] s[i]).area.start
            <= s[i].area.end <= slots * 0x800_0000 by {
            assert(pages[i].0 <= pages[i].1);
        }
        assert forall|i: int, j: int, v: int|
            0 <= i < s.len() && 0 <= j < s.len() && #[trigger] s[i].area.contains(v)
                && #[trigger] s[j].area.contains(v) implies i == j by {
            if i < j {
                assert(apart(pages[i], pages[j]));
            } else if j < i {
                assert(apart(pages[j], pages[i]));
            }
        }
    }
    if segments_apart(s, slots) {
        assert forall|k: int| 0 <= k < pages.len() implies (#[trigger] pages[k]).0 <= pages[k].1
            <= slots * 0x800_0000 by {
            assert(s[k].area.start <= s[k].area.end);
        }
        assert forall|i: int, j: int| 0 <= i < j < pages.len() implies apart(
            #[trigger] pages[i],
            #[trigger] pages[j],
        ) by {
            if !apart(pages[i], pages[j]) {
                let v = if pages[i].0 < pages[j].0 {
                    pages[j].0 as int
                } else {
                    pages[i].0 as int
                };
                assert(s[i].area.contains(v) && s[j].area.contains(v));
            }
        }
    }
}

/// Whether the ranges lie below page `limit`, and no two have a page in common.
pub fn check_apart(pages: &Vec<(u64, u64)>, limit: u64) -> (r: bool)
    ensures
        r == pages_apart(pages@, limit as int),
{
    let mut i: usize = 0;
    while i < pages.len()
        invariant
            i <= pages@.len(),
            forall|k: int| 0 <= k < i ==> (#[trigger] pages@[k]).0 <= pages@[k].1 <= limit,
            forall|k: int, j: int|
                0 <= k < j < i ==> apart(#[trigger] pages@[k], #[trigger] pages@[j]),
        decreases pages@.len() - i,
    {
        let b: (u64, u64) = pages[i];
        if b.0 > b.1 || b.1 > limit {
            assert(pages@[i as int] == b);
            return false;
        }
        let mut k: usize = 0;
        while k < i
            invariant
                k <= i < pages@.len(),
                b == pages@[i as int],
                forall|j: int| 0 <= j < k ==> apart(#[trigger] pages@[j], b),
            decreases i - k,
        {
            let a: (u64, u64) = pages[k];
            if a.0 < a.1 && b.0 < b.1 && a.1 > b.0 && b.1 > a.0 {
                assert(!apart(pages@[k as int], pages@[i as int]));
                return false;
            }
            k = k + 1;
        }
        i = i + 1;
    }
    true
}

/// The pages of the user stack, for an image that ends at page `end`.
fn stack_pages(end: u64, Ghost(b): Ghost<Seq<u8>>) -> (r: Option<(u64, u64)>)
    requires
        end == image_end(b),
        end <= 0x10_0000_0000,
    ensures
        match r {
            Some(pages) => image_stack_bottom(b) + 0x2000 <= u64::MAX && pages.0 == stack_segment(
                b,
            ).area.start && pages.1 == stack_segment(b).area.end,
            None => image_stack_bottom(b) + 0x2000 > u64::MAX,
        },
{
    if end == 0x10_0000_0000 {
        return None;
    }
    let base: u64 = VirtAddr(end * 0x1000).to_ptr();
    if base > u64::MAX - 0x3000 {
        return None;
    }
    let bottom: u64 = base + 0x1000;
    Some((VirtAddr::new(bottom).floor().0, VirtAddr::new(bottom + 0x2000).ceil().0))
}

/// What the program header at index `i` says, if it is complete.
fn check_header(data: &[u8], wide: bool, off: u64, size: u64, i: u16) -> (r: Option<SegmentHeader>)
    requires
        wide == is_elf64(data@),
        is_elf64(data@) || is_elf32(data@),
        header_complete(data@),
        off == elf_ph_offset(data@),
        size == elf_ph_size(data@),
        size < 0x1_0000,
        i < elf_ph_count(data@),
    ensures
        match r {
            Some(h) => segment_at(data@, i as int) == Some(h) && ph_complete(data@, i as int),
            None => !(segment_at(data@, i as int) is Some && ph_complete(data@, i as int)),
        },
{
    assert(0 <= i * size < 0x1_0000_0000) by (nonlinear_arith)
        requires
            0 <= i < 0x1_0000,
            0 <= size < 0x1_0000,
    ;
    let at: u128 = off as u128 + i as u128 * size as u128;
    assert(at == ph_at(data@, i as int));
    if off == 0 || size == 0 || at + size as u128 > data.len() as u128 {
        return None;
    }
    if wide && (size < 56 || at % 8 != 0) || !wide && (size < 32 || at % 4 != 0) {
        return None;
    }
    elf_segment(data, i)
}

/// The pages of the pieces of the program in `data`, if it can be loaded below the
/// physmap at `phys_offset`.
pub fn image_pages(data: &[u8], phys_offset: u64) -> (r: Option<Vec<(u64, u64)>>)
    ensures
        match r {
            Some(pages) => {
                &&& loadable(data@, physmap_slot(phys_offset))
                &&& pages_of(image_segments(data@), pages@)
            },
            None => !loadable(data@, physmap_slot(phys_offset)),
        },
{
    let ghost b = data@;
    let len: usize = data.len();
    if len < 16 || data[0] != 0x7f || data[1] != 0x45 || data[2] != 0x4c || data[3] != 0x46 {
        return None;
    }
    let wide: bool = data[4] == 2;
    if !wide && data[4] != 1 || wide && len < 64 || !wide && len < 52 {
        return None;
    }
    let (off, size, count): (u64, u64, u64) = if wide {
        (read_le(data, 32, 8), read_le(data, 54, 2), read_le(data, 56, 2))
    } else {
        (read_le(data, 28, 4), read_le(data, 42, 2), read_le(data, 44, 2))
    };
    proof {
        lemma_le_bound(b, 54, 2);
        lemma_le_bound(b, 56, 2);
        lemma_le_bound(b, 42, 2);
        lemma_le_bound(b, 44, 2);
    }
    let mut pages: Vec<(u64, u64)> = Vec::new();
    let mut end: u64 = 0;
    let mut i: u64 = 0;
    while i < count
        invariant
            i <= count < 0x1_0000,
            b == data@,
            len == data@.len(),
            wide == is_elf64(b),
            is_elf64(b) || is_elf32(b),
            header_complete(b),
            off == elf_ph_offset(b),
            size == elf_ph_size(b),
            size < 0x1_0000,
            count == elf_ph_count(b),
            pages_of(load_segments(b, i as int), pages@),
            end == if pages@.len() == 0 {
                0
            } else {
                pages@.last().1
            },
            end <= 0x10_0000_0000,
            forall|j: int| 0 <= j < i ==> #[trigger] segment_ok(b, j),
        decreases count - i,
    {
        match check_header(data, wide, off, size, i as u16) {
            None => {
                assert(!segment_ok(b, i as int));
                return None;
            },
            Some(h) => {
                if h.load {
                    match check_load(&h, len, Ghost(b)) {
                        None => {
                            assert(!segment_ok(b, i as int));
                            return None;
                        },
                        Some(range) => {
                            proof {
                                lemma_anchored_pages(
                                    load_segments(b, i as int),
                                    pages@,
                                    range.0 as int,
                                );
                            }
                            if range.0 == range.1 && !check_anchored(&pages, range.0) {
                                assert(!segment_ok(b, i as int));
                                return None;
                            }
                            pages.push(range);
                            end = range.1;
                        },
                    }
                }
            },
        }
        assert(segment_ok(b, i as int));
        i = i + 1;
    }
    proof {
        assert forall|j: int| 0 <= j < elf_ph_count(b) implies {
            &&& #[trigger] segment_at(b, j) is Some
            &&& ph_complete(b, j)
            &&& segment_at(b, j)->Some_0.load ==> load_ok(
                segment_at(b, j)->Some_0,
                b.len() as int,
                load_segment(b, segment_at(b, j)->Some_0).area,
            )
            &&& segment_at(b, j)->Some_0.load ==> area_anchored(
                load_segments(b, j),
                load_segment(b, segment_at(b, j)->Some_0).area,
            )
        } by {
            assert(segment_ok(b, j));
        }
    }
    match stack_pages(end, Ghost(b)) {
        None => None,
        Some(stack) => {
            pages.push(stack);
            let slot: u64 = (phys_offset / 0x80_0000_0000) % 512;
            proof {
                lemma_apart(image_segments(b), pages@, slot as int);
            }
            if check_apart(&pages, slot * 0x800_0000) {
                Some(pages)
            } else {
                None
            }
        },
    }
}

/// Whether the program in `data` can be loaded below the physmap at `phys_offset`.
pub fn check_image(data: &[u8], phys_offset: u64) -> (r: bool)
    ensures
        r == loadable(data@, physmap_slot(phys_offset)),
{
    image_pages(data, phys_offset).is_some()
}

} // verus!
