//! Program images: what an ELF file says about the memory of a program.
use std::sync::Arc;
use vstd::prelude::*;
use xmas_elf::program::Type;
use xmas_elf::ElfFile;
use super::address::canonical;
use super::map_area::{AreaView, MapType, MAP_R, MAP_U, MAP_W, MAP_X};

verus! {

/// The number in the `n` bytes of `b` from `at` on, the lowest byte first.
pub open spec fn le(b: Seq<u8>, at: int, n: int) -> int
    decreases n,
{
    if n <= 0 {
        0
    } else {
        b[at] + 256 * le(b, at + 1, n - 1)
    }
}

/// What the file header says.
#[derive(Copy, Clone, Debug, PartialEq, Eq, Structural)]
pub struct ElfHeader {
    /// the address of the first instruction
    pub entry_point: u64,
    /// the number of program headers
    pub ph_count: u16,
}

/// What a program header says.
#[derive(Copy, Clone, Debug, PartialEq, Eq, Structural)]
pub struct SegmentHeader {
    /// whether the segment is to be loaded
    pub load: bool,
    pub flags: u32,
    pub offset: u64,
    pub virtual_addr: u64,
    pub file_size: u64,
    pub mem_size: u64,
}

/// Whether `b` starts like a 64-bit ELF file.
pub open spec fn is_elf64(b: Seq<u8>) -> bool {
    b.len() >= 16 && b[0] == 0x7f && b[1] == 0x45 && b[2] == 0x4c && b[3] == 0x46 && b[4] == 2
}

/// Whether `b` starts like a 32-bit ELF file.
pub open spec fn is_elf32(b: Seq<u8>) -> bool {
    b.len() >= 16 && b[0] == 0x7f && b[1] == 0x45 && b[2] == 0x4c && b[3] == 0x46 && b[4] == 1
}

/// Whether the file header is not cut off.
pub open spec fn header_complete(b: Seq<u8>) -> bool {
    &&& is_elf64(b) ==> b.len() >= 64
    &&& is_elf32(b) ==> b.len() >= 52
}

/// The address of the first instruction.
pub open spec fn elf_entry(b: Seq<u8>) -> int {
    if is_elf64(b) {
        le(b, 24, 8)
    } else {
        le(b, 24, 4)
    }
}

/// The position of the first program header.
pub open spec fn elf_ph_offset(b: Seq<u8>) -> int {
    if is_elf64(b) {
        le(b, 32, 8)
    } else {
        le(b, 28, 4)
    }
}

/// The size of a program header.
pub open spec fn elf_ph_size(b: Seq<u8>) -> int {
    if is_elf64(b) {
        le(b, 54, 2)
    } else {
        le(b, 42, 2)
    }
}

/// The number of program headers.
pub open spec fn elf_ph_count(b: Seq<u8>) -> int {
    if is_elf64(b) {
        le(b, 56, 2)
    } else {
        le(b, 44, 2)
    }
}

/// The position of program header `i`.
pub open spec fn ph_at(b: Seq<u8>, i: int) -> int {
    elf_ph_offset(b) + i * elf_ph_size(b)
}

/// Whether there are program headers, and `i` is the number of one.
pub open spec fn ph_exists(b: Seq<u8>, i: int) -> bool {
    0 <= i < elf_ph_count(b) && elf_ph_offset(b) > 0 && elf_ph_size(b) > 0
}

/// Whether program header `i`, if it exists, is not cut off and starts at a
/// multiple of its alignment.
pub open spec fn ph_complete(b: Seq<u8>, i: int) -> bool {
    ph_exists(b, i) ==> {
        &&& ph_at(b, i) + elf_ph_size(b) <= b.len()
        &&& is_elf64(b) ==> elf_ph_size(b) >= 56 && ph_at(b, i) % 8 == 0
        &&& is_elf32(b) ==> elf_ph_size(b) >= 32 && ph_at(b, i) % 4 == 0
    }
}

/// Whether `t` is a segment type.
pub open spec fn ph_type_known(t: int) -> bool {
    0 <= t <= 7 || 0x6000_0000 <= t <= 0x7fff_ffff
}

/// The type of the segment of program header `i`.
pub open spec fn ph_type(b: Seq<u8>, i: int) -> int {
    le(b, ph_at(b, i), 4)
}

/// What program header `i` says, or `None` if there is no such header or its
/// type is unknown.
pub open spec fn segment_at(b: Seq<u8>, i: int) -> Option<SegmentHeader> {
    let at = ph_at(b, i);
    if !ph_exists(b, i) || !ph_type_known(ph_type(b, i)) {
        None
    } else if is_elf64(b) {
        Some(
            SegmentHeader {
                load: ph_type(b, i) == 1,
                flags: le(b, at + 4, 4) as u32,
                offset: le(b, at + 8, 8) as u64,
                virtual_addr: le(b, at + 16, 8) as u64,
                file_size: le(b, at + 32, 8) as u64,
                mem_size: le(b, at + 40, 8) as u64,
            },
        )
    } else {
        Some(
            SegmentHeader {
                load: ph_type(b, i) == 1,
                flags: le(b, at + 24, 4) as u32,
                offset: le(b, at + 4, 4) as u64,
                virtual_addr: le(b, at + 8, 4) as u64,
                file_size: le(b, at + 16, 4) as u64,
                mem_size: le(b, at + 20, 4) as u64,
            },
        )
    }
}

/// `xmas_elf::ElfFile::new` reads the file header: it succeeds exactly on the
/// magic number with class 1 (32 bits) or 2 (64 bits), and the entry point and
/// the number of program headers are the fields of the header. The fields are
/// read in the byte order of the processor, which is little-endian here. The
/// header structures are read in place and must be aligned, so the bytes are
/// first copied to an `Arc<[u8]>`, whose data starts at a multiple of 8. The
/// function would panic on a header that is cut off.
#[verifier::external_body]
pub(crate) fn elf_header(data: &[u8]) -> (r: Option<ElfHeader>)
    requires
        header_complete(data@),
    ensures
        r is Some <==> is_elf64(data@) || is_elf32(data@),
        r matches Some(h) ==> {
            &&& h.entry_point == elf_entry(data@)
            &&& h.ph_count == elf_ph_count(data@)
        },
{
    let image: Arc<[u8]> = Arc::from(data);
    let elf = ElfFile::new(&image).ok()?;
    Some(
        ElfHeader {
            entry_point: elf.header.pt2.entry_point(),
            ph_count: elf.header.pt2.ph_count(),
        },
    )
}

/// `xmas_elf::ElfFile::program_header` gives program header `index`, or an
/// error if there is none; `ProgramHeader::get_type` gives the type of its
/// segment, or an error if it is unknown; the other methods give its fields.
/// As for [`elf_header`], the bytes are copied to a place that is aligned and
/// read in little-endian order. The function would panic on a header that is
/// cut off or not aligned.
#[verifier::external_body]
pub(crate) fn elf_segment(data: &[u8], index: u16) -> (r: Option<SegmentHeader>)
    requires
        header_complete(data@),
        is_elf64(data@) || is_elf32(data@),
        ph_complete(data@, index as int),
    ensures
        r == segment_at(data@, index as int),
{
    let image: Arc<[u8]> = Arc::from(data);
    let elf = ElfFile::new(&image).ok()?;
    let ph = elf.program_header(index).ok()?;
    Some(
        SegmentHeader {
            load: ph.get_type().ok()? == Type::Load,
            flags: ph.flags().0,
            offset: ph.offset(),
            virtual_addr: ph.virtual_addr(),
            file_size: ph.file_size(),
            mem_size: ph.mem_size(),
        },
    )
}

/// The permissions of a segment with these flags.
pub open spec fn segment_perm(flags: u32) -> u8 {
    MAP_U | (if flags & 4 == 4 {
        MAP_R
    } else {
        0
    }) | (if flags & 2 == 2 {
        MAP_W
    } else {
        0
    }) | (if flags & 1 == 1 {
        MAP_X
    } else {
        0
    })
}

/// A piece of a program image: an area, and what it is filled with.
pub struct Segment {
    pub area: AreaView,
    pub fill: Option<Seq<u8>>,
}

/// The piece of the image of a loadable segment.
pub open spec fn load_segment(b: Seq<u8>, h: SegmentHeader) -> Segment {
    Segment {
        area: AreaView {
            start: (h.virtual_addr as int % 0x1_0000_0000_0000) / 0x1000,
            end: ((h.virtual_addr + h.mem_size) % 0x1_0000_0000_0000 + 0xfff) / 0x1000,
            map_type: MapType::Framed,
            perm: segment_perm(h.flags),
            data: Map::empty(),
        },
        fill: Some(b.subrange(h.offset as int, h.offset + h.file_size)),
    }
}

/// The pieces of the image for the first `n` program headers.
pub open spec fn load_segments(b: Seq<u8>, n: int) -> Seq<Segment>
    decreases n,
{
    if n <= 0 {
        Seq::empty()
    } else {
        match segment_at(b, n - 1) {
            Some(h) => if h.load {
                load_segments(b, n - 1).push(load_segment(b, h))
            } else {
                load_segments(b, n - 1)
            },
            None => load_segments(b, n - 1),
        }
    }
}

/// The page after the last page of the last loadable segment.
pub open spec fn image_end(b: Seq<u8>) -> int {
    let segments = load_segments(b, elf_ph_count(b));
    if segments.len() == 0 {
        0
    } else {
        segments.last().area.end
    }
}

/// The lowest address of the user stack: one guard page above the image.
pub open spec fn image_stack_bottom(b: Seq<u8>) -> int {
    canonical((image_end(b) * 0x1000) as u64) + 0x1000
}

/// The user stack of a program image.
pub open spec fn stack_segment(b: Seq<u8>) -> Segment {
    let bottom = image_stack_bottom(b);
    Segment {
        area: AreaView {
            start: (bottom % 0x1_0000_0000_0000) / 0x1000,
            end: ((bottom + 0x2000) % 0x1_0000_0000_0000 + 0xfff) / 0x1000,
            map_type: MapType::Framed,
            perm: MAP_R | MAP_W | MAP_U,
            data: Map::empty(),
        },
        fill: None,
    }
}

/// All pieces of a program image: the loadable segments and the user stack.
pub open spec fn image_segments(b: Seq<u8>) -> Seq<Segment> {
    load_segments(b, elf_ph_count(b)).push(stack_segment(b))
}

/// The areas of a list of pieces.
pub open spec fn segment_areas(s: Seq<Segment>) -> Seq<AreaView> {
    Seq::new(s.len(), |i: int| s[i].area)
}

/// Whether the header of a loadable segment makes sense in a file of `len`
/// bytes.
pub open spec fn load_ok(h: SegmentHeader, len: int, area: AreaView) -> bool {
    &&& h.virtual_addr + h.mem_size <= u64::MAX
    &&& h.offset + h.file_size <= len
    &&& area.start <= area.end
    &&& h.file_size <= (area.end - area.start) * 0x1000
}

/// Whether page `page` is translated by the same table as a page of one of the
/// pieces.
pub open spec fn anchored(done: Seq<Segment>, page: int) -> bool {
    exists|k: int, v: int|
        0 <= k < done.len() && #[trigger] done[k].area.contains(v) && v / 512 == page / 512
}

/// Whether the place of the area can be looked up once it is mapped: it has a page,
/// or its table exists because of a piece before it.
pub open spec fn area_anchored(done: Seq<Segment>, area: AreaView) -> bool {
    area.start < area.end || anchored(done, area.start)
}

/// Whether `b` is a program that can be loaded below root entry `slots`: the
/// headers are complete, and the pieces of the image fit and do not overlap.
pub open spec fn loadable(b: Seq<u8>, slots: int) -> bool {
    &&& is_elf64(b) || is_elf32(b)
    &&& header_complete(b)
    &&& forall|i: int|
        0 <= i < elf_ph_count(b) ==> {
            &&& #[trigger] segment_at(b, i) is Some
            &&& ph_complete(b, i)
            &&& segment_at(b, i)->Some_0.load ==> load_ok(
                segment_at(b, i)->Some_0,
                b.len() as int,
                load_segment(b, segment_at(b, i)->Some_0).area,
            )
            &&& segment_at(b, i)->Some_0.load ==> area_anchored(
                load_segments(b, i),
                load_segment(b, segment_at(b, i)->Some_0).area,
            )
        }
    &&& image_stack_bottom(b) + 0x2000 <= u64::MAX
    &&& segments_apart(image_segments(b), slots)
}

/// The pieces lie below root entry `slots`, and no two share a page.
pub open spec fn segments_apart(s: Seq<Segment>, slots: int) -> bool {
    &&& forall|i: int|
        0 <= i < s.len() ==> 0 <= (#[trigger] s[i]).area.start <= s[i].area.end <= slots
            * 0x800_0000
    &&& forall|i: int, j: int, v: int|
        0 <= i < s.len() && 0 <= j < s.len() && #[trigger] s[i].area.contains(v)
            && #[trigger] s[j].area.contains(v) ==> i == j
}

} // verus!
