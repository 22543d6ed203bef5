//! Physical and virtual addresses and page numbers.
//!
//! A virtual address is held in its 48-bit form; [`VirtAddr::to_ptr`] gives
//! the canonical (sign-extended) pointer value. A physical address has 52 bits.
use vstd::prelude::*;
use crate::config::PAGE_SIZE;

verus! {

/// Number of values of a 48-bit virtual address.
pub const VA_LIMIT: u64 = 0x1_0000_0000_0000;

/// Number of values of a 52-bit physical address.
pub const PA_LIMIT: u64 = 0x10_0000_0000_0000;

/// Number of virtual pages.
pub const VPN_LIMIT: u64 = 0x10_0000_0000;

/// Number of physical pages.
pub const PPN_LIMIT: u64 = 0x100_0000_0000;

/// A physical address.
#[derive(Copy, Clone, Debug, PartialEq, Eq, Structural)]
pub struct PhysAddr(pub u64);

/// A virtual address in its 48-bit form.
#[derive(Copy, Clone, Debug, PartialEq, Eq, Structural)]
pub struct VirtAddr(pub u64);

/// A physical page number.
#[derive(Copy, Clone, Debug, PartialEq, Eq, Structural)]
pub struct PhysPageNum(pub u64);

/// A virtual page number.
#[derive(Copy, Clone, Debug, PartialEq, Eq, Structural)]
pub struct VirtPageNum(pub u64);

impl PhysAddr {
    /// The physical address of `v`, of which the low 52 bits count.
    pub fn new(v: u64) -> (r: Self)
        ensures
            r.0 == v % PA_LIMIT,
    {
        PhysAddr(v % PA_LIMIT)
    }

    /// The page that holds this address.
    pub fn floor(&self) -> (r: PhysPageNum)
        ensures
            r.0 == self.0 / PAGE_SIZE,
    {
        PhysPageNum(self.0 / PAGE_SIZE)
    }

    /// The first page that starts at or after this address.
    pub fn ceil(&self) -> (r: PhysPageNum)
        ensures
            r.0 == (self.0 + (PAGE_SIZE - 1)) / (PAGE_SIZE as int),
    {
        if self.0 == 0 {
            PhysPageNum(0)
        } else {
            PhysPageNum((self.0 - 1) / PAGE_SIZE + 1)
        }
    }

    /// The offset of this address in its page.
    pub fn page_offset(&self) -> (r: u64)
        ensures
            r == self.0 % PAGE_SIZE,
    {
        self.0 % PAGE_SIZE
    }
}

impl VirtAddr {
    /// The virtual address of the pointer value `v`, of which the low 48 bits
    /// count.
    pub fn new(v: u64) -> (r: Self)
        ensures
            r.0 == v % VA_LIMIT,
    {
        VirtAddr(v % VA_LIMIT)
    }

    /// The page that holds this address.
    pub fn floor(&self) -> (r: VirtPageNum)
        ensures
            r.0 == self.0 / PAGE_SIZE,
    {
        VirtPageNum(self.0 / PAGE_SIZE)
    }

    /// The first page that starts at or after this address.
    pub fn ceil(&self) -> (r: VirtPageNum)
        ensures
            r.0 == (self.0 + (PAGE_SIZE - 1)) / (PAGE_SIZE as int),
    {
        if self.0 == 0 {
            VirtPageNum(0)
        } else {
            VirtPageNum((self.0 - 1) / PAGE_SIZE + 1)
        }
    }

    /// The offset of this address in its page.
    pub fn page_offset(&self) -> (r: u64)
        ensures
            r == self.0 % PAGE_SIZE,
    {
        self.0 % PAGE_SIZE
    }

    /// The canonical pointer value: bit 47 is copied into the bits above it.
    pub fn to_ptr(&self) -> (r: u64)
        requires
            self.0 < VA_LIMIT,
        ensures
            r == canonical(self.0),
    {
        if self.0 >= VA_LIMIT / 2 {
            self.0 + 0xffff_0000_0000_0000
        } else {
            self.0
        }
    }
}

/// The canonical form of a 48-bit address.
pub open spec fn canonical(v: u64) -> int {
    if v >= 0x8000_0000_0000 {
        v + 0xffff_0000_0000_0000
    } else {
        v as int
    }
}

/// Taking the canonical form of an address and reading it back gives the
/// address.
pub proof fn canonical_reads_back(v: u64)
    requires
        v < VA_LIMIT,
    ensures
        0 <= canonical(v) <= u64::MAX,
        canonical(v) % (VA_LIMIT as int) == v,
{
}

impl PhysPageNum {
    /// The address of the first byte of this page.
    pub fn addr(&self) -> (r: PhysAddr)
        requires
            self.0 < PPN_LIMIT,
        ensures
            r.0 == self.0 * PAGE_SIZE,
    {
        PhysAddr(self.0 * PAGE_SIZE)
    }

    /// Go to the next page.
    pub fn step(&mut self)
        requires
            old(self).0 < u64::MAX,
        ensures
            final(self).0 == old(self).0 + 1,
    {
        self.0 = self.0 + 1;
    }
}

impl VirtPageNum {
    /// The address of the first byte of this page.
    pub fn addr(&self) -> (r: VirtAddr)
        requires
            self.0 <= VPN_LIMIT,
        ensures
            r.0 == self.0 * PAGE_SIZE,
    {
        VirtAddr(self.0 * PAGE_SIZE)
    }

    /// The index of this page in the table of each level, from the root down.
    pub fn indexes(&self) -> (r: [usize; 4])
        ensures
            forall|k: int| 0 <= k < 4 ==> #[trigger] r[k] == table_index(self.0 as int, k),
    {
        [
            ((self.0 / 0x800_0000) % 512) as usize,
            ((self.0 / 0x4_0000) % 512) as usize,
            ((self.0 / 512) % 512) as usize,
            (self.0 % 512) as usize,
        ]
    }

    /// Go to the next page.
    pub fn step(&mut self)
        requires
            old(self).0 < u64::MAX,
        ensures
            final(self).0 == old(self).0 + 1,
    {
        self.0 = self.0 + 1;
    }
}

/// The index of page `vpn` in the table of level `k`; level 0 is the root.
pub open spec fn table_index(vpn: int, k: int) -> int {
    if k == 0 {
        (vpn / 0x800_0000) % 512
    } else if k == 1 {
        (vpn / 0x4_0000) % 512
    } else if k == 2 {
        (vpn / 512) % 512
    } else {
        vpn % 512
    }
}

/// A range of virtual pages: from `start` up to but not including `end`.
#[derive(Copy, Clone, Debug, PartialEq, Eq, Structural)]
pub struct VPNRange {
    l: VirtPageNum,
    r: VirtPageNum,
}

impl VPNRange {
    /// The number of the first page.
    pub closed spec fn start(&self) -> int {
        self.l.0 as int
    }

    /// The number of the page after the last one.
    pub closed spec fn end(&self) -> int {
        self.r.0 as int
    }

    /// Whether page `vpn` is in the range.
    pub open spec fn contains(&self, vpn: int) -> bool {
        self.start() <= vpn < self.end()
    }

    /// Whether the bounds are in order and are page numbers.
    pub open spec fn wf(&self) -> bool {
        0 <= self.start() <= self.end() <= VPN_LIMIT
    }

    /// The range from `start` to `end`.
    pub fn new(start: VirtPageNum, end: VirtPageNum) -> (r: Self)
        requires
            start.0 <= end.0,
        ensures
            r.start() == start.0,
            r.end() == end.0,
    {
        VPNRange { l: start, r: end }
    }

    /// The first page.
    pub fn get_start(&self) -> (r: VirtPageNum)
        ensures
            r.0 == self.start(),
    {
        self.l
    }

    /// The page after the last one.
    pub fn get_end(&self) -> (r: VirtPageNum)
        ensures
            r.0 == self.end(),
    {
        self.r
    }
}

/// The address in the direct map of physical memory that shows `pa`.
pub fn phys_to_virt(pa: u64, offset: u64) -> (r: u64)
    requires
        pa + offset <= u64::MAX,
    ensures
        r == pa + offset,
{
    pa + offset
}

} // verus!
