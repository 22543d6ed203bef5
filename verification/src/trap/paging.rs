//! The first page tables.
//!
//! The boot loader hands the kernel over with its own page tables, which show
//! the kernel as supervisor-only pages. The tables made here
//!
//! - map the low 4 GiB to itself with 2 MiB pages, open to user mode;
//! - map the kernel image at `0xffffffff80000000` with 4 KiB pages, closed to
//!   user mode.
//!
//! The kernel is loaded at an arbitrary physical address, which is recovered by
//! walking the boot loader's page tables.
use vstd::prelude::*;
use crate::mm::page_table::{pte_ppn, pte_ppn_bound, PTE_ADDR_MASK};
use crate::mm::phys::{cleared_frame, Frames, PhysMemory};

verus! {

/// Entry bit: present.
pub const PAGE_PRESENT: u64 = 1;

/// Entry bit: writable.
pub const PAGE_WRITABLE: u64 = 2;

/// Entry bit: open to user mode.
pub const PAGE_USER: u64 = 4;

/// Entry bit: the entry maps a 2 MiB or 1 GiB page.
pub const PAGE_HUGE: u64 = 0x80;

/// 4 KiB.
pub const SZ_4K: u64 = 0x1000;

/// 2 MiB.
pub const SZ_2M: u64 = 0x20_0000;

/// 1 GiB.
pub const SZ_1G: u64 = 0x4000_0000;

/// Where the kernel image is linked.
pub const KERNEL_BASE: u64 = 0xffff_ffff_8000_0000;

/// Whether an entry is present.
pub open spec fn present(e: u64) -> bool {
    e & PAGE_PRESENT != 0
}

/// Whether an entry maps a large page.
pub open spec fn huge(e: u64) -> bool {
    e & PAGE_HUGE != 0
}

/// Entry `i` of the table in frame `table`.
pub open spec fn entry_at(mem: Frames, table: u64, i: int) -> u64 {
    mem[table][i]
}

/// The address of `virt` in a large page of `size` bytes that entry `e` maps.
pub open spec fn in_large_page(e: u64, virt: int, size: int) -> int {
    (pte_ppn(e) * 0x1000) / size * size + virt % size
}

/// The physical address of `virt` from the entry of the third table on.
pub open spec fn walk_pd(mem: Frames, pd: u64, virt: int) -> Option<int> {
    let e = entry_at(mem, pd, (virt / 0x20_0000) % 512);
    if !present(e) {
        None
    } else if huge(e) {
        Some(in_large_page(e, virt, 0x20_0000))
    } else {
        let leaf = entry_at(mem, pte_ppn(e), (virt / 0x1000) % 512);
        if present(leaf) {
            Some(pte_ppn(leaf) * 0x1000 + virt % 0x1000)
        } else {
            None
        }
    }
}

/// The physical address of `virt` from the entry of the second table on.
pub open spec fn walk_pdpt(mem: Frames, pdpt: u64, virt: int) -> Option<int> {
    let e = entry_at(mem, pdpt, (virt / 0x4000_0000) % 512);
    if !present(e) {
        None
    } else if huge(e) {
        Some(in_large_page(e, virt, 0x4000_0000))
    } else {
        walk_pd(mem, pte_ppn(e), virt)
    }
}

/// The physical address of `virt` as the page tables from frame `root` on
/// give it.
pub open spec fn walk(mem: Frames, root: u64, virt: int) -> Option<int> {
    let e = entry_at(mem, root, (virt / 0x80_0000_0000) % 512);
    if !present(e) {
        None
    } else if huge(e) {
        Some(in_large_page(e, virt, 0x4000_0000))
    } else {
        walk_pdpt(mem, pte_ppn(e), virt)
    }
}

/// The tables on the way from frame `root` to `virt` exist.
pub open spec fn walk_exists(mem: Frames, root: u64, virt: int) -> bool {
    let e0 = entry_at(mem, root, (virt / 0x80_0000_0000) % 512);
    let e1 = entry_at(mem, pte_ppn(e0), (virt / 0x4000_0000) % 512);
    let e2 = entry_at(mem, pte_ppn(e1), (virt / 0x20_0000) % 512);
    &&& mem.dom().contains(root)
    &&& present(e0) && !huge(e0) ==> {
        &&& mem.dom().contains(pte_ppn(e0))
        &&& present(e1) && !huge(e1) ==> {
            &&& mem.dom().contains(pte_ppn(e1))
            &&& present(e2) && !huge(e2) ==> mem.dom().contains(pte_ppn(e2))
        }
    }
}

/// The address bits of an entry.
fn entry_address(e: u64) -> (r: u64)
    ensures
        r == pte_ppn(e) * 0x1000,
        r < 0x10_0000_0000_0000,
{
    proof {
        pte_ppn_bound(e);
        assert(e & 0x000F_FFFF_FFFF_F000u64 == ((e & 0x000F_FFFF_FFFF_F000u64) >> 12) * 0x1000)
            by (bit_vector);
    }
    e & PTE_ADDR_MASK
}

/// Translate a virtual address to a physical one by walking the page tables
/// that `cr3` points to.
pub fn translate<M: PhysMemory>(mem: &M, cr3: u64, virt: u64) -> (r: Option<u64>)
    requires
        cr3 % 0x1000 == 0,
        walk_exists(mem.frames(), cr3 / 0x1000, virt as int),
    ensures
        match r {
            Some(pa) => walk(mem.frames(), cr3 / 0x1000, virt as int) == Some(pa as int),
            None => walk(mem.frames(), cr3 / 0x1000, virt as int) is None,
        },
{
    let e: u64 = mem.read_word(cr3 / 0x1000, ((virt / 0x80_0000_0000) % 512) as usize);
    if e & PAGE_PRESENT == 0 {
        return None;
    }
    let pdpt: u64 = entry_address(e);
    if e & PAGE_HUGE != 0 {
        return Some(pdpt / SZ_1G * SZ_1G + virt % SZ_1G);
    }
    let e: u64 = mem.read_word(pdpt / 0x1000, ((virt / SZ_1G) % 512) as usize);
    if e & PAGE_PRESENT == 0 {
        return None;
    }
    let pd: u64 = entry_address(e);
    if e & PAGE_HUGE != 0 {
        return Some(pd / SZ_1G * SZ_1G + virt % SZ_1G);
    }
    let e: u64 = mem.read_word(pd / 0x1000, ((virt / SZ_2M) % 512) as usize);
    if e & PAGE_PRESENT == 0 {
        return None;
    }
    let pt: u64 = entry_address(e);
    if e & PAGE_HUGE != 0 {
        return Some(pt / SZ_2M * SZ_2M + virt % SZ_2M);
    }
    let e: u64 = mem.read_word(pt / 0x1000, ((virt / SZ_4K) % 512) as usize);
    if e & PAGE_PRESENT == 0 {
        return None;
    }
    Some(entry_address(e) + virt % SZ_4K)
}

/// The addresses of the tables, one 4 KiB page each.
#[derive(Copy, Clone, Debug)]
pub struct BootTables {
    pub pml4: u64,
    pub pdpt_low: u64,
    pub pdpt_kernel: u64,
    pub pd_low: [u64; 4],
    pub pd_kernel: u64,
    pub pt_kernel: [u64; 4],
}

impl BootTables {
    /// All addresses in a row.
    pub open spec fn all(&self) -> Seq<u64> {
        seq![
            self.pml4,
            self.pdpt_low,
            self.pdpt_kernel,
            self.pd_low[0],
            self.pd_low[1],
            self.pd_low[2],
            self.pd_low[3],
            self.pd_kernel,
            self.pt_kernel[0],
            self.pt_kernel[1],
            self.pt_kernel[2],
            self.pt_kernel[3],
        ]
    }
}

/// The frames that hold the tables whose addresses are `tables`, in the order
/// of [`BootTables::all`].
pub open spec fn table_frames(mem: Frames, root: u64, tables: BootTables) -> Seq<u64> {
    Seq::new(12, |i: int| (walk(mem, root, tables.all()[i] as int)->Some_0 / 0x1000) as u64)
}

/// The tables are mapped, lie in different frames, and are cleared.
pub open spec fn tables_ready(mem: Frames, root: u64, tables: BootTables) -> bool {
    &&& forall|i: int|
        0 <= i < 12 ==> {
            &&& walk_exists(mem, root, #[trigger] tables.all()[i] as int)
            &&& walk(mem, root, tables.all()[i] as int) is Some
            &&& walk(mem, root, tables.all()[i] as int)->Some_0 % 0x1000 == 0
        }
    &&& frames_ready(mem, table_frames(mem, root, tables))
}

/// The frames exist, are different, and are cleared.
pub open spec fn frames_ready(mem: Frames, f: Seq<u64>) -> bool {
    &&& f.len() == 12
    &&& forall|i: int|
        0 <= i < 12 ==> mem.dom().contains(#[trigger] f[i]) && mem[f[i]] == cleared_frame()
    &&& forall|i: int, j: int| 0 <= i < j < 12 ==> #[trigger] f[i] != #[trigger] f[j]
}

/// The number of 4 KiB pages of the kernel image.
pub open spec fn kernel_pages(kernel_size: int) -> int {
    (kernel_size + 0xfff) / 0x1000
}

/// The number of page tables that the kernel image takes.
pub open spec fn kernel_tables(kernel_size: int) -> int {
    (kernel_pages(kernel_size) + 511) / 512
}

/// Entry `j` of the table that maps GiB `i` of the low memory. The first 2 MiB
/// are left out, so that a null pointer access faults.
pub open spec fn low_entry(i: int, j: int) -> u64 {
    if i == 0 && j == 0 {
        0
    } else {
        ((i * 0x4000_0000 + j * 0x20_0000) as u64) | 0x87
    }
}

/// Entry `j` of page table `k` of the kernel image.
pub open spec fn kernel_entry(kernel_phys: int, pages: int, k: int, j: int) -> u64 {
    if k * 512 + j < pages {
        ((kernel_phys + (k * 512 + j) * 0x1000) as u64) | 3
    } else {
        0
    }
}

/// What table `t` (in the order of [`BootTables::all`]) holds in entry `j`. `f`
/// are the frames of the tables.
pub open spec fn boot_entry(
    f: Seq<u64>,
    kernel_phys: int,
    kernel_size: int,
    t: int,
    j: int,
) -> u64 {
    if t == 0 {
        if j == 0 {
            ((f[1] * 0x1000) as u64) | 7
        } else if j == 511 {
            ((f[2] * 0x1000) as u64) | 3
        } else {
            0
        }
    } else if t == 1 {
        if j < 4 {
            ((f[3 + j] * 0x1000) as u64) | 7
        } else {
            0
        }
    } else if t == 2 {
        if j == 510 {
            ((f[7] * 0x1000) as u64) | 3
        } else {
            0
        }
    } else if t < 7 {
        low_entry(t - 3, j)
    } else if t == 7 {
        if j < kernel_tables(kernel_size) {
            ((f[8 + j] * 0x1000) as u64) | 3
        } else {
            0
        }
    } else {
        kernel_entry(kernel_phys, kernel_pages(kernel_size), t - 8, j)
    }
}

/// The frames `f` hold the tables.
pub open spec fn holds_boot_tables(
    mem: Frames,
    f: Seq<u64>,
    kernel_phys: int,
    kernel_size: int,
) -> bool {
    forall|t: int, j: int|
        0 <= t < 12 && 0 <= j < 512 ==> #[trigger] entry_at(mem, f[t], j) == boot_entry(
            f,
            kernel_phys,
            kernel_size,
            t,
            j,
        )
}

/// Write the entries of the table that maps GiB `i` of the low memory.
fn fill_low<M: PhysMemory>(mem: &mut M, frame: u64, i: u64)
    requires
        old(mem).frames().dom().contains(frame),
        old(mem).frames()[frame] == cleared_frame(),
        i < 4,
    ensures
        final(mem).frames() == old(mem).frames().insert(
            frame,
            Seq::new(512, |j: int| low_entry(i as int, j)),
        ),
{
    let mut j: usize = 0;
    while j < 512
        invariant
            j <= 512,
            i < 4,
            old(mem).frames().dom().contains(frame),
            mem.frames() == old(mem).frames().insert(frame, mem.frames()[frame]),
            mem.frames()[frame].len() == 512,
            forall|k: int|
                0 <= k < 512 ==> mem.frames()[frame][k] == (if k < j {
                    low_entry(i as int, k)
                } else {
                    0
                }),
        decreases 512 - j,
    {
        let page: u64 = i * 512 + j as u64;
        if page != 0 {
            let base: u64 = i * SZ_1G + (j as u64) * SZ_2M;
            assert((((base | 1) | 2) | 4) | 0x80 == base | 0x87) by (bit_vector);
            let e: u64 = base | PAGE_PRESENT | PAGE_WRITABLE | PAGE_USER | PAGE_HUGE;
            mem.write_word(frame, j, e);
        }
        j = j + 1;
        assert(mem.frames() =~= old(mem).frames().insert(frame, mem.frames()[frame]));
    }
    assert(mem.frames()[frame] =~= Seq::new(512, |j: int| low_entry(i as int, j)));
}

/// Write the entries of page table `k` of the kernel image.
fn fill_kernel<M: PhysMemory>(mem: &mut M, frame: u64, k: u64, kernel_phys: u64, pages: u64)
    requires
        old(mem).frames().dom().contains(frame),
        old(mem).frames()[frame] == cleared_frame(),
        k < 4,
        kernel_phys < 0x20_0000_0000_0000,
    ensures
        final(mem).frames() == old(mem).frames().insert(
            frame,
            Seq::new(512, |j: int| kernel_entry(kernel_phys as int, pages as int, k as int, j)),
        ),
{
    let mut j: usize = 0;
    while j < 512
        invariant
            j <= 512,
            k < 4,
            kernel_phys < 0x20_0000_0000_0000,
            old(mem).frames().dom().contains(frame),
            mem.frames() == old(mem).frames().insert(frame, mem.frames()[frame]),
            mem.frames()[frame].len() == 512,
            forall|x: int|
                0 <= x < 512 ==> mem.frames()[frame][x] == (if x < j {
                    kernel_entry(kernel_phys as int, pages as int, k as int, x)
                } else {
                    0
                }),
        decreases 512 - j,
    {
        let page: u64 = k * 512 + j as u64;
        if page < pages {
            let base: u64 = kernel_phys + page * SZ_4K;
            assert((base | 1) | 2 == base | 3) by (bit_vector);
            let e: u64 = base | PAGE_PRESENT | PAGE_WRITABLE;
            mem.write_word(frame, j, e);
        }
        j = j + 1;
        assert(mem.frames() =~= old(mem).frames().insert(frame, mem.frames()[frame]));
    }
    assert(mem.frames()[frame] =~= Seq::new(
        512,
        |j: int| kernel_entry(kernel_phys as int, pages as int, k as int, j),
    ));
}

/// The physical address of a table.
fn table_phys<M: PhysMemory>(mem: &M, cr3: u64, virt: u64) -> (r: u64)
    requires
        cr3 % 0x1000 == 0,
        walk_exists(mem.frames(), cr3 / 0x1000, virt as int),
        walk(mem.frames(), cr3 / 0x1000, virt as int) is Some,
    ensures
        walk(mem.frames(), cr3 / 0x1000, virt as int) == Some(r as int),
{
    translate(mem, cr3, virt).unwrap()
}

/// Set up the page tables in the pages `tables`, which the page tables that
/// `cr3` points to map. Returns the value to load into CR3 to switch to them.
pub fn init<M: PhysMemory>(mem: &mut M, cr3: u64, tables: &BootTables, kernel_size: u64) -> (r: u64)
    requires
        cr3 % 0x1000 == 0,
        tables_ready(old(mem).frames(), cr3 / 0x1000, *tables),
        walk_exists(old(mem).frames(), cr3 / 0x1000, KERNEL_BASE as int),
        walk(old(mem).frames(), cr3 / 0x1000, KERNEL_BASE as int) is Some,
        kernel_tables(kernel_size as int) <= 4,
    ensures
        Some(r as int) == walk(old(mem).frames(), cr3 / 0x1000, tables.pml4 as int),
        final(mem).frames().dom() == old(mem).frames().dom(),
        holds_boot_tables(
            final(mem).frames(),
            table_frames(old(mem).frames(), cr3 / 0x1000, *tables),
            walk(old(mem).frames(), cr3 / 0x1000, KERNEL_BASE as int)->Some_0,
            kernel_size as int,
        ),
        forall|p: u64|
            !table_frames(old(mem).frames(), cr3 / 0x1000, *tables).contains(p)
                ==> #[trigger] final(mem).frames()[p] == old(mem).frames()[p],
{
    let ghost mem0 = mem.frames();
    let ghost root = cr3 / 0x1000;
    let ghost f = table_frames(mem0, root, *tables);
    let ghost all = tables.all();
    proof {
        mem.frames_wf();
        assert(all[0] == tables.pml4 && all[1] == tables.pdpt_low && all[2] == tables.pdpt_kernel);
        assert(all[3] == tables.pd_low[0] && all[4] == tables.pd_low[1] && all[5]
            == tables.pd_low[2] && all[6] == tables.pd_low[3]);
        assert(all[7] == tables.pd_kernel && all[8] == tables.pt_kernel[0] && all[9]
            == tables.pt_kernel[1] && all[10] == tables.pt_kernel[2] && all[11]
            == tables.pt_kernel[3]);
        lemma_walk_bound(mem0, root, KERNEL_BASE as int);
    }
    let kernel_phys: u64 = translate(mem, cr3, KERNEL_BASE).unwrap();
    let pml4: u64 = table_phys(mem, cr3, tables.pml4);
    let pdpt_low: u64 = table_phys(mem, cr3, tables.pdpt_low);
    let pdpt_kernel: u64 = table_phys(mem, cr3, tables.pdpt_kernel);
    let pd_kernel: u64 = table_phys(mem, cr3, tables.pd_kernel);
    let pd_low: [u64; 4] = [
        table_phys(mem, cr3, tables.pd_low[0]),
        table_phys(mem, cr3, tables.pd_low[1]),
        table_phys(mem, cr3, tables.pd_low[2]),
        table_phys(mem, cr3, tables.pd_low[3]),
    ];
    let pt_kernel: [u64; 4] = [
        table_phys(mem, cr3, tables.pt_kernel[0]),
        table_phys(mem, cr3, tables.pt_kernel[1]),
        table_phys(mem, cr3, tables.pt_kernel[2]),
        table_phys(mem, cr3, tables.pt_kernel[3]),
    ];
    assert(pml4 == f[0] * 0x1000 && pdpt_low == f[1] * 0x1000 && pdpt_kernel == f[2] * 0x1000
        && pd_kernel == f[7] * 0x1000);
    assert(pd_low[0] == f[3] * 0x1000 && pd_low[1] == f[4] * 0x1000 && pd_low[2] == f[5] * 0x1000
        && pd_low[3] == f[6] * 0x1000);
    assert(pt_kernel[0] == f[8] * 0x1000 && pt_kernel[1] == f[9] * 0x1000 && pt_kernel[2] == f[10]
        * 0x1000 && pt_kernel[3] == f[11] * 0x1000);
    // the low 4 GiB, open to user mode
    let mut i: usize = 0;
    while i < 4
        invariant
            i <= 4,
            frames_ready(mem0, f),
            forall|k: int| 0 <= k < 4 ==> #[trigger] pd_low[k] == f[3 + k] * 0x1000,
            mem.frames().dom() == mem0.dom(),
            forall|p: u64|
                !(exists|k: int| 0 <= k < i && #[trigger] f[3 + k] == p)
                    ==> #[trigger] mem.frames()[p] == mem0[p],
            forall|k: int|
                0 <= k < i ==> mem.frames()[#[trigger] f[3 + k]] == Seq::new(
                    512,
                    |j: int| low_entry(k, j),
                ),
        decreases 4 - i,
    {
        let ghost mem1 = mem.frames();
        proof {
            assert(f[3 + i] == pd_low[i as int] / 0x1000);
            assert forall|k: int| 0 <= k < i implies #[trigger] f[3 + k] != f[3 + i] by {}
            assert(mem1[f[3 + i]] == mem0[f[3 + i]]);
        }
        fill_low(mem, pd_low[i] / 0x1000, i as u64);
        assert(mem.frames().dom() =~= mem0.dom());
        proof {
            assert forall|p: u64| !(exists|k: int| 0 <= k < i + 1 && #[trigger] f[3 + k] == p) implies #[trigger] mem.frames()[p]
                == mem0[p] by {
                assert(f[3 + i] != p);
                assert(mem1[p] == mem0[p]);
            }
        }
        i = i + 1;
    }
    let ghost mem2 = mem.frames();
    let num_pages: u64 = if kernel_size == 0 {
        0
    } else {
        (kernel_size - 1) / SZ_4K + 1
    };
    let num_pts: u64 = (num_pages + 511) / 512;
    assert(num_pages == kernel_pages(kernel_size as int));
    proof {
        assert forall|t: int| 0 <= t < 12 && !(3 <= t < 7) implies mem2[#[trigger] f[t]]
            == cleared_frame() by {
            assert forall|k: int| 0 <= k < 4 implies #[trigger] f[3 + k] != f[t] by {}
            assert(mem2[f[t]] == mem0[f[t]]);
        }
    }
    // the page tables of the kernel image, closed to user mode
    let mut k: usize = 0;
    while k < 4
        invariant
            k <= 4,
            frames_ready(mem0, f),
            kernel_phys < 0x20_0000_0000_0000,
            num_pages == kernel_pages(kernel_size as int),
            num_pts == kernel_tables(kernel_size as int),
            num_pts <= 4,
            forall|x: int| 0 <= x < 4 ==> #[trigger] pt_kernel[x] == f[8 + x] * 0x1000,
            mem2.dom() == mem0.dom(),
            forall|t: int|
                0 <= t < 12 && !(3 <= t < 7) ==> mem2[#[trigger] f[t]] == cleared_frame(),
            mem.frames().dom() == mem0.dom(),
            forall|p: u64|
                !(exists|x: int| 0 <= x < k && #[trigger] f[8 + x] == p)
                    ==> #[trigger] mem.frames()[p] == mem2[p],
            forall|x: int|
                0 <= x < k ==> mem.frames()[#[trigger] f[8 + x]] == Seq::new(
                    512,
                    |j: int| kernel_entry(kernel_phys as int, num_pages as int, x, j),
                ),
        decreases 4 - k,
    {
        let ghost mem1 = mem.frames();
        proof {
            assert(f[8 + k] == pt_kernel[k as int] / 0x1000);
            assert forall|x: int| 0 <= x < k implies #[trigger] f[8 + x] != f[8 + k] by {}
            assert(mem1[f[8 + k]] == mem2[f[8 + k]]);
        }
        if (k as u64) < num_pts {
            fill_kernel(mem, pt_kernel[k] / 0x1000, k as u64, kernel_phys, num_pages);
        } else {
            assert(mem1[f[8 + k]] =~= Seq::new(
                512,
                |j: int| kernel_entry(kernel_phys as int, num_pages as int, k as int, j),
            ));
        }
        assert(mem.frames().dom() =~= mem0.dom());
        proof {
            assert forall|p: u64| !(exists|x: int| 0 <= x < k + 1 && #[trigger] f[8 + x] == p) implies #[trigger] mem.frames()[p]
                == mem2[p] by {
                assert(f[8 + k] != p);
                assert(mem1[p] == mem2[p]);
            }
        }
        k = k + 1;
    }
    let ghost mem3 = mem.frames();
    proof {
        assert forall|t: int| 0 <= t < 8 implies mem3[#[trigger] f[t]] == mem2[f[t]] by {
            assert forall|x: int| 0 <= x < 4 implies #[trigger] f[8 + x] != f[t] by {}
        }
        assert forall|b: u64| ((b | 1) | 2) == b | 3 && (((b | 1) | 2) | 4) == b | 7 by {
            assert(((b | 1) | 2) == b | 3 && (((b | 1) | 2) | 4) == b | 7) by (bit_vector);
        }
    }
    // the tables above them
    let mut i: usize = 0;
    while i < 4
        invariant
            i <= 4,
            frames_ready(mem0, f),
            mem3.dom() == mem0.dom(),
            pdpt_low == f[1] * 0x1000,
            mem3[f[1]] == cleared_frame(),
            forall|b: u64| #![trigger b | 1] ((b | 1) | 2) == b | 3 && (((b | 1) | 2) | 4) == b | 7,
            forall|k: int| 0 <= k < 4 ==> #[trigger] pd_low[k] == f[3 + k] * 0x1000,
            mem.frames() == mem3.insert(f[1], mem.frames()[f[1]]),
            mem.frames()[f[1]].len() == 512,
            forall|j: int|
                0 <= j < 512 ==> mem.frames()[f[1]][j] == (if j < i {
                    ((f[3 + j] * 0x1000) as u64) | 7
                } else {
                    0
                }),
        decreases 4 - i,
    {
        assert(pd_low[i as int] == f[3 + i] * 0x1000);
        mem.write_word(
            pdpt_low / 0x1000,
            i,
            pd_low[i] | PAGE_PRESENT | PAGE_WRITABLE | PAGE_USER,
        );
        i = i + 1;
        assert(mem.frames() =~= mem3.insert(f[1], mem.frames()[f[1]]));
    }
    let ghost mem4 = mem.frames();
    let mut k: usize = 0;
    while (k as u64) < num_pts
        invariant
            k <= num_pts <= 4,
            frames_ready(mem0, f),
            mem4.dom() == mem0.dom(),
            pd_kernel == f[7] * 0x1000,
            mem4[f[7]] == cleared_frame(),
            forall|b: u64| #![trigger b | 1] ((b | 1) | 2) == b | 3 && (((b | 1) | 2) | 4) == b | 7,
            forall|x: int| 0 <= x < 4 ==> #[trigger] pt_kernel[x] == f[8 + x] * 0x1000,
            mem.frames() == mem4.insert(f[7], mem.frames()[f[7]]),
            mem.frames()[f[7]].len() == 512,
            forall|j: int|
                0 <= j < 512 ==> mem.frames()[f[7]][j] == (if j < k {
                    ((f[8 + j] * 0x1000) as u64) | 3
                } else {
                    0
                }),
        decreases num_pts - k,
    {
        assert(pt_kernel[k as int] == f[8 + k] * 0x1000);
        mem.write_word(pd_kernel / 0x1000, k, pt_kernel[k] | PAGE_PRESENT | PAGE_WRITABLE);
        k = k + 1;
        assert(mem.frames() =~= mem4.insert(f[7], mem.frames()[f[7]]));
    }
    mem.write_word(pdpt_kernel / 0x1000, 510, pd_kernel | PAGE_PRESENT | PAGE_WRITABLE);
    mem.write_word(pml4 / 0x1000, 0, pdpt_low | PAGE_PRESENT | PAGE_WRITABLE | PAGE_USER);
    mem.write_word(pml4 / 0x1000, 511, pdpt_kernel | PAGE_PRESENT | PAGE_WRITABLE);
    proof {
        let m = mem.frames();
        assert(m.dom() =~= mem0.dom());
        assert forall|t: int, j: int| 0 <= t < 12 && 0 <= j < 512 implies #[trigger] entry_at(
            m,
            f[t],
            j,
        ) == boot_entry(f, kernel_phys as int, kernel_size as int, t, j) by {
            if 3 <= t < 7 {
                assert(f[3 + (t - 3)] == f[t]);
                assert(m[f[t]] == mem2[f[t]]);
            } else if t >= 8 {
                assert(f[8 + (t - 8)] == f[t]);
                assert(m[f[t]] == mem3[f[t]]);
            } else {
                assert(mem3[f[t]] == cleared_frame());
            }
        }
        assert forall|p: u64| !f.contains(p) implies #[trigger] m[p] == mem0[p] by {
            assert forall|x: int| 0 <= x < 12 implies #[trigger] f[x] != p by {}
            assert(mem2[p] == mem0[p]);
            assert(mem3[p] == mem2[p]);
        }
    }
    pml4
}

proof fn lemma_walk_bound(mem: Frames, root: u64, virt: int)
    requires
        0 <= virt,
    ensures
        walk(mem, root, virt) matches Some(pa) ==> 0 <= pa < 0x20_0000_0000_0000,
{
    let e0 = entry_at(mem, root, (virt / 0x80_0000_0000) % 512);
    let e1 = entry_at(mem, pte_ppn(e0), (virt / 0x4000_0000) % 512);
    let e2 = entry_at(mem, pte_ppn(e1), (virt / 0x20_0000) % 512);
    let e3 = entry_at(mem, pte_ppn(e2), (virt / 0x1000) % 512);
    pte_ppn_bound(e0);
    pte_ppn_bound(e1);
    pte_ppn_bound(e2);
    pte_ppn_bound(e3);
}

/// The bits of an entry that was made of an address and flags.
pub proof fn lemma_entry_bits(a: u64, flags: u64)
    requires
        a % 0x1000 == 0,
        a < 0x10_0000_0000_0000,
        flags == 3 || flags == 7 || flags == 0x87,
    ensures
        present(a | flags),
        huge(a | flags) == (flags == 0x87),
        pte_ppn(a | flags) == a / 0x1000,
        (a | flags) & 2 != 0,
        ((a | flags) & 4 != 0) == (flags != 3),
        (a | flags) & 0x8000_0000_0000_0000 == 0,
        !present(0),
{
    assert({
        &&& (a | flags) & 1 != 0
        &&& ((a | flags) & 0x80 != 0) == (flags == 0x87)
        &&& ((a | flags) & 0x000F_FFFF_FFFF_F000u64) >> 12 == a / 0x1000
        &&& (a | flags) & 2 != 0
        &&& ((a | flags) & 4 != 0) == (flags != 3)
        &&& (a | flags) & 0x8000_0000_0000_0000 == 0
        &&& 0u64 & 1 == 0
    }) by (bit_vector)
        requires
            a % 0x1000 == 0,
            a < 0x10_0000_0000_0000,
            flags == 3 || flags == 7 || flags == 0x87,
    ;
}

/// The first page tables map the memory from 2 MiB to 4 GiB to itself and
/// leave the first 2 MiB out.
pub proof fn boot_tables_map_low_memory(
    mem: Frames,
    f: Seq<u64>,
    kernel_phys: int,
    kernel_size: int,
    virt: int,
)
    requires
        holds_boot_tables(mem, f, kernel_phys, kernel_size),
        f.len() == 12,
        forall|i: int| 0 <= i < 12 ==> #[trigger] f[i] < 0x100_0000_0000,
        0 <= virt < 0x1_0000_0000,
    ensures
        walk(mem, f[0], virt) == if virt < 0x20_0000 {
            None
        } else {
            Some(virt)
        },
{
    let i = virt / 0x4000_0000;
    let j = (virt / 0x20_0000) % 512;
    assert(f[1] < 0x100_0000_0000 && f[3 + i] < 0x100_0000_0000);
    lemma_entry_bits((f[1] * 0x1000) as u64, 7);
    lemma_entry_bits((f[3 + i] * 0x1000) as u64, 7);
    assert(entry_at(mem, f[0], 0) == boot_entry(f, kernel_phys, kernel_size, 0, 0));
    assert(entry_at(mem, f[1], i) == boot_entry(f, kernel_phys, kernel_size, 1, i));
    assert(entry_at(mem, f[3 + i], j) == boot_entry(f, kernel_phys, kernel_size, 3 + i, j));
    assert((virt / 0x4000_0000) % 512 == i);
    assert((virt / 0x80_0000_0000) % 512 == 0);
    if virt >= 0x20_0000 {
        let a = (i * 0x4000_0000 + j * 0x20_0000) as u64;
        lemma_entry_bits(a, 0x87);
        assert(a == virt / 0x20_0000 * 0x20_0000);
    }
}

/// The indexes of the pages of the kernel image.
pub proof fn lemma_kernel_indexes(at: int)
    requires
        0 <= at < 0x80_0000,
    ensures
        ((KERNEL_BASE + at) / 0x80_0000_0000) % 512 == 511,
        ((KERNEL_BASE + at) / 0x4000_0000) % 512 == 510,
        ((KERNEL_BASE + at) / 0x20_0000) % 512 == at / 0x1000 / 512,
        ((KERNEL_BASE + at) / 0x1000) % 512 == (at / 0x1000) % 512,
        (KERNEL_BASE + at) % 0x1000 == at % 0x1000,
{
    let v = KERNEL_BASE + at;
    assert(v / 0x80_0000_0000 == 0x1ff_ffff);
    assert(v / 0x4000_0000 == 0x3_ffff_fffe);
    assert(v / 0x20_0000 == 0x7ff_ffff_fc00 + at / 0x20_0000);
    assert(at / 0x1000 / 512 == at / 0x20_0000);
    assert(v / 0x1000 == 0xf_ffff_fff8_0000 + at / 0x1000);
    assert((0xf_ffff_fff8_0000 + at / 0x1000) % 512 == (at / 0x1000) % 512);
}

/// The first page tables map the kernel image to where it was loaded.
pub proof fn boot_tables_map_kernel(
    mem: Frames,
    f: Seq<u64>,
    kernel_phys: int,
    kernel_size: int,
    at: int,
)
    requires
        holds_boot_tables(mem, f, kernel_phys, kernel_size),
        f.len() == 12,
        forall|i: int| 0 <= i < 12 ==> #[trigger] f[i] < 0x100_0000_0000,
        0 <= kernel_phys,
        kernel_phys % 0x1000 == 0,
        kernel_phys + kernel_pages(kernel_size) * 0x1000 <= 0x10_0000_0000_0000,
        kernel_tables(kernel_size) <= 4,
        0 <= at < kernel_pages(kernel_size) * 0x1000,
    ensures
        walk(mem, f[0], KERNEL_BASE + at) == Some(kernel_phys + at),
{
    let virt = KERNEL_BASE + at;
    let page = at / 0x1000;
    let k = page / 512;
    let j = page % 512;
    assert(f[2] < 0x100_0000_0000 && f[7] < 0x100_0000_0000 && f[8 + k] < 0x100_0000_0000);
    lemma_entry_bits((f[2] * 0x1000) as u64, 3);
    lemma_entry_bits((f[7] * 0x1000) as u64, 3);
    lemma_entry_bits((f[8 + k] * 0x1000) as u64, 3);
    assert(entry_at(mem, f[0], 511) == boot_entry(f, kernel_phys, kernel_size, 0, 511));
    assert(entry_at(mem, f[2], 510) == boot_entry(f, kernel_phys, kernel_size, 2, 510));
    assert(entry_at(mem, f[7], k) == boot_entry(f, kernel_phys, kernel_size, 7, k));
    assert(entry_at(mem, f[8 + k], j) == boot_entry(f, kernel_phys, kernel_size, 8 + k, j));
    lemma_kernel_indexes(at);
    let a = (kernel_phys + page * 0x1000) as u64;
    lemma_entry_bits(a, 3);
}

} // verus!
