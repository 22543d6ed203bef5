//! Processors: the state of each one, and how the others are started.
use vstd::prelude::*;
use crate::config::NCPU;
use crate::limine_reqs::{LimineMpInfo, LimineMpResponse};
use crate::trap::gdt::{table_words, Gdt};
use crate::trap::msr::MsrWrite;
use crate::trap::tss::TaskStateSegment;

verus! {

/// The base of GS.
pub const GS_BASE_MSR: u32 = 0xC000_0100;

/// The base of GS after the next `swapgs`.
pub const KERNEL_GS_BASE_MSR: u32 = 0xC000_0102;

/// What belongs to one processor. In kernel mode GS leads to it.
pub struct PerCpu {
    pub cpu_id: usize,
    /// the top of the kernel stack of the running thread
    pub current_stack_top: u64,
    /// the user's stack pointer, while a system call switches stacks
    pub user_rsp: u64,
    /// the task state segment, whose stack exceptions in user mode use
    pub tss: TaskStateSegment,
    /// the descriptor table, with the descriptor of `tss`
    pub gdt: Gdt,
    /// the id of the local APIC
    pub apic_id: u32,
    /// the number of timer periods so far
    pub wraps: usize,
}

impl PerCpu {
    /// What holds of a processor that has just been set up: its task state
    /// segment, at `tss_base`, has the kernel stack with top `stack_top`.
    pub open spec fn set_up(
        &self,
        cpu_id: usize,
        apic_id: u32,
        stack_top: u64,
        tss_base: u64,
    ) -> bool {
        &&& self.cpu_id == cpu_id
        &&& self.current_stack_top == stack_top
        &&& self.user_rsp == 0
        &&& self.apic_id == apic_id
        &&& self.wraps == 0
        &&& self.tss.rsp0() == stack_top
        &&& self.tss.otherwise_empty()
        &&& self.gdt.words() == table_words(tss_base)
    }
}

/// A slot for each processor, also for those that are never started.
pub fn init_all_per_cpu_slots() -> (r: Vec<PerCpu>)
    ensures
        r@.len() == NCPU,
        forall|i: int| 0 <= i < NCPU ==> (#[trigger] r@[i]).set_up(i as usize, 0, 0, 0),
{
    let mut slots: Vec<PerCpu> = Vec::new();
    let mut id: usize = 0;
    while id < NCPU
        invariant
            id <= NCPU,
            slots@.len() == id,
            forall|i: int| 0 <= i < id ==> (#[trigger] slots@[i]).set_up(i as usize, 0, 0, 0),
        decreases NCPU - id,
    {
        slots.push(
            PerCpu {
                cpu_id: id,
                current_stack_top: 0,
                user_rsp: 0,
                tss: TaskStateSegment::new(),
                gdt: Gdt::new(0),
                apic_id: 0,
                wraps: 0,
            },
        );
        id = id + 1;
    }
    slots
}

/// The writes that let GS lead to the slot at `per_cpu_addr` after the next `swapgs`.
pub open spec fn gs_writes(per_cpu_addr: u64) -> Seq<MsrWrite> {
    seq![
        MsrWrite { msr: GS_BASE_MSR, value: 0 },
        MsrWrite { msr: KERNEL_GS_BASE_MSR, value: per_cpu_addr },
    ]
}

/// Set up the slot of processor `cpu_id`, which lies at `per_cpu_addr` and its task
/// state segment at `tss_base`. Returns the writes that let GS lead to the slot:
/// the user's base is 0, and a `swapgs` after them brings the kernel's.
pub fn init_cpu(
    slots: &mut Vec<PerCpu>,
    cpu_id: usize,
    apic_id: u32,
    boot_stack_top: u64,
    tss_base: u64,
    per_cpu_addr: u64,
) -> (r: [MsrWrite; 2])
    requires
        cpu_id < old(slots)@.len(),
    ensures
        final(slots)@ == old(slots)@.update(cpu_id as int, final(slots)@[cpu_id as int]),
        final(slots)@[cpu_id as int].set_up(cpu_id, apic_id, boot_stack_top, tss_base),
        r@ == gs_writes(per_cpu_addr),
{
    let mut tss = TaskStateSegment::new();
    tss.set_rsp0(boot_stack_top);
    let slot = PerCpu {
        cpu_id,
        current_stack_top: boot_stack_top,
        user_rsp: 0,
        tss,
        gdt: Gdt::new(tss_base),
        apic_id,
        wraps: 0,
    };
    slots.set(cpu_id, slot);
    let r = [
        MsrWrite { msr: GS_BASE_MSR, value: 0 },
        MsrWrite { msr: KERNEL_GS_BASE_MSR, value: per_cpu_addr },
    ];
    assert(r@ =~= seq![
        MsrWrite { msr: GS_BASE_MSR, value: 0 },
        MsrWrite { msr: KERNEL_GS_BASE_MSR, value: per_cpu_addr },
    ]);
    r
}

/// How many of the first `n` processors are not the one that boots.
pub open spec fn others(cpus: Seq<LimineMpInfo>, bsp: u32, n: int) -> int
    decreases n,
{
    if n <= 0 {
        0
    } else {
        others(cpus, bsp, n - 1) + (if cpus[n - 1].lapic_id == bsp {
            0int
        } else {
            1
        })
    }
}

/// Processor `i` after it was told its number and where to start; the one that
/// boots is left alone.
pub open spec fn released(cpus: Seq<LimineMpInfo>, bsp: u32, entry: u64, i: int) -> LimineMpInfo {
    if cpus[i].lapic_id == bsp {
        cpus[i]
    } else {
        LimineMpInfo {
            extra_argument: (1 + others(cpus, bsp, i)) as u64,
            goto_address: entry,
            ..cpus[i]
        }
    }
}

/// The number of processors that the kernel uses.
pub open spec fn used_cpus(response: LimineMpResponse) -> int {
    if response.cpu_count < NCPU {
        response.cpu_count as int
    } else {
        NCPU as int
    }
}

/// `after` came from `before` by releasing the processors that the kernel uses and that do
/// not boot, `count` of them, so that they start at `entry`.
pub open spec fn aps_released(
    after: LimineMpResponse,
    before: LimineMpResponse,
    entry: u64,
    count: int,
) -> bool {
    let n = used_cpus(before);
    let cpus = before.cpus@;
    let bsp = before.bsp_lapic_id;
    &&& count == others(cpus, bsp, n)
    &&& after.cpus@.len() == cpus.len()
    &&& forall|i: int|
        0 <= i < cpus.len() ==> #[trigger] after.cpus@[i] == if i < n {
            released(cpus, bsp, entry, i)
        } else {
            cpus[i]
        }
}

proof fn lemma_others(cpus: Seq<LimineMpInfo>, bsp: u32, n: int)
    requires
        0 <= n,
    ensures
        0 <= others(cpus, bsp, n) <= n,
    decreases n,
{
    if n > 0 {
        lemma_others(cpus, bsp, n - 1);
    }
}

/// Release the processors that the boot loader has parked: each gets the next
/// number, from 1 on, and starts at `ap_entry`. Returns how many were released.
pub fn smp_boot_aps(response: &mut LimineMpResponse, ap_entry: u64) -> (r: usize)
    requires
        used_cpus(*old(response)) <= old(response).cpus@.len(),
    ensures
        aps_released(*final(response), *old(response), ap_entry, r as int),
        *final(response) == (LimineMpResponse { cpus: final(response).cpus, ..*old(response) }),
{
    let ghost cpus = response.cpus@;
    let bsp_id: u32 = response.bsp_lapic_id;
    let count: usize = if response.cpu_count < NCPU as u64 {
        response.cpu_count as usize
    } else {
        NCPU
    };
    let mut next_cpu_id: u64 = 1;
    let mut ap_released: usize = 0;
    let mut i: usize = 0;
    while i < count
        invariant
            i <= count <= NCPU,
            count <= cpus.len(),
            response.cpus@.len() == cpus.len(),
            bsp_id == old(response).bsp_lapic_id,
            ap_released == others(cpus, bsp_id, i as int),
            next_cpu_id == ap_released + 1,
            ap_released <= i,
            *response == (LimineMpResponse { cpus: response.cpus, ..*old(response) }),
            forall|k: int|
                0 <= k < cpus.len() ==> #[trigger] response.cpus@[k] == if k < i {
                    released(cpus, bsp_id, ap_entry, k)
                } else {
                    cpus[k]
                },
        decreases count - i,
    {
        let mut info: LimineMpInfo = response.cpus[i];
        if info.lapic_id != bsp_id {
            info.extra_argument = next_cpu_id;
            info.goto_address = ap_entry;
            response.cpus.set(i, info);
            next_cpu_id = next_cpu_id + 1;
            ap_released = ap_released + 1;
        }
        i = i + 1;
    }
    ap_released
}

/// Two processors that are released get different numbers, which are not that of
/// the processor that boots.
pub proof fn processors_get_distinct_numbers(
    cpus: Seq<LimineMpInfo>,
    bsp: u32,
    entry: u64,
    i: int,
    j: int,
)
    requires
        0 <= i < j < NCPU,
        cpus[i].lapic_id != bsp,
        cpus[j].lapic_id != bsp,
    ensures
        0 < released(cpus, bsp, entry, i).extra_argument < released(
            cpus,
            bsp,
            entry,
            j,
        ).extra_argument < NCPU + 1,
{
    lemma_others(cpus, bsp, i);
    lemma_others(cpus, bsp, j);
    lemma_others_grow(cpus, bsp, i + 1, j);
}

proof fn lemma_others_grow(cpus: Seq<LimineMpInfo>, bsp: u32, i: int, j: int)
    requires
        0 <= i <= j,
    ensures
        others(cpus, bsp, i) <= others(cpus, bsp, j),
    decreases j,
{
    if i < j {
        lemma_others_grow(cpus, bsp, i, j - 1);
    }
}

/// Every processor that the kernel uses, but the one that boots, starts at the entry that
/// was given, with a number from 1 to the number of processors that were released.
/// Nothing else of it changes, and the others are left alone.
pub proof fn released_processors_start_at_the_entry(
    after: LimineMpResponse,
    before: LimineMpResponse,
    entry: u64,
    count: int,
    i: int,
)
    requires
        aps_released(after, before, entry, count),
        0 <= i < before.cpus@.len(),
    ensures
        after.cpus@.len() == before.cpus@.len(),
        after.cpus@[i].processor_id == before.cpus@[i].processor_id,
        after.cpus@[i].lapic_id == before.cpus@[i].lapic_id,
        after.cpus@[i].reserved == before.cpus@[i].reserved,
        i < before.cpu_count && i < NCPU && before.cpus@[i].lapic_id != before.bsp_lapic_id ==> {
            &&& after.cpus@[i].goto_address == entry
            &&& 1 <= after.cpus@[i].extra_argument <= count
        },
        i >= before.cpu_count || i >= NCPU || before.cpus@[i].lapic_id == before.bsp_lapic_id
            ==> after.cpus@[i] == before.cpus@[i],
{
    let cpus = before.cpus@;
    let bsp = before.bsp_lapic_id;
    lemma_others(cpus, bsp, i);
    if i < before.cpu_count && i < NCPU {
        lemma_others_grow(cpus, bsp, i + 1, used_cpus(before));
    }
}

/// The processors that are released get consecutive numbers in the order in which they
/// are listed: the first one gets 1, the next one the next number, and the number of the
/// last one is how many were released.
pub proof fn released_processors_are_numbered_in_turn(
    after: LimineMpResponse,
    before: LimineMpResponse,
    entry: u64,
    count: int,
    i: int,
    j: int,
)
    requires
        aps_released(after, before, entry, count),
        -1 <= i < j <= used_cpus(before) <= before.cpus@.len(),
        i >= 0 ==> before.cpus@[i].lapic_id != before.bsp_lapic_id,
        j < used_cpus(before) ==> before.cpus@[j].lapic_id != before.bsp_lapic_id,
        forall|k: int|
            i < k < j ==> (#[trigger] before.cpus@[k]).lapic_id == before.bsp_lapic_id,
    ensures
        ({
            let number_before = if i < 0 {
                0
            } else {
                after.cpus@[i].extra_argument as int
            };
            if j < used_cpus(before) {
                after.cpus@[j].extra_argument == number_before + 1
            } else {
                count == number_before
            }
        }),
{
    let cpus = before.cpus@;
    let bsp = before.bsp_lapic_id;
    lemma_others_flat(cpus, bsp, i + 1, j);
    lemma_others(cpus, bsp, j);
    if i >= 0 {
        lemma_others(cpus, bsp, i);
        assert(others(cpus, bsp, i + 1) == others(cpus, bsp, i) + 1);
        assert(after.cpus@[i] == released(cpus, bsp, entry, i));
    }
    if j < used_cpus(before) {
        assert(after.cpus@[j] == released(cpus, bsp, entry, j));
    }
}

proof fn lemma_others_flat(cpus: Seq<LimineMpInfo>, bsp: u32, i: int, j: int)
    requires
        0 <= i <= j,
        forall|k: int| i <= k < j ==> (#[trigger] cpus[k]).lapic_id == bsp,
    ensures
        others(cpus, bsp, i) == others(cpus, bsp, j),
    decreases j,
{
    if i < j {
        assert(cpus[j - 1].lapic_id == bsp);
        lemma_others_flat(cpus, bsp, i, j - 1);
    }
}

/// The place where released processors wait for each other.
#[derive(Copy, Clone, Debug, PartialEq, Eq, Structural)]
pub struct ApBarrier {
    /// how many have come
    pub ready: usize,
    /// how many are expected
    pub target: usize,
}

/// The barrier before it is known how many processors are released: one is expected.
pub open spec fn closed_barrier() -> ApBarrier {
    ApBarrier { ready: 0, target: 1 }
}

/// The barrier after `n` processors have come.
pub open spec fn barrier_after(b: ApBarrier, n: nat) -> ApBarrier
    decreases n,
{
    if n == 0 {
        b
    } else {
        barrier_after(b, (n - 1) as nat).with_one_more()
    }
}

/// Once `target` processors are expected, the barrier opens when that many have come, and
/// not before, whether they come before or after it is known how many there are.
pub proof fn barrier_opens_when_all_have_come(target: usize, before: nat, after: nat)
    requires
        before + after <= usize::MAX,
    ensures
        ({
            let known = barrier_after(closed_barrier(), before).expecting(target);
            barrier_after(known, after).opened() <==> before + after >= target
        }),
        !closed_barrier().opened(),
{
    lemma_barrier_after(closed_barrier(), before);
    let known = barrier_after(closed_barrier(), before).expecting(target);
    lemma_barrier_after(known, after);
}

proof fn lemma_barrier_after(b: ApBarrier, n: nat)
    requires
        b.ready + n <= usize::MAX,
    ensures
        barrier_after(b, n).ready == b.ready + n,
        barrier_after(b, n).target == b.target,
    decreases n,
{
    if n > 0 {
        lemma_barrier_after(b, (n - 1) as nat);
    }
}

impl ApBarrier {
    /// The barrier with another number of expected processors.
    pub open spec fn expecting(self, n: usize) -> ApBarrier {
        ApBarrier { target: n, ..self }
    }

    /// The barrier after one more processor has come.
    pub open spec fn with_one_more(self) -> ApBarrier {
        ApBarrier { ready: (self.ready + 1) as usize, ..self }
    }

    /// Whether all expected processors have come.
    pub open spec fn opened(self) -> bool {
        self.ready >= self.target
    }

    /// Until it is known how many processors are released, one is expected.
    pub fn new() -> (r: Self)
        ensures
            r == closed_barrier(),
    {
        ApBarrier { ready: 0, target: 1 }
    }

    /// Expect this many processors.
    pub fn expect(&mut self, ap_released: usize)
        ensures
            *final(self) == old(self).expecting(ap_released),
    {
        self.target = ap_released;
    }

    /// How many processors are expected.
    pub fn ap_target(&self) -> (r: usize)
        ensures
            r == self.target,
    {
        self.target
    }

    /// A processor has come.
    pub fn ap_ready(&mut self)
        requires
            old(self).ready < usize::MAX,
        ensures
            *final(self) == old(self).with_one_more(),
    {
        self.ready = self.ready + 1;
    }

    /// Whether all expected processors have come.
    pub fn is_open(&self) -> (r: bool)
        ensures
            r == self.opened(),
    {
        self.ready >= self.target
    }
}

} // verus!
