//! What the tables and registers that the processor is programmed with mean to it.
use vstd::prelude::*;
use super::machine::words_are_little_endian;
use crate::cpu::{gs_writes, PerCpu};
use crate::trap::context::{app_context, context_words, TrapContext};
use crate::trap::gdt::{segment_values, segment_word, table_words, tss_descriptor_reads_back};
use crate::trap::idt::{gate, IdtEntry};
use crate::trap::msr::{nxe_write, syscall_writes, MsrWrite};
use crate::trap::tss::{low_bytes, TaskStateSegment};

verus! {

/// The fields of a segment descriptor: base 0, the largest limit in units of 4 KiB, the
/// access byte with the privilege level in it, and whether it is a segment of 64-bit code
/// or has operands of 32 bits.
pub proof fn descriptor_fields(access: u64, dpl: u64, long: bool, db: bool)
    requires
        access < 0x100,
        (access / 0x20) % 4 == 0,
        dpl < 4,
    ensures
        ({
            let w = segment_word(access, dpl, long, db) as int;
            &&& w % 0x1_0000 == 0xffff
            &&& (w / 0x1_0000) % 0x100_0000 == 0
            &&& (w / 0x100_0000_0000) % 0x100 == access + dpl * 0x20
            &&& (w / 0x1_0000_0000_0000) % 0x10 == 0xf
            &&& (w / 0x10_0000_0000_0000) % 2 == 0
            &&& ((w / 0x20_0000_0000_0000) % 2 == 1) == long
            &&& ((w / 0x40_0000_0000_0000) % 2 == 1) == db
            &&& (w / 0x80_0000_0000_0000) % 2 == 1
            &&& w / 0x100_0000_0000_0000 == 0
        }),
{
    assert({
        let w = 0xFFFF | (access << 40) | (dpl << 45) | (0xF_0000_0000_0000
            | 0x80_0000_0000_0000u64 | (if long {
            0x20_0000_0000_0000u64
        } else {
            0
        }) | (if db {
            0x40_0000_0000_0000u64
        } else {
            0
        }));
        &&& w % 0x1_0000 == 0xffff
        &&& (w / 0x1_0000) % 0x100_0000 == 0
        &&& (w / 0x100_0000_0000) % 0x100 == access + dpl * 0x20
        &&& (w / 0x1_0000_0000_0000) % 0x10 == 0xf
        &&& (w / 0x10_0000_0000_0000) % 2 == 0
        &&& ((w / 0x20_0000_0000_0000) % 2 == 1) == long
        &&& ((w / 0x40_0000_0000_0000) % 2 == 1) == db
        &&& (w / 0x80_0000_0000_0000) % 2 == 1
        &&& w / 0x100_0000_0000_0000 == 0
    }) by (bit_vector)
        requires
            access < 0x100,
            (access / 0x20) % 4 == 0,
            dpl < 4,
    ;
}

/// What the selectors lead to, each being eight times the number of an entry: 8 to the
/// kernel's code, 0x10 to its data, 0x18 to the user's code, 0x20 to the user's data, and
/// 0x28 to the task state segment, wherever it lies.
pub proof fn selectors_lead_to_their_segments(tss_base: u64)
    ensures
        ({
            let t = table_words(tss_base);
            &&& t.len() == 8
            &&& t[0] == 0
            &&& t[1] == 0x00AF_9A00_0000_FFFF
            &&& t[2] == 0x00CF_9200_0000_FFFF
            &&& t[3] == 0x00AF_FA00_0000_FFFF
            &&& t[4] == 0x00CF_F200_0000_FFFF
            &&& ((t[5] >> 16) & 0xFFFF) | (((t[5] >> 32) & 0xFF) << 16) | (((t[5] >> 56) & 0xFF)
                << 24) | (t[6] << 32) == tss_base
            &&& t[5] & 0xFFFF == 103
            &&& (t[5] >> 40) & 0xFFFF == 0x89
        }),
{
    segment_values();
    tss_descriptor_reads_back(tss_base);
}

/// A gate leads to its handler: the address is split over three fields, from its lowest
/// bits on.
pub proof fn gate_holds_the_address_of_its_handler(
    e: IdtEntry,
    handler: u64,
    selector: u16,
    type_attr: u8,
)
    requires
        gate(e, handler, selector, type_attr),
    ensures
        e.offset_low == handler % 0x1_0000,
        e.offset_mid == (handler as int / 0x1_0000) % 0x1_0000,
        e.offset_high == handler as int / 0x1_0000_0000,
        e.selector == selector,
        e.type_attr == type_attr,
        e.ist == 0,
        e.reserved == 0,
{
    let low = e.offset_low as int;
    let mid = e.offset_mid as int;
    let high = e.offset_high as int;
    assert(handler == low + mid * 0x1_0000 + high * 0x1_0000_0000);
    assert(handler as int / 0x1_0000_0000 == high);
    assert(handler as int / 0x1_0000 == mid + high * 0x1_0000);
}

/// In a task state segment the processor finds the stack pointer for entries from user
/// mode at offset 4, the lowest byte first, and at offset 102 where the map of the ports
/// begins.
pub proof fn processor_finds_the_kernel_stack(tss: TaskStateSegment)
    ensures
        tss.layout().len() == 104,
        ({
            let b = tss.layout();
            let sp = tss.rsp0();
            &&& b[4] == sp % 256
            &&& b[5] == (sp / 0x100) % 256
            &&& b[6] == (sp / 0x1_0000) % 256
            &&& b[7] == (sp / 0x100_0000) % 256
            &&& b[8] == (sp / 0x1_0000_0000) % 256
            &&& b[9] == (sp / 0x100_0000_0000) % 256
            &&& b[10] == (sp / 0x1_0000_0000_0000) % 256
            &&& b[11] == (sp / 0x100_0000_0000_0000) % 256
            &&& b[102] == tss.iomap_base % 256
            &&& b[103] == tss.iomap_base as int / 256
        }),
{
    let b = tss.layout();
    let low = low_bytes(tss.rsp0_low as u64, 4);
    let high = low_bytes(tss.rsp0_high as u64, 4);
    let map = low_bytes(tss.iomap_base as u64, 2);
    assert(b[4] == low[0] && b[5] == low[1] && b[6] == low[2] && b[7] == low[3]);
    assert(b[8] == high[0] && b[9] == high[1] && b[10] == high[2] && b[11] == high[3]);
    assert(b[102] == map[0] && b[103] == map[1]);
    lemma_low_digits(tss.rsp0_low);
    lemma_low_digits(tss.rsp0_high);
    words_are_little_endian(tss.iomap_base as u64);
    lemma_two_halves(tss.rsp0_low as int, tss.rsp0_high as int);
}

proof fn lemma_low_digits(w: u32)
    ensures
        ({
            let b = low_bytes(w as u64, 4);
            &&& b[0] == w % 256
            &&& b[1] == (w as int / 0x100) % 256
            &&& b[2] == (w as int / 0x1_0000) % 256
            &&& b[3] == (w as int / 0x100_0000) % 256
        }),
{
    words_are_little_endian(w as u64);
}

proof fn lemma_two_halves(low: int, high: int)
    requires
        0 <= low < 0x1_0000_0000,
        0 <= high < 0x1_0000_0000,
    ensures
        ({
            let w = low + high * 0x1_0000_0000;
            &&& w % 256 == low % 256
            &&& (w / 0x100) % 256 == (low / 0x100) % 256
            &&& (w / 0x1_0000) % 256 == (low / 0x1_0000) % 256
            &&& (w / 0x100_0000) % 256 == (low / 0x100_0000) % 256
            &&& (w / 0x1_0000_0000) % 256 == high % 256
            &&& (w / 0x100_0000_0000) % 256 == (high / 0x100) % 256
            &&& (w / 0x1_0000_0000_0000) % 256 == (high / 0x1_0000) % 256
            &&& (w / 0x100_0000_0000_0000) % 256 == (high / 0x100_0000) % 256
        }),
{
    let w = low + high * 0x1_0000_0000;
    assert(w / 0x100 == low / 0x100 + high * 0x100_0000);
    assert(w / 0x1_0000 == low / 0x1_0000 + high * 0x1_0000);
    assert(w / 0x100_0000 == low / 0x100_0000 + high * 0x100);
    assert(w / 0x1_0000_0000 == high);
    assert(w / 0x100_0000_0000 == high / 0x100);
    assert(w / 0x1_0000_0000_0000 == high / 0x1_0000);
    assert(w / 0x100_0000_0000_0000 == high / 0x100_0000);
}

/// How bits of registers are set.
pub proof fn lemma_register_bits(w: u64)
    ensures
        (w | 1) as int / 2 == w as int / 2,
        (w | 1) % 2 == 1,
        (w | 0x800) as int / 0x1000 == w as int / 0x1000,
        (w | 0x800) % 0x800 == w % 0x800,
        ((w | 0x800) as int / 0x800) % 2 == 1,
        (w & 0x400 != 0) == ((w as int / 0x400) % 2 == 1),
{
    assert({
        &&& (w | 1) / 2 == w / 2
        &&& (w | 1) % 2 == 1
        &&& (w | 0x800) / 0x1000 == w / 0x1000
        &&& (w | 0x800) % 0x800 == w % 0x800
        &&& ((w | 0x800) / 0x800) % 2 == 1
        &&& (w & 0x400 != 0) == ((w / 0x400) % 2 == 1)
    }) by (bit_vector);
}

/// System calls enter the kernel at the entry that was given, with the kernel's segments
/// and interrupts off. The instruction is allowed, and nothing else in its control
/// register changes.
pub proof fn system_calls_enter_the_kernel(entry: u64, efer: u64)
    ensures
        ({
            let w = syscall_writes(entry, efer);
            &&& w.len() == 4
            &&& w[0].msr == 0xC000_0081 && (w[0].value as int / 0x1_0000_0000) % 0x1_0000 == 8
            &&& w[0].value as int / 0x1_0000_0000_0000 + 16 == 0x18
            &&& w[1] == (MsrWrite { msr: 0xC000_0082, value: entry })
            &&& w[2] == (MsrWrite { msr: 0xC000_0084, value: 0x200 })
            &&& w[3].msr == 0xC000_0080 && w[3].value % 2 == 1
            &&& w[3].value as int / 2 == efer as int / 2
        }),
{
    lemma_register_bits(efer);
}

/// A trap context lies in memory as an interrupt leaves it: the frame of the processor on
/// top, below it the error code and the number of the trap, and then the registers, `rax`
/// lowest.
pub proof fn context_is_an_interrupt_frame(cx: TrapContext)
    ensures
        ({
            let w = context_words(cx);
            &&& w.len() == 22
            &&& w[21] == cx.ss && w[20] == cx.rsp && w[19] == cx.rflags && w[18] == cx.cs
            &&& w[17] == cx.rip && w[16] == cx.error_code && w[15] == cx.trap_num
            &&& w[14] == cx.r15 && w[13] == cx.r14 && w[12] == cx.r13 && w[11] == cx.r12
            &&& w[10] == cx.r11 && w[9] == cx.r10 && w[8] == cx.r9 && w[7] == cx.r8
            &&& w[6] == cx.rbp && w[5] == cx.rdi && w[4] == cx.rsi && w[3] == cx.rdx
            &&& w[2] == cx.rcx && w[1] == cx.rbx && w[0] == cx.rax
        }),
{
}

/// The first context of a program leads to user mode: to its entry with its stack, with
/// the user's segments.
pub proof fn first_context_leads_to_user_mode(entry: u64, sp: u64)
    ensures
        ({
            let cx = app_context(entry, sp);
            &&& cx.rip == entry && cx.rsp == sp
            &&& cx.cs % 4 == 3 && cx.cs / 8 * 8 == 0x18
            &&& cx.ss % 4 == 3 && cx.ss / 8 * 8 == 0x20
        }),
{
}

/// The processor is told to honor the flag that forbids execution; nothing else in its
/// control register changes.
pub proof fn execution_can_be_forbidden(efer: u64)
    ensures
        nxe_write(efer).msr == 0xC000_0080,
        (nxe_write(efer).value as int / 0x800) % 2 == 1,
        nxe_write(efer).value as int / 0x1000 == efer as int / 0x1000,
        nxe_write(efer).value % 0x800 == efer % 0x800,
{
    lemma_register_bits(efer);
}

/// A processor that was set up has a descriptor table that leads to its own task state
/// segment, and in that it finds its own stack for entries from user mode. GS leads to
/// its slot after the next exchange, and to nothing before.
pub proof fn processor_has_its_own_tables(
    slot: PerCpu,
    cpu_id: usize,
    apic_id: u32,
    stack_top: u64,
    tss_base: u64,
    address: u64,
)
    requires
        slot.set_up(cpu_id, apic_id, stack_top, tss_base),
    ensures
        slot.cpu_id == cpu_id,
        slot.apic_id == apic_id,
        slot.current_stack_top == stack_top,
        slot.user_rsp == 0,
        ({
            let b = slot.tss.layout();
            let t = slot.gdt.words();
            &&& b[4] == stack_top % 256
            &&& b[5] == (stack_top as int / 0x100) % 256
            &&& b[6] == (stack_top as int / 0x1_0000) % 256
            &&& b[7] == (stack_top as int / 0x100_0000) % 256
            &&& b[8] == (stack_top as int / 0x1_0000_0000) % 256
            &&& b[9] == (stack_top as int / 0x100_0000_0000) % 256
            &&& b[10] == (stack_top as int / 0x1_0000_0000_0000) % 256
            &&& b[11] == (stack_top as int / 0x100_0000_0000_0000) % 256
            &&& b[102] == 104 && b[103] == 0
            &&& ((t[5] >> 16) & 0xFFFF) | (((t[5] >> 32) & 0xFF) << 16) | (((t[5] >> 56) & 0xFF)
                << 24) | (t[6] << 32) == tss_base
        }),
        gs_writes(address).len() == 2,
        gs_writes(address)[0] == (MsrWrite { msr: 0xC000_0100, value: 0 }),
        gs_writes(address)[1] == (MsrWrite { msr: 0xC000_0102, value: address }),
{
    processor_finds_the_kernel_stack(slot.tss);
    selectors_lead_to_their_segments(tss_base);
}

} // verus!
