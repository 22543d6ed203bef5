//! The trap context: the registers of a user thread while it is in the kernel.
use vstd::prelude::*;

verus! {

/// The user code segment selector (index 3, RPL 3).
pub const USER_CS: u64 = 0x1B;

/// The user data segment selector (index 4, RPL 3).
pub const USER_SS: u64 = 0x23;

/// The `trap_num` that marks an entry by the `syscall` instruction.
pub const TRAP_SYSCALL: u64 = 0x80;

/// The size of a [`TrapContext`] on a kernel stack in bytes: one word for each
/// of its fields.
pub const TRAP_CONTEXT_SIZE: u64 = 0xb0;

/// The trap context, in the order in which it lies on the kernel stack.
#[derive(Copy, Clone, Debug, PartialEq, Eq, Structural)]
pub struct TrapContext {
    pub rax: u64,
    pub rbx: u64,
    pub rcx: u64,
    pub rdx: u64,
    pub rsi: u64,
    pub rdi: u64,
    pub rbp: u64,
    pub r8: u64,
    pub r9: u64,
    pub r10: u64,
    pub r11: u64,
    pub r12: u64,
    pub r13: u64,
    pub r14: u64,
    pub r15: u64,
    /// where the trap came from: the vector of an exception, or
    /// [`TRAP_SYSCALL`]
    pub trap_num: u64,
    pub error_code: u64,
    pub rip: u64,
    pub cs: u64,
    pub rflags: u64,
    pub rsp: u64,
    pub ss: u64,
}

/// The context of a program that starts at `entry` in user mode with stack
/// pointer `sp`.
pub open spec fn app_context(entry: u64, sp: u64) -> TrapContext {
    TrapContext {
        rax: 0,
        rbx: 0,
        rcx: 0,
        rdx: 0,
        rsi: 0,
        rdi: 0,
        rbp: 0,
        r8: 0,
        r9: 0,
        r10: 0,
        r11: 0,
        r12: 0,
        r13: 0,
        r14: 0,
        r15: 0,
        trap_num: TRAP_SYSCALL,
        error_code: 0,
        rip: entry,
        cs: USER_CS,
        rflags: 2,
        rsp: sp,
        ss: USER_SS,
    }
}

/// The words of a trap context in memory, in the order in which they lie there.
pub open spec fn context_words(cx: TrapContext) -> Seq<u64> {
    seq![
        cx.rax,
        cx.rbx,
        cx.rcx,
        cx.rdx,
        cx.rsi,
        cx.rdi,
        cx.rbp,
        cx.r8,
        cx.r9,
        cx.r10,
        cx.r11,
        cx.r12,
        cx.r13,
        cx.r14,
        cx.r15,
        cx.trap_num,
        cx.error_code,
        cx.rip,
        cx.cs,
        cx.rflags,
        cx.rsp,
        cx.ss,
    ]
}

impl TrapContext {
    /// The words of the context in memory.
    pub fn words(&self) -> (r: [u64; 22])
        ensures
            r@ == context_words(*self),
    {
        let r = [
            self.rax,
            self.rbx,
            self.rcx,
            self.rdx,
            self.rsi,
            self.rdi,
            self.rbp,
            self.r8,
            self.r9,
            self.r10,
            self.r11,
            self.r12,
            self.r13,
            self.r14,
            self.r15,
            self.trap_num,
            self.error_code,
            self.rip,
            self.cs,
            self.rflags,
            self.rsp,
            self.ss,
        ];
        assert(r@ =~= context_words(*self));
        r
    }

    /// The context of a program that starts at `entry` in user mode with stack
    /// pointer `sp`. Bit 1 of the flags is always set.
    pub fn app_init_context(entry: u64, sp: u64) -> (r: Self)
        ensures
            r == app_context(entry, sp),
    {
        Self {
            rax: 0,
            rbx: 0,
            rcx: 0,
            rdx: 0,
            rsi: 0,
            rdi: 0,
            rbp: 0,
            r8: 0,
            r9: 0,
            r10: 0,
            r11: 0,
            r12: 0,
            r13: 0,
            r14: 0,
            r15: 0,
            trap_num: TRAP_SYSCALL,
            error_code: 0,
            rip: entry,
            cs: USER_CS,
            rflags: 2,
            rsp: sp,
            ss: USER_SS,
        }
    }
}

} // verus!
