//! Programs linked into the kernel image.
//!
//! Each program has a kernel stack of its own in a table of stacks that follow
//! each other.
use vstd::prelude::*;
use crate::config::{KERNEL_STACK_SIZE, MAX_APP_NUM};
use crate::trap::context::{context_words, TrapContext, TRAP_CONTEXT_SIZE};

verus! {

/// The top of the kernel stack of program `app_id`, where the table of stacks
/// starts at `stacks`.
pub fn kernel_stack_top(stacks: u64, app_id: usize) -> (r: u64)
    requires
        app_id < MAX_APP_NUM,
        stacks + MAX_APP_NUM * KERNEL_STACK_SIZE <= u64::MAX,
    ensures
        r == stacks + (app_id + 1) * KERNEL_STACK_SIZE,
{
    stacks + (app_id as u64 + 1) * KERNEL_STACK_SIZE
}

/// Write `trap_cx` on top of the kernel stack of program `app_id`, and return the
/// address at which it lies. The table of stacks starts at `stacks` and holds
/// `memory`, word by word.
pub fn push_context(
    memory: &mut Vec<u64>,
    stacks: u64,
    app_id: usize,
    trap_cx: &TrapContext,
) -> (r: u64)
    requires
        app_id < MAX_APP_NUM,
        stacks + MAX_APP_NUM * KERNEL_STACK_SIZE <= u64::MAX,
        old(memory)@.len() * 8 == MAX_APP_NUM * KERNEL_STACK_SIZE,
    ensures
        r == stacks + (app_id + 1) * KERNEL_STACK_SIZE - TRAP_CONTEXT_SIZE,
        final(memory)@.len() == old(memory)@.len(),
        forall|i: int|
            0 <= i < old(memory)@.len() ==> #[trigger] final(memory)@[i] == ({
                let word = i - (r - stacks) / 8;
                if 0 <= word < 22 {
                    context_words(*trap_cx)[word]
                } else {
                    old(memory)@[i]
                }
            }),
{
    let words = trap_cx.words();
    let top: u64 = kernel_stack_top(stacks, app_id);
    let r: u64 = top - TRAP_CONTEXT_SIZE;
    let first: usize = ((r - stacks) / 8) as usize;
    assert(first + 22 == (app_id + 1) * (KERNEL_STACK_SIZE / 8));
    let ghost memory0 = memory@;
    let mut i: usize = 0;
    while i < 22
        invariant
            i <= 22,
            first + 22 <= memory@.len() <= 0x1_0000,
            memory@.len() == memory0.len(),
            words@ == context_words(*trap_cx),
            forall|j: int|
                0 <= j < memory@.len() ==> #[trigger] memory@[j] == (if first <= j < first + i {
                    words@[j - first]
                } else {
                    memory0[j]
                }),
        decreases 22 - i,
    {
        memory[first + i] = words[i];
        i = i + 1;
    }
    r
}

/// The number of programs: the first word of the table of programs.
pub fn get_num_app(table: &[u64]) -> (r: u64)
    requires
        table@.len() >= 1,
    ensures
        r == table@[0],
{
    table[0]
}

/// Where program `app_id` lies: its address and its length. The table of programs
/// holds their number, the address of each, and the end of the last.
pub fn get_app_data(table: &[u64], app_id: usize) -> (r: (u64, u64))
    requires
        table@.len() >= 1,
        app_id < table@[0],
        table@[0] + 2 <= table@.len(),
        table@[app_id + 1] <= table@[app_id + 2],
    ensures
        r.0 == table@[app_id + 1],
        r.1 == table@[app_id + 2] - table@[app_id + 1],
{
    let len: usize = table.len();
    assert(app_id + 2 < len);
    let start: u64 = table[app_id + 1];
    let end: u64 = table[app_id + 2];
    (start, end - start)
}

} // verus!
