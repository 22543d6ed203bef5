//! System calls about processes.
use vstd::prelude::*;
use crate::config::NCPU;
use crate::mm::page_table::{lemma_root_is_table, root_of, token_reads_back};
use crate::mm::phys::{word_byte, Frames, PhysMemory};
use crate::mm::user_memory::{read_user_word, user_word, word_at};
use crate::mm::user_write::{lemma_user_readable, user_range, user_written};
use crate::task::action::SignalAction;
use crate::task::args::{push_word, word_bytes};
use crate::task::create::lemma_process_space;
use crate::task::delivery::{handler_returned, Delivery};
use crate::task::exec::write_process;
use crate::task::fork::{can_fork, forked};
use crate::task::kernel::{
    lemma_memory_kept, lemma_refs_kept, lemma_schedule_kept, memory_wf, references_wf, Kernel,
};
use crate::task::process::{ProcessControlBlock, ProcessControlBlockInner};
use crate::task::schedule::{
    current_process, current_task, current_user_token, pid2process, suspend_current_and_run_next,
    suspended,
};
use crate::task::signal::{signal_bit, SignalFlags, MAX_SIG, SIGKILL, SIGSTOP};
use crate::task::signals::{
    lemma_inner_changed, lemma_running, running, running_process, runs, with_inner, with_trap_cx,
};
use crate::task::terminate::{can_exit, exit_current_and_run_next, exited, ExitOutcome};
use crate::trap::context::TrapContext;

verus! {

/// End the running thread with an exit code.
pub fn sys_exit<M: PhysMemory>(kernel: &mut Kernel<M>, cpu: usize, exit_code: i32) -> (r: ExitOutcome)
    requires
        old(kernel).wf(),
        cpu < NCPU,
        can_exit(old(kernel), cpu as int),
    ensures
        final(kernel).wf(),
        exited(final(kernel), old(kernel), cpu as int, exit_code, r),
{
    exit_current_and_run_next(kernel, cpu, exit_code)
}

/// Let the running thread give up the processor. Returns the thread, which gets 0
/// as the result when it goes on.
pub fn sys_yield<M: PhysMemory>(kernel: &mut Kernel<M>, cpu: usize) -> (r: usize)
    requires
        old(kernel).wf(),
        runs(old(kernel), cpu),
    ensures
        final(kernel).wf(),
        r == running(old(kernel), cpu),
        suspended(final(kernel), old(kernel), cpu, r),
{
    suspend_current_and_run_next(kernel, cpu)
}

/// The time since the machine started, in milliseconds.
pub fn sys_get_time<M: PhysMemory>(kernel: &Kernel<M>) -> (r: isize)
    ensures
        r == kernel.timers.ticks() as isize,
{
    kernel.timers.get_time_ms() as isize
}

/// The pid of the running process.
pub fn sys_getpid<M: PhysMemory>(kernel: &Kernel<M>, cpu: usize) -> (r: isize)
    requires
        kernel.wf(),
        runs(kernel, cpu),
    ensures
        r == running_process(kernel, cpu) as isize,
{
    proof {
        lemma_running(kernel, cpu);
    }
    let pid: usize = current_process(kernel, cpu);
    kernel.processes.get(&pid).unwrap().getpid() as isize
}

/// `kernel` came from `kernel0` by copying the process that runs on processor `cpu`, which
/// gave `r`.
pub open spec fn process_forked<M: PhysMemory>(
    kernel: &Kernel<M>,
    kernel0: &Kernel<M>,
    cpu: usize,
    r: isize,
) -> bool {
    let child = kernel0.pid_allocator@.next_id() as usize;
    &&& r == kernel0.pid_allocator@.next_id() as isize
    &&& forked(kernel, kernel0, running_process(kernel0, cpu), child)
}

/// Copy the running process. Returns the pid of the child; the child gets 0.
pub fn sys_fork<M: PhysMemory>(kernel: &mut Kernel<M>, cpu: usize) -> (r: isize)
    requires
        old(kernel).wf(),
        runs(old(kernel), cpu),
        can_fork(old(kernel), running_process(old(kernel), cpu)),
    ensures
        final(kernel).wf(),
        process_forked(final(kernel), old(kernel), cpu, r),
{
    proof {
        lemma_running(kernel, cpu);
    }
    let pid: usize = current_process(kernel, cpu);
    let child: usize = ProcessControlBlock::fork(kernel, pid);
    child as isize
}

/// `kernel` came from `kernel0` by sending signal `signum` to process `pid`, which gave
/// `r`.
pub open spec fn signal_sent<M: PhysMemory>(
    kernel: &Kernel<M>,
    kernel0: &Kernel<M>,
    pid: usize,
    signum: i32,
    r: isize,
) -> bool {
    let inner = kernel0.processes@[pid].inner;
    let bit = signal_bit(signum as int);
    if kernel0.pid2process@.dom().contains(pid) && 0 <= signum <= MAX_SIG && inner.signals.bits
        & bit != bit {
        &&& r == 0
        &&& kernel.processes@ == with_inner(
            kernel0.processes@,
            pid,
            ProcessControlBlockInner {
                signals: SignalFlags { bits: inner.signals.bits | bit },
                ..inner
            },
        )
        &&& *kernel == (Kernel { processes: kernel.processes, ..*kernel0 })
    } else {
        &&& r == -1
        &&& *kernel == *kernel0
    }
}

/// Send signal `signum` to process `pid`. Returns -1 if there is no such process, no
/// such signal, or the signal is pending already.
pub fn sys_kill<M: PhysMemory>(kernel: &mut Kernel<M>, pid: usize, signum: i32) -> (r: isize)
    requires
        old(kernel).wf(),
    ensures
        final(kernel).wf(),
        signal_sent(final(kernel), old(kernel), pid, signum, r),
{
    let ghost k0 = *kernel;
    match pid2process(kernel, pid) {
        Some(process) => {
            proof {
                lemma_found(&k0, pid);
            }
            if signum < 0 || signum > MAX_SIG as i32 {
                return -1;
            }
            match SignalFlags::from_bits(1u32 << (signum as u32)) {
                Some(flag) => {
                    if kernel.processes.get(&process).unwrap().inner.signals.contains(flag) {
                        return -1;
                    }
                    let mut process_ref = kernel.processes.remove(&process).unwrap();
                    process_ref.inner.signals.insert(flag);
                    let ghost p1 = process_ref;
                    kernel.processes.insert(process, process_ref);
                    proof {
                        assert(kernel.processes@ =~= with_inner(k0.processes@, pid, p1.inner));
                        lemma_only_inner(kernel, &k0, pid);
                    }
                    0
                },
                None => -1,
            }
        },
        None => -1,
    }
}

/// A process that is found by its pid exists under that pid.
proof fn lemma_found<M: PhysMemory>(kernel: &Kernel<M>, pid: usize)
    requires
        kernel.wf(),
        kernel.pid2process@.dom().contains(pid),
    ensures
        kernel.pid2process@[pid] == pid,
        kernel.processes@.dom().contains(pid),
        kernel.processes@[pid].inner.signals_wf(),
{
    reveal(references_wf);
}

/// What leaves the memory, the threads and the children of a process alone keeps
/// the kernel sound.
proof fn lemma_only_inner<M: PhysMemory>(kernel: &Kernel<M>, kernel0: &Kernel<M>, pid: usize)
    requires
        kernel0.wf(),
        kernel0.processes@.dom().contains(pid),
        kernel.processes@ == with_inner(kernel0.processes@, pid, kernel.processes@[pid].inner),
        ({
            let inner = kernel.processes@[pid].inner;
            let inner0 = kernel0.processes@[pid].inner;
            &&& inner.memory_set == inner0.memory_set
            &&& inner.tasks == inner0.tasks
            &&& inner.task_res_allocator == inner0.task_res_allocator
            &&& inner.children == inner0.children
            &&& inner.signals_wf()
        }),
        *kernel == (Kernel { processes: kernel.processes, ..*kernel0 }),
    ensures
        kernel.wf(),
{
    assert(kernel.spaces() =~= kernel0.spaces());
    lemma_memory_kept(kernel, kernel0);
    assert(kernel.processes@.dom() =~= kernel0.processes@.dom());
    lemma_schedule_kept(kernel, kernel0);
    reveal(references_wf);
    lemma_refs_kept(kernel, kernel0);
}

/// `kernel` came from `kernel0` by letting the process that runs on processor `cpu` hold
/// back the signals of `mask`, which gave `r`.
pub open spec fn mask_changed<M: PhysMemory>(
    kernel: &Kernel<M>,
    kernel0: &Kernel<M>,
    cpu: usize,
    mask: u32,
    r: isize,
) -> bool {
    let pid = running_process(kernel0, cpu);
    let inner = kernel0.processes@[pid].inner;
    &&& r == inner.signal_mask.bits as isize
    &&& kernel.processes@ == with_inner(
        kernel0.processes@,
        pid,
        ProcessControlBlockInner { signal_mask: SignalFlags { bits: mask }, ..inner },
    )
    &&& *kernel == (Kernel { processes: kernel.processes, ..*kernel0 })
}

/// Change the set of signals that the running process holds back. Returns the
/// set before.
pub fn sys_sigprocmask<M: PhysMemory>(kernel: &mut Kernel<M>, cpu: usize, mask: u32) -> (r: isize)
    requires
        old(kernel).wf(),
        runs(old(kernel), cpu),
    ensures
        final(kernel).wf(),
        mask_changed(final(kernel), old(kernel), cpu, mask, r),
{
    let ghost k0 = *kernel;
    proof {
        lemma_running(&k0, cpu);
    }
    let pid: usize = current_process(kernel, cpu);
    let mut process = kernel.processes.remove(&pid).unwrap();
    let old_mask: SignalFlags = process.inner.signal_mask;
    let flag: SignalFlags = SignalFlags::from_bits(mask).unwrap();
    process.inner.signal_mask = flag;
    let ghost p1 = process;
    kernel.processes.insert(pid, process);
    proof {
        assert(kernel.processes@ =~= with_inner(k0.processes@, pid, p1.inner));
        lemma_only_inner(kernel, &k0, pid);
    }
    old_mask.bits() as isize
}

/// `kernel` came from `kernel0` by returning from the handler that the thread on processor
/// `cpu` runs, which gave `r`.
pub open spec fn signal_returned<M: PhysMemory>(
    kernel: &Kernel<M>,
    kernel0: &Kernel<M>,
    cpu: usize,
    r: isize,
) -> bool {
    let t = running(kernel0, cpu);
    let pid = running_process(kernel0, cpu);
    let after = handler_returned(
        Delivery {
            inner: kernel0.processes@[pid].inner,
            trap_cx: kernel0.tasks@[t].inner.trap_cx,
        },
    );
    &&& kernel.processes@ == with_inner(kernel0.processes@, pid, after.inner)
    &&& kernel.tasks@ == with_trap_cx(kernel0.tasks@, t, after.trap_cx)
    &&& r == after.trap_cx.rax as isize
    &&& *kernel == (Kernel { processes: kernel.processes, tasks: kernel.tasks, ..*kernel0 })
}

/// Return from a user's signal handler: the running thread goes on where it was
/// when the handler was entered. Returns what it had in RAX then, which the
/// result of the call would overwrite otherwise.
pub fn sys_sigreturn<M: PhysMemory>(kernel: &mut Kernel<M>, cpu: usize) -> (r: isize)
    requires
        old(kernel).wf(),
        runs(old(kernel), cpu),
        old(kernel).processes@[running_process(old(kernel), cpu)].inner.trap_ctx_backup is Some,
    ensures
        final(kernel).wf(),
        signal_returned(final(kernel), old(kernel), cpu, r),
{
    let ghost k0 = *kernel;
    proof {
        lemma_running(&k0, cpu);
    }
    let t: usize = current_task(kernel, cpu).unwrap();
    let pid: usize = current_process(kernel, cpu);
    let mut process = kernel.processes.remove(&pid).unwrap();
    process.inner.handling_sig = -1;
    let trap_ctx: TrapContext = process.inner.trap_ctx_backup.unwrap();
    let ghost p1 = process;
    kernel.processes.insert(pid, process);
    let mut task = kernel.tasks.remove(&t).unwrap();
    task.inner.trap_cx = trap_ctx;
    kernel.tasks.insert(t, task);
    proof {
        assert(kernel.processes@ =~= with_inner(k0.processes@, pid, p1.inner));
        assert(kernel.tasks@ =~= with_trap_cx(k0.tasks@, t, trap_ctx));
        lemma_inner_changed(kernel, &k0, pid, t);
    }
    trap_ctx.rax as isize
}

/// Whether the action for a signal must not be set: a pointer is null, or the
/// signal cannot be caught.
pub fn check_sigaction_error(signal: SignalFlags, action: u64, old_action: u64) -> (r: bool)
    ensures
        r == (action == 0 || old_action == 0 || signal.bits == SIGKILL || signal.bits == SIGSTOP),
{
    action == 0 || old_action == 0 || signal.bits == SIGKILL || signal.bits == SIGSTOP
}

/// An action as it lies in memory: the address of the handler and the set of
/// signals, without the bytes that fill it up to 16.
pub open spec fn action_bytes(action: SignalAction) -> Seq<u8> {
    word_bytes(action.handler) + half_bytes(action.mask.bits)
}

/// The bytes of a half word, the lowest first.
pub open spec fn half_bytes(w: u32) -> Seq<u8> {
    Seq::new(4, |k: int| word_byte(w as u64, k as u64))
}

/// The action at pointer value `ptr`.
pub open spec fn user_action(mem: Frames, root: u64, ptr: int) -> SignalAction {
    SignalAction {
        handler: user_word(mem, root, ptr),
        mask: SignalFlags { bits: (user_word(mem, root, ptr + 8) & 0xffff_ffff) as u32 },
    }
}

/// The bytes of a half word, the lowest first.
pub fn half_word(w: u32) -> (r: Vec<u8>)
    ensures
        r@ == half_bytes(w),
{
    let mut v: Vec<u8> = Vec::new();
    let mut k: u64 = 0;
    while k < 4
        invariant
            k <= 4,
            v@ == half_bytes(w).take(k as int),
        decreases 4 - k,
    {
        let b: u64 = ((w as u64) >> (8 * k)) & 0xff;
        v.push(b as u8);
        assert(v@ =~= half_bytes(w).take(k + 1));
        k = k + 1;
    }
    assert(half_bytes(w).take(4) =~= half_bytes(w));
    v
}

/// Whether the action for a signal can be set: the pointers are multiples of 16,
/// as actions are, and lead to memory of the process.
pub open spec fn actions_at<M: PhysMemory>(
    kernel: &Kernel<M>,
    pid: usize,
    action: u64,
    old_action: u64,
) -> bool {
    let ms = kernel.processes@[pid].inner.memory_set;
    &&& action % 16 == 0
    &&& old_action % 16 == 0
    &&& user_range(&ms, old_action as int, 12)
    &&& user_range(&ms, action as int, 12)
}

/// `kernel` came from `kernel0` by a request of the process on processor `cpu` to set the
/// action for a signal, which gave `r`.
pub open spec fn action_requested<M: PhysMemory>(
    kernel: &Kernel<M>,
    kernel0: &Kernel<M>,
    cpu: usize,
    signum: i32,
    action: u64,
    old_action: u64,
    r: isize,
) -> bool {
    if 0 <= signum <= MAX_SIG && action != 0 && old_action != 0 && signal_bit(signum as int)
        != SIGKILL && signal_bit(signum as int) != SIGSTOP {
        &&& r == 0
        &&& action_set(kernel, kernel0, cpu, signum as int, action, old_action)
    } else {
        &&& r == -1
        &&& *kernel == *kernel0
    }
}

/// Set the action for signal `signum`, and hand out the one before. Returns -1 if
/// the action must not be set.
///
/// The action before is written first: with the same pointer for both, the
/// action stays.
pub fn sys_sigaction<M: PhysMemory>(
    kernel: &mut Kernel<M>,
    cpu: usize,
    signum: i32,
    action: u64,
    old_action: u64,
) -> (r: isize)
    requires
        old(kernel).wf(),
        runs(old(kernel), cpu),
        0 <= signum <= MAX_SIG && action != 0 && old_action != 0 && signal_bit(signum as int)
            != SIGKILL && signal_bit(signum as int) != SIGSTOP ==> actions_at(
            old(kernel),
            running_process(old(kernel), cpu),
            action,
            old_action,
        ),
    ensures
        final(kernel).wf(),
        action_requested(final(kernel), old(kernel), cpu, signum, action, old_action, r),
{
    let ghost k0 = *kernel;
    proof {
        lemma_running(&k0, cpu);
    }
    if signum < 0 || signum > MAX_SIG as i32 {
        return -1;
    }
    let flag: SignalFlags = SignalFlags::from_bits(1u32 << (signum as u32)).unwrap();
    if check_sigaction_error(flag, action, old_action) {
        return -1;
    }
    let token: u64 = current_user_token(kernel, cpu);
    let pid: usize = current_process(kernel, cpu);
    let prev_action: SignalAction =
        kernel.processes.get(&pid).unwrap().inner.signal_actions.table[signum as usize];
    let mut bytes: Vec<u8> = Vec::new();
    push_word(&mut bytes, prev_action.handler);
    let mut mask: Vec<u8> = half_word(prev_action.mask.bits);
    bytes.append(&mut mask);
    assert(bytes@ =~= action_bytes(prev_action));
    write_process(kernel, pid, old_action, bytes.as_slice());
    let ghost k1 = *kernel;
    proof {
        lemma_action_read(&k1, &k0, pid, action);
    }
    let handler: u64 = read_user_word(&kernel.pool.mem, token, action);
    let bits: u64 = read_user_word(&kernel.pool.mem, token, action + 8) & 0xffff_ffff;
    let mut process = kernel.processes.remove(&pid).unwrap();
    process.inner.signal_actions.table[signum as usize] = SignalAction {
        handler,
        mask: SignalFlags { bits: bits as u32 },
    };
    let ghost p1 = process;
    kernel.processes.insert(pid, process);
    proof {
        assert(kernel.processes@ =~= with_inner(k0.processes@, pid, p1.inner));
        lemma_only_inner(kernel, &k1, pid);
    }
    0
}

/// An action in the memory of process `pid` can be read.
proof fn lemma_action_read<M: PhysMemory>(
    kernel: &Kernel<M>,
    kernel0: &Kernel<M>,
    pid: usize,
    action: u64,
)
    requires
        kernel.mem_wf(),
        kernel.processes@.dom().contains(pid),
        kernel.processes == kernel0.processes,
        action % 16 == 0,
        user_range(&kernel0.processes@[pid].inner.memory_set, action as int, 12),
    ensures
        ({
            let root = kernel.processes@[pid].inner.memory_set.root();
            &&& word_at(kernel.pool.frames(), root, action as int)
            &&& word_at(kernel.pool.frames(), root, action + 8)
            &&& root_of((root * 0x1000) as u64) == root
            &&& action + 8 <= u64::MAX
        }),
{
    let ms = kernel.processes@[pid].inner.memory_set;
    lemma_process_space(kernel, pid);
    assert(kernel.pool.wf()) by {
        reveal(memory_wf);
    }
    lemma_user_readable(&ms, &kernel.pool, action as int, 12, 0);
    lemma_user_readable(&ms, &kernel.pool, action as int, 12, 8);
    lemma_root_is_table(&ms.table(), &kernel.pool);
    kernel.pool.mem.frames_wf();
    token_reads_back(ms.root());
}

/// `kernel` came from `kernel0` by setting the action for signal `signum` of the
/// running process.
pub open spec fn action_set<M: PhysMemory>(
    kernel: &Kernel<M>,
    kernel0: &Kernel<M>,
    cpu: usize,
    signum: int,
    action: u64,
    old_action: u64,
) -> bool {
    let pid = running_process(kernel0, cpu);
    let inner0 = kernel0.processes@[pid].inner;
    let inner1 = kernel.processes@[pid].inner;
    let ms = inner0.memory_set;
    &&& user_written(
        &ms,
        &kernel.pool,
        &kernel0.pool,
        old_action as int,
        action_bytes(inner0.signal_actions.table@[signum]),
    )
    &&& kernel.processes@ == with_inner(kernel0.processes@, pid, inner1)
    &&& inner1.signal_actions.table@ == inner0.signal_actions.table@.update(
        signum,
        user_action(kernel.pool.frames(), ms.root(), action as int),
    )
    &&& inner1 == (ProcessControlBlockInner { signal_actions: inner1.signal_actions, ..inner0 })
    &&& *kernel == (Kernel { pool: kernel.pool, processes: kernel.processes, ..*kernel0 })
}

} // verus!
