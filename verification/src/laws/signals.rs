//! What signals do to a process.
use vstd::prelude::*;
use super::scheduling::{thread_that_gives_way_waits, waits_to_run};
use crate::config::NCPU;
use crate::task::delivery::{
    deliverable, delivered, handler_returned, kernel_handled, kernel_signal, user_handled, Delivery,
};
use crate::task::process::ProcessControlBlockInner;
use crate::mm::phys::PhysMemory;
use crate::syscall::process::{
    action_requested, action_set, mask_changed, signal_returned, signal_sent,
};
use crate::task::kernel::Kernel;
use crate::task::signal::{signal_bit, signal_error, SignalFlags, SIGCONT, SIGDEF, SIGKILL, SIGSTOP};
use crate::task::schedule::suspended;
use crate::task::signals::{
    running, running_process, runs, signal_added, signals_delivered, signals_handled,
};
use crate::trap::context::TrapContext;

verus! {

/// Whether bit `s` is set.
pub open spec fn set(bits: u32, s: int) -> bool {
    bits & (1u32 << (s as u32)) != 0
}

/// Whether signal `s` is pending, and neither the process nor the action whose handler
/// runs holds it back.
pub open spec fn gets_through(inner: ProcessControlBlockInner, s: int) -> bool {
    &&& 0 <= s < 32
    &&& set(inner.signals.bits, s)
    &&& !set(inner.signal_mask.bits, s)
    &&& inner.handling_sig == -1 || !set(
        inner.signal_actions.table@[inner.handling_sig as int].mask.bits,
        s,
    )
}

/// Whether signal `s` is one that the kernel handles itself: the default signal, the one
/// that kills, the one that continues and the one that stops a process.
pub open spec fn for_the_kernel(s: int) -> bool {
    s == 0 || s == 9 || s == 18 || s == 19
}

/// Whether no signal below `s` is for the user and gets through. Signals are delivered in
/// the order of their numbers, up to the first one for the user.
pub open spec fn comes_first(inner: ProcessControlBlockInner, s: int) -> bool {
    forall|u: int| 0 <= u < s && !for_the_kernel(u) ==> !#[trigger] gets_through(inner, u)
}

/// How bits and numbers of signals belong together.
proof fn lemma_bits(w: u32, s: int, t: int)
    requires
        0 <= s < 32,
        0 <= t < 32,
    ensures
        (w & signal_bit(s) == signal_bit(s)) == set(w, s),
        set(w ^ signal_bit(s), t) == (if s == t {
            !set(w, t)
        } else {
            set(w, t)
        }),
        set(w | signal_bit(s), t) == (s == t || set(w, t)),
        (signal_bit(s) == SIGDEF) == (s == 0),
        (signal_bit(s) == SIGKILL) == (s == 9),
        (signal_bit(s) == SIGCONT) == (s == 18),
        (signal_bit(s) == SIGSTOP) == (s == 19),
{
    let a = s as u32;
    let b = t as u32;
    assert({
        &&& (w & (1u32 << a) == (1u32 << a)) == (w & (1u32 << a) != 0)
        &&& ((w ^ (1u32 << a)) & (1u32 << b) != 0) == (if a == b {
            w & (1u32 << b) == 0
        } else {
            w & (1u32 << b) != 0
        })
        &&& ((w | (1u32 << a)) & (1u32 << b) != 0) == (a == b || w & (1u32 << b) != 0)
        &&& ((1u32 << a) == 1) == (a == 0)
        &&& ((1u32 << a) == 0x200) == (a == 9)
        &&& ((1u32 << a) == 0x4_0000) == (a == 18)
        &&& ((1u32 << a) == 0x8_0000) == (a == 19)
    }) by (bit_vector)
        requires
            a < 32,
            b < 32,
    ;
}

/// How far the delivery has come before signal `sig`: what the signals below it have done
/// to the process.
spec fn progress(d0: Delivery, d: Delivery, sig: int) -> bool {
    &&& d.trap_cx == d0.trap_cx
    &&& d.inner == (ProcessControlBlockInner {
        signals: d.inner.signals,
        killed: d.inner.killed,
        frozen: d.inner.frozen,
        ..d0.inner
    })
    &&& forall|s: int|
        0 <= s < 32 ==> #[trigger] set(d.inner.signals.bits, s) == (set(d0.inner.signals.bits, s)
            && !(s < sig && (s == 18 || s == 19) && gets_through(d0.inner, s)))
    &&& d.inner.killed == (d0.inner.killed || (sig > 0 && gets_through(d0.inner, 0)) || (sig > 9
        && gets_through(d0.inner, 9)))
    &&& d.inner.frozen == (if sig > 19 && gets_through(d0.inner, 19) {
        true
    } else if sig > 18 && gets_through(d0.inner, 18) {
        false
    } else {
        d0.inner.frozen
    })
    &&& comes_first(d0.inner, sig)
}

proof fn lemma_delivery(d0: Delivery, d: Delivery, sig: int) -> (r: (int, Delivery))
    requires
        0 <= sig <= 32,
        progress(d0, d, sig),
    ensures
        sig <= r.0 <= 32,
        progress(d0, r.1, r.0),
        r.0 < 32 ==> gets_through(d0.inner, r.0) && !for_the_kernel(r.0) && delivered(d, sig)
            == user_handled(r.1, r.0),
        r.0 == 32 ==> delivered(d, sig) == r.1,
    decreases 32 - sig,
{
    if sig >= 32 {
        (32, d)
    } else {
        lemma_bits(d.inner.signals.bits, sig, sig);
        lemma_bits(d.inner.signal_mask.bits, sig, sig);
        if d.inner.handling_sig != -1 {
            lemma_bits(
                d.inner.signal_actions.table@[d.inner.handling_sig as int].mask.bits,
                sig,
                sig,
            );
        }
        assert(set(d.inner.signals.bits, sig) == set(d0.inner.signals.bits, sig));
        assert(deliverable(d.inner, sig) == gets_through(d0.inner, sig));
        if !deliverable(d.inner, sig) {
            assert(progress(d0, d, sig + 1));
            lemma_delivery(d0, d, sig + 1)
        } else if kernel_signal(signal_bit(sig)) {
            let e = Delivery { inner: kernel_handled(d.inner, signal_bit(sig)), ..d };
            assert forall|s: int| 0 <= s < 32 implies #[trigger] set(e.inner.signals.bits, s) == (
            set(d0.inner.signals.bits, s) && !(s < sig + 1 && (s == 18 || s == 19) && gets_through(
                d0.inner,
                s,
            ))) by {
                lemma_bits(d.inner.signals.bits, sig, s);
                assert(set(d.inner.signals.bits, s) == (set(d0.inner.signals.bits, s) && !(s < sig
                    && (s == 18 || s == 19) && gets_through(d0.inner, s))));
            }
            assert(progress(d0, e, sig + 1));
            lemma_delivery(d0, e, sig + 1)
        } else {
            (sig, d)
        }
    }
}

/// A process is killed exactly if it was so before, or if the signal that kills, or the
/// default signal, gets through and no signal for the user comes before it.
pub proof fn killing_signal_kills(d: Delivery)
    ensures
        delivered(d, 0).inner.killed == (d.inner.killed || (gets_through(d.inner, 9)
            && comes_first(d.inner, 9)) || (gets_through(d.inner, 0) && comes_first(d.inner, 0))),
{
    let (n, e) = lemma_delivery(d, d, 0);
    if n < 32 {
        assert(gets_through(d.inner, n));
    }
}

/// The signal that stops a process freezes it, and the one that continues it lets it go
/// on, if they get through and no signal for the user comes before them. They are then no
/// longer pending.
pub proof fn stopping_and_continuing(d: Delivery)
    ensures
        ({
            let stops = gets_through(d.inner, 19) && comes_first(d.inner, 19);
            let continues = gets_through(d.inner, 18) && comes_first(d.inner, 18);
            let after = delivered(d, 0).inner;
            &&& stops ==> after.frozen && !set(after.signals.bits, 19)
            &&& continues ==> !set(after.signals.bits, 18)
            &&& continues && !stops ==> !after.frozen
            &&& !continues && !stops ==> after.frozen == d.inner.frozen
        }),
{
    let (n, e) = lemma_delivery(d, d, 0);
    if n < 32 {
        assert(gets_through(d.inner, n));
        lemma_bits(e.inner.signals.bits, n, 18);
        lemma_bits(e.inner.signals.bits, n, 19);
    }
    assert(set(e.inner.signals.bits, 18) == set(e.inner.signals.bits, 18));
    assert(set(e.inner.signals.bits, 19) == set(e.inner.signals.bits, 19));
}

/// The first signal for the user that gets through, and has a handler, is handled: the
/// thread goes on at the handler with the number of the signal as its argument, the
/// place where it was interrupted is kept, and the signal is no longer pending.
pub proof fn user_signal_is_handled(d: Delivery, s: int)
    requires
        gets_through(d.inner, s),
        !for_the_kernel(s),
        comes_first(d.inner, s),
        d.inner.signal_actions.table@[s].handler != 0,
    ensures
        ({
            let after = delivered(d, 0);
            &&& after.trap_cx == (TrapContext {
                rip: d.inner.signal_actions.table@[s].handler,
                rdi: s as u64,
                ..d.trap_cx
            })
            &&& after.inner.trap_ctx_backup == Some(d.trap_cx)
            &&& after.inner.handling_sig == s
            &&& !set(after.inner.signals.bits, s)
        }),
{
    let (n, e) = lemma_delivery(d, d, 0);
    assert(n == s) by {
        if n < s {
            assert(gets_through(d.inner, n));
        }
        if n > s {
            assert(gets_through(d.inner, s));
        }
    }
    lemma_bits(e.inner.signals.bits, s, s);
    assert(set(e.inner.signals.bits, s));
}

/// A signal for the user that gets through first and has no handler stays pending, and
/// the thread goes on where it was.
pub proof fn signal_without_handler_stays(d: Delivery, s: int)
    requires
        gets_through(d.inner, s),
        !for_the_kernel(s),
        comes_first(d.inner, s),
        d.inner.signal_actions.table@[s].handler == 0,
    ensures
        ({
            let after = delivered(d, 0);
            &&& after.trap_cx == d.trap_cx
            &&& after.inner.trap_ctx_backup == d.inner.trap_ctx_backup
            &&& after.inner.handling_sig == d.inner.handling_sig
            &&& set(after.inner.signals.bits, s)
        }),
{
    let (n, e) = lemma_delivery(d, d, 0);
    assert(n == s) by {
        if n < s {
            assert(gets_through(d.inner, n));
        }
        if n > s {
            assert(gets_through(d.inner, s));
        }
    }
    assert(set(e.inner.signals.bits, s));
}

/// A pending signal that does not get through stays pending. Where none for the user
/// gets through, the thread goes on where it was.
pub proof fn signals_wait_only_if_held_back(d: Delivery, s: int)
    requires
        0 <= s < 32,
    ensures
        !gets_through(d.inner, s) ==> set(delivered(d, 0).inner.signals.bits, s) == set(
            d.inner.signals.bits,
            s,
        ),
        comes_first(d.inner, 32) ==> {
            &&& delivered(d, 0).trap_cx == d.trap_cx
            &&& delivered(d, 0).inner.handling_sig == d.inner.handling_sig
            &&& delivered(d, 0).inner.trap_ctx_backup == d.inner.trap_ctx_backup
        },
        delivered(d, 0).inner.signal_mask == d.inner.signal_mask,
        delivered(d, 0).inner.signal_actions == d.inner.signal_actions,
        delivered(d, 0).inner.fd_table == d.inner.fd_table,
        delivered(d, 0).inner.exit_code == d.inner.exit_code,
        delivered(d, 0).inner.is_zombie == d.inner.is_zombie,
        delivered(d, 0).inner.parent == d.inner.parent,
{
    let (n, e) = lemma_delivery(d, d, 0);
    if n < 32 {
        assert(gets_through(d.inner, n));
        lemma_bits(e.inner.signals.bits, n, s);
    }
    assert(set(e.inner.signals.bits, s) == (set(d.inner.signals.bits, s) && !(s < n && (s == 18
        || s == 19) && gets_through(d.inner, s))));
}

/// When the handler of a signal returns, the thread goes on with the very registers that
/// it had when the signal came, and signals that the action held back get through again.
pub proof fn handler_returns_where_it_came_from(d: Delivery, s: int)
    requires
        gets_through(d.inner, s),
        !for_the_kernel(s),
        comes_first(d.inner, s),
        d.inner.signal_actions.table@[s].handler != 0,
    ensures
        handler_returned(delivered(d, 0)).trap_cx == d.trap_cx,
        handler_returned(delivered(d, 0)).inner.handling_sig == -1,
        handler_returned(delivered(d, 0)).inner.signals == delivered(d, 0).inner.signals,
        handler_returned(delivered(d, 0)).inner.killed == delivered(d, 0).inner.killed,
        handler_returned(delivered(d, 0)).inner.frozen == delivered(d, 0).inner.frozen,
{
    user_signal_is_handled(d, s);
}

/// The signals whose being pending ends a process, by their numbers. The exit code is the
/// number of the first of them, negated.
pub open spec fn ends_process(s: int) -> bool {
    s == 2 || s == 4 || s == 6 || s == 8 || s == 9 || s == 11
}

/// A process with such a signal pending is ended, with the number of the first one as the
/// exit code; a process without is not.
pub proof fn pending_signal_ends_the_process(bits: u32, s: int)
    requires
        0 <= s < 32,
    ensures
        ends_process(s) && set(bits, s) && (forall|u: int|
            0 <= u < s && ends_process(u) ==> !#[trigger] set(bits, u)) ==> signal_error(bits) is Some
            && signal_error(bits)->Some_0.0 == -s,
        (forall|u: int| 0 <= u < 32 && ends_process(u) ==> !#[trigger] set(bits, u))
            ==> signal_error(bits) is None,
{
    assert({
        &&& (bits & 0x4 == 0x4) == (bits & (1u32 << 2) != 0)
        &&& (bits & 0x10 == 0x10) == (bits & (1u32 << 4) != 0)
        &&& (bits & 0x40 == 0x40) == (bits & (1u32 << 6) != 0)
        &&& (bits & 0x100 == 0x100) == (bits & (1u32 << 8) != 0)
        &&& (bits & 0x200 == 0x200) == (bits & (1u32 << 9) != 0)
        &&& (bits & 0x800 == 0x800) == (bits & (1u32 << 11) != 0)
    }) by (bit_vector);
    assert(set(bits, 2) == (bits & 0x4 == 0x4));
    assert(set(bits, 4) == (bits & 0x10 == 0x10));
    assert(set(bits, 6) == (bits & 0x40 == 0x40));
    assert(set(bits, 8) == (bits & 0x100 == 0x100));
    assert(set(bits, 9) == (bits & 0x200 == 0x200));
    assert(set(bits, 11) == (bits & 0x800 == 0x800));
}

/// A signal can be sent to a process that can be found, if it is one of the 32 signals and
/// is not pending yet. It is then pending, and nothing else changes.
pub proof fn sent_signal_is_pending<M: PhysMemory>(
    kernel: &Kernel<M>,
    kernel0: &Kernel<M>,
    pid: usize,
    signum: i32,
    r: isize,
    s: int,
)
    requires
        signal_sent(kernel, kernel0, pid, signum, r),
        0 <= s < 32,
    ensures
        ({
            let old_bits = kernel0.processes@[pid].inner.signals.bits;
            let bits = kernel.processes@[pid].inner.signals.bits;
            if kernel0.pid2process@.dom().contains(pid) && 0 <= signum < 32 && !set(
                old_bits,
                signum as int,
            ) {
                &&& r == 0
                &&& set(bits, s) == (s == signum || set(old_bits, s))
            } else {
                &&& r == -1
                &&& *kernel == *kernel0
            }
        }),
        kernel.processes@[pid].inner == (ProcessControlBlockInner {
            signals: kernel.processes@[pid].inner.signals,
            ..kernel0.processes@[pid].inner
        }),
        forall|q: usize| q != pid ==> #[trigger] kernel.processes@[q] == kernel0.processes@[q],
        kernel.tasks == kernel0.tasks,
        kernel.processors == kernel0.processors,
        kernel.task_manager == kernel0.task_manager,
{
    if 0 <= signum < 32 {
        lemma_bits(kernel0.processes@[pid].inner.signals.bits, signum as int, s);
        lemma_bits(kernel0.processes@[pid].inner.signals.bits, signum as int, signum as int);
    }
}

/// After a process has said which signals it holds back, exactly those are held back. It
/// is told which ones it held back before.
pub proof fn mask_holds_signals_back<M: PhysMemory>(
    kernel: &Kernel<M>,
    kernel0: &Kernel<M>,
    cpu: usize,
    mask: u32,
    r: isize,
    s: int,
)
    requires
        mask_changed(kernel, kernel0, cpu, mask, r),
        0 <= s < 32,
    ensures
        ({
            let pid = running_process(kernel0, cpu);
            let inner0 = kernel0.processes@[pid].inner;
            let inner = kernel.processes@[pid].inner;
            &&& set(mask, s) ==> !gets_through(inner, s)
            &&& set(inner.signals.bits, s) && inner.handling_sig == -1 ==> gets_through(inner, s)
                == !set(mask, s)
            &&& inner.signals == inner0.signals
            &&& inner.handling_sig == inner0.handling_sig
            &&& inner.signal_actions == inner0.signal_actions
            &&& inner.killed == inner0.killed && inner.frozen == inner0.frozen
            &&& r == inner0.signal_mask.bits as isize
        }),
        forall|q: usize|
            q != running_process(kernel0, cpu) ==> #[trigger] kernel.processes@[q]
                == kernel0.processes@[q],
        kernel.tasks == kernel0.tasks,
{
}

/// A thread that returns from a handler goes on with the registers that were kept when the
/// handler was started, and is told what was in the register of results.
pub proof fn returning_thread_goes_on<M: PhysMemory>(
    kernel: &Kernel<M>,
    kernel0: &Kernel<M>,
    cpu: usize,
    r: isize,
)
    requires
        signal_returned(kernel, kernel0, cpu, r),
    ensures
        ({
            let t = running(kernel0, cpu);
            let pid = running_process(kernel0, cpu);
            let kept = kernel0.processes@[pid].inner.trap_ctx_backup->Some_0;
            &&& kernel.tasks@[t].inner.trap_cx == kept
            &&& r == kept.rax as isize
            &&& kernel.processes@[pid].inner.handling_sig == -1
            &&& kernel.processes@[pid].inner.signals == kernel0.processes@[pid].inner.signals
            &&& kernel.processes@[pid].inner.signal_mask
                == kernel0.processes@[pid].inner.signal_mask
        }),
        forall|u: usize|
            u != running(kernel0, cpu) ==> #[trigger] kernel.tasks@[u] == kernel0.tasks@[u],
{
}

/// Signals that the running process is given are pending, beside those that were. Nothing
/// else changes.
pub proof fn given_signals_are_pending<M: PhysMemory>(
    kernel: &Kernel<M>,
    kernel0: &Kernel<M>,
    cpu: usize,
    signal: SignalFlags,
    s: int,
)
    requires
        signal_added(kernel, kernel0, cpu, signal),
        0 <= s < 32,
    ensures
        ({
            let pid = running_process(kernel0, cpu);
            let inner0 = kernel0.processes@[pid].inner;
            let inner = kernel.processes@[pid].inner;
            &&& set(inner.signals.bits, s) == (set(inner0.signals.bits, s) || set(signal.bits, s))
            &&& inner == (ProcessControlBlockInner { signals: inner.signals, ..inner0 })
        }),
        forall|q: usize|
            q != running_process(kernel0, cpu) ==> #[trigger] kernel.processes@[q]
                == kernel0.processes@[q],
        kernel.tasks == kernel0.tasks,
        kernel.processors == kernel0.processors,
{
    let a = kernel0.processes@[running_process(kernel0, cpu)].inner.signals.bits;
    let b = signal.bits;
    let k = s as u32;
    assert(((a | b) & (1u32 << k) != 0) == (a & (1u32 << k) != 0 || b & (1u32 << k) != 0))
        by (bit_vector);
}

/// At the end of a trap a process that is stopped, and was not killed, leaves its
/// processor and waits to run again. Any other one goes on, with the registers that the
/// delivery of its signals left.
pub proof fn stopped_process_leaves_its_processor<M: PhysMemory>(
    kernel: &Kernel<M>,
    kernel0: &Kernel<M>,
    cpu: usize,
    r: Option<usize>,
)
    requires
        runs(kernel0, cpu),
        kernel0.processors@.len() == NCPU,
        signals_handled(kernel, kernel0, cpu, r),
    ensures
        ({
            let t = running(kernel0, cpu);
            let pid = running_process(kernel0, cpu);
            let after = delivered(
                Delivery {
                    inner: kernel0.processes@[pid].inner,
                    trap_cx: kernel0.tasks@[t].inner.trap_cx,
                },
                0,
            );
            &&& kernel.processes@[pid].inner == after.inner
            &&& kernel.tasks@[t].inner.trap_cx == after.trap_cx
            &&& after.inner.frozen && !after.inner.killed ==> {
                &&& r == Some(t)
                &&& kernel.processors@[cpu as int].current is None
                &&& waits_to_run(kernel, t)
            }
            &&& !after.inner.frozen || after.inner.killed ==> {
                &&& r is None
                &&& kernel.processors@[cpu as int].current == Some(t)
            }
        }),
        forall|q: usize|
            q != running_process(kernel0, cpu) ==> #[trigger] kernel.processes@[q]
                == kernel0.processes@[q],
{
    let k1 = choose|k1: Kernel<M>| #[trigger]
        signals_delivered(&k1, kernel0, cpu) && {
            let inner = k1.processes@[running_process(kernel0, cpu)].inner;
            let t = running(kernel0, cpu);
            if inner.frozen && !inner.killed {
                &&& r == Some(t)
                &&& suspended(kernel, &k1, cpu, t)
            } else {
                &&& r is None
                &&& *kernel == k1
            }
        };
    let t = running(kernel0, cpu);
    if r is Some {
        thread_that_gives_way_waits(kernel, &k1, cpu, t);
    }
}

/// The action for a signal can be set for every signal but the one that kills and the one
/// that stops a process, if both addresses are given. A request that is refused changes
/// nothing.
pub proof fn actions_that_can_be_set<M: PhysMemory>(
    kernel: &Kernel<M>,
    kernel0: &Kernel<M>,
    cpu: usize,
    signum: i32,
    action: u64,
    old_action: u64,
    r: isize,
)
    requires
        action_requested(kernel, kernel0, cpu, signum, action, old_action, r),
    ensures
        0 <= signum < 32 && signum != 9 && signum != 19 && action != 0 && old_action != 0 ==> r == 0
            && action_set(kernel, kernel0, cpu, signum as int, action, old_action),
        signum < 0 || signum >= 32 || signum == 9 || signum == 19 || action == 0 || old_action == 0
            ==> r == -1 && *kernel == *kernel0,
{
    if 0 <= signum < 32 {
        lemma_bits(0, signum as int, signum as int);
    }
}

} // verus!
