//! Delivering signals to a process.
use vstd::prelude::*;
use super::process::ProcessControlBlockInner;
use super::signal::{signal_bit, SignalFlags, SIGCONT, SIGDEF, SIGKILL, SIGSTOP};
use crate::trap::context::TrapContext;

verus! {

/// What delivering signals works on: the process and the trap context of its
/// running thread.
#[verifier::ext_equal]
pub struct Delivery {
    pub inner: ProcessControlBlockInner,
    pub trap_cx: TrapContext,
}

/// Whether signal `sig` is pending and neither held back by the process nor by
/// the handler that runs.
pub open spec fn deliverable(inner: ProcessControlBlockInner, sig: int) -> bool {
    let bit = signal_bit(sig);
    &&& inner.signals.bits & bit == bit
    &&& inner.signal_mask.bits & bit != bit
    &&& inner.handling_sig == -1 || inner.signal_actions.table@[inner.handling_sig as int].mask.bits
        & bit != bit
}

/// Whether the kernel handles the signal itself.
pub open spec fn kernel_signal(bit: u32) -> bool {
    bit == SIGKILL || bit == SIGSTOP || bit == SIGCONT || bit == SIGDEF
}

/// The process after the kernel handled a signal: it is frozen by SIGSTOP,
/// unfrozen by SIGCONT, and killed by the others.
pub open spec fn kernel_handled(
    inner: ProcessControlBlockInner,
    bit: u32,
) -> ProcessControlBlockInner {
    if bit == SIGSTOP {
        ProcessControlBlockInner {
            frozen: true,
            signals: SignalFlags { bits: inner.signals.bits ^ SIGSTOP },
            ..inner
        }
    } else if bit == SIGCONT {
        if inner.signals.bits & SIGCONT == SIGCONT {
            ProcessControlBlockInner {
                frozen: false,
                signals: SignalFlags { bits: inner.signals.bits ^ SIGCONT },
                ..inner
            }
        } else {
            inner
        }
    } else {
        ProcessControlBlockInner { killed: true, ..inner }
    }
}

/// The process and the trap context after signal `sig` was handed to the user's
/// handler, if there is one.
pub open spec fn user_handled(d: Delivery, sig: int) -> Delivery {
    let handler = d.inner.signal_actions.table@[sig].handler;
    if handler != 0 {
        Delivery {
            inner: ProcessControlBlockInner {
                handling_sig: sig as isize,
                signals: SignalFlags { bits: d.inner.signals.bits ^ signal_bit(sig) },
                trap_ctx_backup: Some(d.trap_cx),
                ..d.inner
            },
            trap_cx: TrapContext { rip: handler, rdi: sig as u64, ..d.trap_cx },
        }
    } else {
        d
    }
}

/// The process and the trap context after the signals from `sig` on were
/// delivered: in the order of their numbers, up to the first one for the user.
pub open spec fn delivered(d: Delivery, sig: int) -> Delivery
    decreases 32 - sig,
{
    if sig >= 32 {
        d
    } else if !deliverable(d.inner, sig) {
        delivered(d, sig + 1)
    } else if kernel_signal(signal_bit(sig)) {
        delivered(
            Delivery { inner: kernel_handled(d.inner, signal_bit(sig)), ..d },
            sig + 1,
        )
    } else {
        user_handled(d, sig)
    }
}

/// Signals that are held back, or not pending, change nothing.
pub proof fn held_back_signals_wait(d: Delivery, sig: int)
    requires
        0 <= sig <= 32,
        forall|s: int| sig <= s < 32 ==> !#[trigger] deliverable(d.inner, s),
    ensures
        delivered(d, sig) == d,
    decreases 32 - sig,
{
    if sig < 32 {
        assert(!deliverable(d.inner, sig));
        held_back_signals_wait(d, sig + 1);
    }
}

/// The process and the trap context after a user's handler has returned: the
/// thread goes on where it was interrupted.
pub open spec fn handler_returned(d: Delivery) -> Delivery {
    Delivery {
        inner: ProcessControlBlockInner { handling_sig: -1isize, ..d.inner },
        trap_cx: d.inner.trap_ctx_backup->Some_0,
    }
}

/// A thread that was sent to a handler goes on where it was interrupted once the
/// handler has returned, and no handler runs.
pub proof fn returning_undoes_the_handler(d: Delivery, sig: int)
    requires
        0 <= sig < 32,
        d.inner.signal_actions.table@[sig].handler != 0,
    ensures
        handler_returned(user_handled(d, sig)).trap_cx == d.trap_cx,
        handler_returned(user_handled(d, sig)).inner.handling_sig == -1,
        handler_returned(user_handled(d, sig)).inner.signals.bits == d.inner.signals.bits
            ^ signal_bit(sig),
{
}

impl ProcessControlBlockInner {
    /// Handle a signal that the kernel handles itself.
    fn call_kernel_signal_handler(&mut self, signal: SignalFlags)
        ensures
            *final(self) == kernel_handled(*old(self), signal.bits),
    {
        if signal.bits == SIGSTOP {
            self.frozen = true;
            self.signals.toggle(SignalFlags { bits: SIGSTOP });
        } else if signal.bits == SIGCONT {
            if self.signals.contains(SignalFlags { bits: SIGCONT }) {
                self.signals.toggle(SignalFlags { bits: SIGCONT });
                self.frozen = false;
            }
        } else {
            self.killed = true;
        }
    }

    /// Hand a signal to the user's handler, if there is one: the running thread
    /// goes on in the handler, with the number of the signal as its first
    /// argument.
    fn call_user_signal_handler(
        &mut self,
        sig: usize,
        signal: SignalFlags,
        trap_cx: TrapContext,
    ) -> (r: TrapContext)
        requires
            sig < 32,
            signal.bits == signal_bit(sig as int),
        ensures
            (Delivery { inner: *final(self), trap_cx: r }) == user_handled(
                Delivery { inner: *old(self), trap_cx },
                sig as int,
            ),
    {
        let handler: u64 = self.signal_actions.table[sig].handler;
        let mut after: TrapContext = trap_cx;
        if handler != 0 {
            self.handling_sig = sig as isize;
            self.signals.toggle(signal);
            self.trap_ctx_backup = Some(trap_cx);
            after.rip = handler;
            after.rdi = sig as u64;
        }
        after
    }

    /// Deliver the pending signals. Returns the trap context with which the
    /// running thread goes on.
    pub fn check_pending_signals(&mut self, trap_cx: TrapContext) -> (r: TrapContext)
        requires
            old(self).signals_wf(),
        ensures
            (Delivery { inner: *final(self), trap_cx: r }) == delivered(
                Delivery { inner: *old(self), trap_cx },
                0,
            ),
            final(self).signals_wf(),
    {
        let ghost all = delivered(Delivery { inner: *self, trap_cx }, 0);
        let mut sig: usize = 0;
        while sig < 32
            invariant
                sig <= 32,
                self.signals_wf(),
                all == delivered(Delivery { inner: *old(self), trap_cx }, 0),
                delivered(Delivery { inner: *self, trap_cx }, sig as int) == all,
            decreases 32 - sig,
        {
            let signal: SignalFlags = SignalFlags::from_bits(1u32 << (sig as u32)).unwrap();
            if self.signals.contains(signal) && !self.signal_mask.contains(signal) {
                let mut masked: bool = true;
                if self.handling_sig == -1 {
                    masked = false;
                } else {
                    let handling_sig: usize = self.handling_sig as usize;
                    if !self.signal_actions.table[handling_sig].mask.contains(signal) {
                        masked = false;
                    }
                }
                if !masked {
                    if signal.bits == SIGKILL || signal.bits == SIGSTOP || signal.bits == SIGCONT
                        || signal.bits == SIGDEF {
                        self.call_kernel_signal_handler(signal);
                    } else {
                        return self.call_user_signal_handler(sig, signal, trap_cx);
                    }
                }
            }
            sig = sig + 1;
        }
        trap_cx
    }
}

} // verus!
