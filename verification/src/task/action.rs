//! What a process does about signals.
use vstd::prelude::*;
use super::signal::SignalFlags;

verus! {

/// The action for a signal.
#[derive(Copy, Clone, Debug, PartialEq, Eq, Structural)]
pub struct SignalAction {
    /// the address of the user's handler, or 0 for the default action
    pub handler: u64,
    /// the signals held back while the handler runs
    pub mask: SignalFlags,
}

/// The default action.
pub open spec fn default_action() -> SignalAction {
    SignalAction { handler: 0, mask: SignalFlags { bits: 40 } }
}

impl Default for SignalAction {
    fn default() -> (r: Self)
        ensures
            r == default_action(),
    {
        SignalAction { handler: 0, mask: SignalFlags { bits: 40 } }
    }
}

/// The actions of a process for all signals.
#[derive(Copy, Clone, Debug)]
pub struct SignalActions {
    /// the action for each signal
    pub table: [SignalAction; 32],
}

impl Default for SignalActions {
    fn default() -> (r: Self)
        ensures
            forall|i: int| 0 <= i < 32 ==> #[trigger] r.table[i] == default_action(),
    {
        let action: SignalAction = SignalAction::default();
        SignalActions { table: [action;32] }
    }
}

} // verus!
