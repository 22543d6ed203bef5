//! Helpers for the emulated machine.
use vstd::prelude::*;

verus! {

/// The port that ends the emulation.
pub const DEBUG_EXIT_PORT: u16 = 0x501;

/// The word to write to [`DEBUG_EXIT_PORT`] to shut the machine down. The emulator
/// exits with twice the word and one: 0x21 on success, 0x23 on failure.
pub fn shutdown(failure: bool) -> (r: u16)
    ensures
        r == if failure {
            0x11u16
        } else {
            0x10u16
        },
{
    if failure {
        0x11
    } else {
        0x10
    }
}

} // verus!
