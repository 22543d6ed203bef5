//! Signals.
use vstd::prelude::*;

verus! {

/// The highest signal number.
pub const MAX_SIG: usize = 31;

/// Signal 0, which the kernel handles itself.
pub const SIGDEF: u32 = 0x1;

/// Interrupt from the keyboard.
pub const SIGINT: u32 = 0x4;

/// Illegal instruction.
pub const SIGILL: u32 = 0x10;

/// Abort.
pub const SIGABRT: u32 = 0x40;

/// Erroneous arithmetic operation.
pub const SIGFPE: u32 = 0x100;

/// Kill.
pub const SIGKILL: u32 = 0x200;

/// Invalid memory reference.
pub const SIGSEGV: u32 = 0x800;

/// Continue if stopped.
pub const SIGCONT: u32 = 0x4_0000;

/// Stop.
pub const SIGSTOP: u32 = 0x8_0000;

/// A set of signals: bit `n` stands for signal `n`. There are 32 signals, so
/// every set of bits is one of signals.
#[derive(Copy, Clone, Debug, PartialEq, Eq, Structural)]
pub struct SignalFlags {
    pub bits: u32,
}

/// The bit of signal `sig`.
pub open spec fn signal_bit(sig: int) -> u32 {
    1u32 << (sig as u32)
}

impl SignalFlags {
    /// Whether signal `sig` is in the set.
    pub open spec fn has(&self, sig: int) -> bool {
        self.bits & signal_bit(sig) != 0
    }

    /// No signal.
    pub fn empty() -> (r: Self)
        ensures
            r.bits == 0,
    {
        SignalFlags { bits: 0 }
    }

    /// The set with these bits. Every bit is legal.
    pub fn from_bits(bits: u32) -> (r: Option<Self>)
        ensures
            r == Some(SignalFlags { bits }),
    {
        Some(SignalFlags { bits })
    }

    /// The bits of the set.
    pub fn bits(&self) -> (r: u32)
        ensures
            r == self.bits,
    {
        self.bits
    }

    /// Whether all signals of `other` are in the set.
    pub fn contains(&self, other: SignalFlags) -> (r: bool)
        ensures
            r == (self.bits & other.bits == other.bits),
    {
        self.bits & other.bits == other.bits
    }

    /// Put the signals of `other` into the set.
    pub fn insert(&mut self, other: SignalFlags)
        ensures
            final(self).bits == old(self).bits | other.bits,
    {
        self.bits = self.bits | other.bits;
    }

    /// Put the signals of `other` in if they are out, and out if they are in.
    pub fn toggle(&mut self, other: SignalFlags)
        ensures
            final(self).bits == old(self).bits ^ other.bits,
    {
        self.bits = self.bits ^ other.bits;
    }

    /// The exit code and the message for the first of the signals in the set
    /// that kills a process.
    pub fn check_error(&self) -> (r: Option<(i32, &'static str)>)
        ensures
            r matches Some(e) ==> Some((e.0, e.1@)) == signal_error(self.bits),
            r is None ==> signal_error(self.bits) is None,
    {
        if self.contains(SignalFlags { bits: SIGINT }) {
            Some((-2, "Killed, SIGINT=2"))
        } else if self.contains(SignalFlags { bits: SIGILL }) {
            Some((-4, "Illegal Instruction, SIGILL=4"))
        } else if self.contains(SignalFlags { bits: SIGABRT }) {
            Some((-6, "Aborted, SIGABRT=6"))
        } else if self.contains(SignalFlags { bits: SIGFPE }) {
            Some((-8, "Erroneous Arithmetic Operation, SIGFPE=8"))
        } else if self.contains(SignalFlags { bits: SIGKILL }) {
            Some((-9, "Killed, SIGKILL=9"))
        } else if self.contains(SignalFlags { bits: SIGSEGV }) {
            Some((-11, "Segmentation Fault, SIGSEGV=11"))
        } else {
            None
        }
    }
}

/// The exit code and the message for the signals in `bits`.
pub open spec fn signal_error(bits: u32) -> Option<(i32, Seq<char>)> {
    if bits & SIGINT == SIGINT {
        Some((-2i32, "Killed, SIGINT=2"@))
    } else if bits & SIGILL == SIGILL {
        Some((-4i32, "Illegal Instruction, SIGILL=4"@))
    } else if bits & SIGABRT == SIGABRT {
        Some((-6i32, "Aborted, SIGABRT=6"@))
    } else if bits & SIGFPE == SIGFPE {
        Some((-8i32, "Erroneous Arithmetic Operation, SIGFPE=8"@))
    } else if bits & SIGKILL == SIGKILL {
        Some((-9i32, "Killed, SIGKILL=9"@))
    } else if bits & SIGSEGV == SIGSEGV {
        Some((-11i32, "Segmentation Fault, SIGSEGV=11"@))
    } else {
        None
    }
}

/// A signal that is put into a set is in it, and the others stay as they were;
/// taking it out again undoes that.
pub proof fn signal_in_and_out(bits: u32, sig: int, other: int)
    requires
        0 <= sig < 32,
        0 <= other < 32,
        sig != other,
        !(SignalFlags { bits }).has(sig),
    ensures
        (SignalFlags { bits: bits | signal_bit(sig) }).has(sig),
        (SignalFlags { bits: bits | signal_bit(sig) }).has(other) == (SignalFlags { bits }).has(
            other,
        ),
        (bits | signal_bit(sig)) ^ signal_bit(sig) == bits,
{
    let s = sig as u32;
    let o = other as u32;
    assert({
        &&& (bits | (1u32 << s)) & (1u32 << s) != 0
        &&& ((bits | (1u32 << s)) & (1u32 << o) != 0) == (bits & (1u32 << o) != 0)
        &&& (bits | (1u32 << s)) ^ (1u32 << s) == bits
    }) by (bit_vector)
        requires
            s < 32,
            o < 32,
            s != o,
            bits & (1u32 << s) == 0,
    ;
}

} // verus!
