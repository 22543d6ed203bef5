//! The VirtIO block device.
use vstd::prelude::*;

verus! {

/// The size of a block in bytes.
pub const BLOCK_SIZE: usize = 512;

/// How often a processor that waits for the device has to yield to the machine:
/// an emulator serves the device only between blocks of code, and a tight loop
/// never leaves its block.
pub const POLL_YIELD_ITERS: u64 = 256;

/// Count one more look at a device that is not done yet. Also tells whether to
/// yield to the machine now. The count starts over after the highest number.
pub fn poll_again(spins: u64) -> (r: (u64, bool))
    ensures
        r.0 == if spins == u64::MAX {
            0
        } else {
            spins + 1
        },
        r.1 == (r.0 % POLL_YIELD_ITERS == 0),
{
    let next: u64 = if spins == u64::MAX {
        0
    } else {
        spins + 1
    };
    (next, next % POLL_YIELD_ITERS == 0)
}

/// Copy the block to write to a buffer of its own.
pub fn write_buffer(buf: &[u8]) -> (r: [u8; 512])
    requires
        buf@.len() == BLOCK_SIZE,
    ensures
        r@ == buf@,
{
    let mut wbuf: [u8; 512] = [0u8;512];
    let mut i: usize = 0;
    while i < BLOCK_SIZE
        invariant
            i <= BLOCK_SIZE,
            buf@.len() == BLOCK_SIZE,
            forall|k: int| 0 <= k < i ==> #[trigger] wbuf@[k] == buf@[k],
        decreases BLOCK_SIZE - i,
    {
        wbuf[i] = buf[i];
        i = i + 1;
    }
    assert(wbuf@ =~= buf@);
    wbuf
}

} // verus!
