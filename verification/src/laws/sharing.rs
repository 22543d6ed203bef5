//! How threads share locks, conditions and the console.
use vstd::prelude::*;
use crate::drivers::chardev::{byte_taken, bytes_received, NS16550a};
use crate::sync::condvar::{queued, signaled};
use crate::sync::mutex::{lock_released, lock_tried, LockOutcome};

verus! {

/// A thread gets a lock exactly if nobody holds it. Who has to sleep for it is served
/// after all who sleep already; the others keep their places.
pub proof fn lock_goes_to_one_thread(
    held0: bool,
    waiting0: Seq<usize>,
    current: usize,
    held: bool,
    waiting: Seq<usize>,
    r: LockOutcome,
)
    requires
        lock_tried(held0, waiting0, current, held, waiting, r),
    ensures
        held,
        held0 ==> r != LockOutcome::Acquired,
        !held0 ==> r == LockOutcome::Acquired,
        r == LockOutcome::Blocked ==> waiting.len() == waiting0.len() + 1 && waiting.last()
            == current,
        r != LockOutcome::Blocked ==> waiting.len() == waiting0.len(),
        forall|i: int| 0 <= i < waiting0.len() ==> #[trigger] waiting[i] == waiting0[i],
{
}

/// A lock that is released goes to the thread that has slept for it longest, which holds
/// it at once; all others move up by one place. If none sleeps, the lock is free.
pub proof fn released_lock_is_handed_over(
    waiting0: Seq<usize>,
    held: bool,
    waiting: Seq<usize>,
    r: Option<usize>,
)
    requires
        lock_released(waiting0, held, waiting, r),
    ensures
        waiting0.len() == 0 ==> r is None && !held && waiting.len() == 0,
        waiting0.len() > 0 ==> {
            &&& r == Some(waiting0[0])
            &&& held
            &&& waiting.len() == waiting0.len() - 1
            &&& forall|i: int| 0 <= i < waiting.len() ==> #[trigger] waiting[i] == waiting0[i + 1]
        },
{
}

/// A thread that sleeps for a lock with nobody before it gets the lock when it is
/// released.
pub proof fn sleeper_gets_the_lock(
    current: usize,
    held1: bool,
    waiting1: Seq<usize>,
    r1: LockOutcome,
    held2: bool,
    waiting2: Seq<usize>,
    r2: Option<usize>,
)
    requires
        lock_tried(true, Seq::empty(), current, held1, waiting1, r1),
        r1 == LockOutcome::Blocked,
        lock_released(waiting1, held2, waiting2, r2),
    ensures
        r2 == Some(current),
        held2,
        waiting2.len() == 0,
{
}

/// A signal wakes the thread that has waited longest, and only that one; the others move
/// up. A thread that begins to wait is served after all others.
pub proof fn conditions_wake_in_turn(
    before: Seq<usize>,
    between: Seq<usize>,
    after: Seq<usize>,
    current: usize,
    r: Option<usize>,
)
    requires
        queued(before, between, current),
        signaled(between, after, r),
    ensures
        before.len() == 0 ==> r == Some(current) && after.len() == 0,
        before.len() > 0 ==> {
            &&& r == Some(before[0])
            &&& after.len() == before.len()
            &&& after.last() == current
            &&& forall|i: int| 0 <= i < before.len() - 1 ==> #[trigger] after[i] == before[i + 1]
        },
{
}

/// Nobody is woken by a signal for which nobody waits, and it leaves no trace.
pub proof fn signals_without_waiters_are_lost(before: Seq<usize>, after: Seq<usize>, r: Option<usize>)
    requires
        signaled(before, after, r),
        before.len() == 0,
    ensures
        r is None,
        after.len() == 0,
{
}

/// Bytes are read from the console in the order in which they came, each once. A thread
/// that finds none waits behind all others; when bytes come, the one that has waited
/// longest is woken.
pub proof fn console_hands_out_bytes_in_order(
    s0: &NS16550a,
    s1: &NS16550a,
    s2: &NS16550a,
    received: Seq<u8>,
    woken: Option<usize>,
    current: usize,
    r: Option<u8>,
)
    requires
        bytes_received(s0, s1, received, woken),
        byte_taken(s1, s2, current, r),
    ensures
        ({
            let all = s0.read_buffer@ + received;
            let waiting = s0.condvar.inner.wait_queue@;
            &&& all.len() > 0 ==> {
                &&& r == Some(all[0])
                &&& s2.read_buffer@.len() == all.len() - 1
                &&& forall|i: int|
                    0 <= i < all.len() - 1 ==> #[trigger] s2.read_buffer@[i] == all[i + 1]
            }
            &&& all.len() == 0 ==> {
                &&& r is None
                &&& woken is None
                &&& s2.condvar.inner.wait_queue@.len() == waiting.len() + 1
                &&& s2.condvar.inner.wait_queue@.last() == current
                &&& forall|i: int|
                    0 <= i < waiting.len() ==> #[trigger] s2.condvar.inner.wait_queue@[i]
                        == waiting[i]
            }
            &&& received.len() > 0 && waiting.len() > 0 ==> woken == Some(waiting[0])
            &&& received.len() == 0 || waiting.len() == 0 ==> woken is None
        }),
{
}

} // verus!
