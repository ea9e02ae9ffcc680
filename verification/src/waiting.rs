//! Waiting for a lock while a writer may hold it. A writer may take long to replace a large index,
//! and a request must not wait for that.

use vstd::prelude::*;

verus! {

/// The longest wait between two looks at the lock: a millisecond.
pub const LOCK_WAIT_NANOS: u64 = 1_000_000;

/// What a request does after a look at the lock.
#[derive(Clone, Copy, Debug, PartialEq, Eq, Structural)]
pub enum LockStep {
    /// The lock can be had.
    Take,
    /// The time is up.
    GiveUp,
    /// Wait so many nanoseconds, and look again.
    Wait(u64),
}

/// How long to wait where `left_nanos` are left: no longer than that.
pub open spec fn lock_wait(left_nanos: u64) -> u64 {
    if left_nanos < LOCK_WAIT_NANOS {
        left_nanos
    } else {
        LOCK_WAIT_NANOS
    }
}

/// What to do after a look at the lock, with `left_nanos` left to wait. The lock is taken where no
/// writer holds it, be the time up or not.
pub fn next_lock_step(writer_holds: bool, left_nanos: u64) -> (step: LockStep)
    ensures
        step == (if !writer_holds {
            LockStep::Take
        } else if left_nanos == 0 {
            LockStep::GiveUp
        } else {
            LockStep::Wait(lock_wait(left_nanos))
        }),
{
    if !writer_holds {
        LockStep::Take
    } else if left_nanos == 0 {
        LockStep::GiveUp
    } else if left_nanos < LOCK_WAIT_NANOS {
        LockStep::Wait(left_nanos)
    } else {
        LockStep::Wait(LOCK_WAIT_NANOS)
    }
}

/// A request that waits at least as long as it is told does not wait for ever: with `left[k]` left at
/// its look number `k`, the time is up at the look whose number is that of the started milliseconds
/// of its budget, if not before.
pub proof fn lemma_waiting_ends(left: Seq<u64>, look: int)
    requires
        0 <= look < left.len(),
        forall|k: int|
            0 <= k < left.len() - 1 ==> left[k + 1] <= (#[trigger] left[k]) - lock_wait(left[k]),
    ensures
        left[look] == 0 || left[look] + look * LOCK_WAIT_NANOS <= left[0],
        look * LOCK_WAIT_NANOS >= left[0] ==> left[look] == 0,
    decreases look,
{
    if look > 0 {
        lemma_waiting_ends(left, look - 1);
        assert(left[look - 1 + 1] <= left[look - 1] - lock_wait(left[look - 1]));
    }
}

} // verus!
