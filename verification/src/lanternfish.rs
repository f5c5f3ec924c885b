//! Population bookkeeping for exponentially breeding fish: one day of
//! simulation over a histogram of internal timers.

use vstd::prelude::*;

verus! {

/// How many timer slots the histogram has (timers run 0 through 8; the last
/// slot is spare and never populated by the simulation itself).
pub const MAX_TIMER: usize = 10;

/// Advances the histogram one day: every count shifts down one timer slot;
/// the fish that were at 0 respawn at 6 and each spawns a new fish at 8.
pub fn iterate(counts: &mut Vec<u64>)
    requires
        old(counts)@.len() == MAX_TIMER,
        old(counts)@[7] + old(counts)@[0] <= u64::MAX,
        old(counts)@[9] + old(counts)@[0] <= u64::MAX,
    ensures
        final(counts)@.len() == MAX_TIMER,
        forall|i: int| 0 <= i < 6 ==> final(counts)@[i] == old(counts)@[i + 1],
        final(counts)@[6] == old(counts)@[7] + old(counts)@[0],
        final(counts)@[7] == old(counts)@[8],
        final(counts)@[8] == old(counts)@[9] + old(counts)@[0],
        final(counts)@[9] == old(counts)@[9],
{
    let add = counts[0];
    let mut i: usize = 0;
    while i < 9
        invariant
            counts@.len() == MAX_TIMER,
            i <= 9,
            add == old(counts)@[0],
            old(counts)@[7] + add <= u64::MAX,
            old(counts)@[9] + add <= u64::MAX,
            forall|k: int| 0 <= k < i as int ==> counts@[k] == old(counts)@[k + 1],
            forall|k: int| i as int <= k < 10 ==> counts@[k] == old(counts)@[k],
        decreases 9 - i,
    {
        let v = counts[i + 1];
        counts[i] = v;
        i = i + 1;
    }
    let c6 = counts[6];
    counts[6] = c6 + add;
    let c8 = counts[8];
    counts[8] = c8 + add;
}

} // verus!
