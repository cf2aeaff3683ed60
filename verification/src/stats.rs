//! Latency statistics for the bench sweep: the harness measures durations in
//! nanoseconds and hands them here; this reduces a sample set to its total,
//! worst and best, from which the mean follows.

use vstd::prelude::*;

verus! {

/// Total of a sample sequence.
pub open spec fn sum_of(s: Seq<u64>) -> int
    decreases s.len(),
{
    if s.len() == 0 {
        0
    } else {
        sum_of(s.drop_last()) + s.last()
    }
}

/// Reduction of one measured phase over a sample set.
pub struct LatencyStats {
    pub count: usize,
    pub sum: u128,
    pub max: u64,
    pub min: u64,
}

/// Reduce a sample set: its size, exact total, worst and best values.
/// Nothing comes of an empty set.
pub fn summarize(samples: &Vec<u64>) -> (r: Option<LatencyStats>)
    ensures
        match r {
            None => samples@.len() == 0,
            Some(st) => {
                &&& samples@.len() > 0
                &&& st.count == samples@.len()
                &&& st.sum == sum_of(samples@)
                &&& exists|k: int| 0 <= k < samples@.len() && samples@[k] == st.max
                &&& forall|k: int| 0 <= k < samples@.len() ==> #[trigger] samples@[k] <= st.max
                &&& exists|k: int| 0 <= k < samples@.len() && samples@[k] == st.min
                &&& forall|k: int| 0 <= k < samples@.len() ==> #[trigger] samples@[k] >= st.min
            },
        },
{
    let n = samples.len();
    if n == 0 {
        return None;
    }
    let mut sum: u128 = 0;
    let mut max: u64 = samples[0];
    let mut min: u64 = samples[0];
    let mut i: usize = 0;
    while i < n
        invariant
            n == samples@.len(),
            0 < n,
            i <= n,
            sum == sum_of(samples@.take(i as int)),
            sum <= (i as int) * (u64::MAX as int),
            exists|k: int| 0 <= k < n && samples@[k] == max,
            forall|k: int| 0 <= k < i ==> #[trigger] samples@[k] <= max,
            exists|k: int| 0 <= k < n && samples@[k] == min,
            forall|k: int| 0 <= k < i ==> #[trigger] samples@[k] >= min,
        decreases n - i,
    {
        let x = samples[i];
        proof {
            assert(samples@.take(i as int + 1).drop_last() =~= samples@.take(i as int));
            assert((i as int + 1) * (u64::MAX as int) == (i as int) * (u64::MAX as int) + (
            u64::MAX as int));
            assert((i as int) * (u64::MAX as int) <= (usize::MAX as int) * (u64::MAX as int));
        }
        sum = sum + (x as u128);
        if x > max {
            max = x;
        }
        if x < min {
            min = x;
        }
        i = i + 1;
    }
    proof {
        assert(samples@.take(n as int) =~= samples@);
    }
    Some(LatencyStats { count: n, sum, max, min })
}

} // verus!
