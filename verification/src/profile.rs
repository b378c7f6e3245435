//! Timing and active-edge statistics gathered by the scanline fill.

use vstd::prelude::*;

use std::time::Duration;

verus! {

/// `Duration::clone` (std): a `Duration` is `Copy`, and its clone is the
/// same value.
pub assume_specification[<Duration as Clone>::clone](d: &Duration) -> (r: Duration)
    ensures
        r == *d,
;

/// What the scanline fill records about its work.
#[derive(Debug, Default, Clone)]
pub struct ScanlineProfile {
    pub fills: u64,
    pub break_into_lines: Duration,
    pub active_segment_list: Duration,
    pub active_segment_list_removal: Duration,
    pub covarage_table_generation: Duration,
    pub resolve_pass: Duration,
    /// The length of the active-edge list at each row drawn.
    pub active_segment_counts: Vec<usize>,
}

/// The sum of a run of counts.
pub open spec fn count_sum(s: Seq<usize>) -> int
    decreases s.len(),
{
    if s.len() == 0 {
        0
    } else {
        count_sum(s.drop_last()) + s.last()
    }
}

/// The total of no counts is zero, and recording one more row adds exactly
/// that row's count to the total, whatever came before.
pub proof fn lemma_count_sum_push(s: Seq<usize>, x: usize)
    ensures
        count_sum(Seq::<usize>::empty()) == 0,
        count_sum(s.push(x)) == count_sum(s) + x,
{
    assert(s.push(x).drop_last() =~= s);
}

proof fn lemma_count_sum_monotone(s: Seq<usize>, k: int)
    requires
        0 <= k <= s.len(),
    ensures
        count_sum(s.take(k)) <= count_sum(s),
    decreases s.len() - k,
{
    if k < s.len() {
        lemma_count_sum_monotone(s, k + 1);
        assert(s.take(k + 1).drop_last() =~= s.take(k));
    } else {
        assert(s.take(k) =~= s);
    }
}

impl ScanlineProfile {
    /// The smallest, the largest and the total of the recorded active-edge
    /// counts, or `None` when no row was recorded.
    pub fn active_segment_stats(&self) -> (r: Option<(usize, usize, usize)>)
        requires
            count_sum(self.active_segment_counts@) <= usize::MAX,
        ensures
            r is None <==> self.active_segment_counts@.len() == 0,
            r matches Some((min, max, sum)) ==> {
                let s = self.active_segment_counts@;
                &&& s.contains(min)
                &&& s.contains(max)
                &&& forall|k: int| 0 <= k < s.len() ==> min <= #[trigger] s[k] <= max
                &&& sum == count_sum(s)
            },
    {
        let counts = &self.active_segment_counts;
        if counts.len() == 0 {
            return None;
        }
        let ghost s = counts@;
        let mut min: usize = usize::MAX;
        let mut max: usize = 0;
        let mut sum: usize = 0;
        let mut i: usize = 0;
        while i < counts.len()
            invariant
                s == counts@,
                s.len() > 0,
                i <= s.len(),
                i == 0 ==> min == usize::MAX && max == 0,
                count_sum(s) <= usize::MAX,
                sum == count_sum(s.take(i as int)),
                i > 0 ==> s.take(i as int).contains(min) && s.take(i as int).contains(max),
                forall|k: int| 0 <= k < i ==> min <= #[trigger] s[k] <= max,
            decreases s.len() - i,
        {
            let count = counts[i];
            proof {
                lemma_count_sum_monotone(s, i + 1);
                assert(s.take(i + 1).drop_last() =~= s.take(i as int));
            }
            let ghost t0 = s.take(i as int);
            let ghost t1 = s.take(i + 1);
            let ghost old_min = min;
            let ghost old_max = max;
            if count < min {
                min = count;
            }
            if count > max {
                max = count;
            }
            sum = sum + count;
            proof {
                assert(t1[i as int] == count);
                assert(t1.contains(count));
                if i == 0 {
                    assert(min == count);
                    assert(max == count);
                } else {
                    let a = choose|a: int| 0 <= a < t0.len() && t0[a] == old_min;
                    let b = choose|b: int| 0 <= b < t0.len() && t0[b] == old_max;
                    assert(t1[a] == old_min);
                    assert(t1[b] == old_max);
                    assert(t1.contains(old_min));
                    assert(t1.contains(old_max));
                }
            }
            i = i + 1;
        }
        assert(s.take(s.len() as int) =~= s);
        Some((min, max, sum))
    }
}

} // verus!
