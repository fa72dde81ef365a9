//! Folding the frequencies of a statistics into bins of equal width.
use crate::stats::{
    count_at, count_in, lemma_count_at_most, lemma_count_in_absent, lemma_count_in_remove,
    lemma_count_in_widen, Statistics,
};
use vstd::prelude::*;

verus! {

/// Why a range cannot be binned.
#[derive(Clone, Copy, Debug, PartialEq, Eq, Structural)]
pub enum RangeError {
    /// The range starts above the greatest value of the data.
    StartAboveMax,
    /// The range ends below the least value of the data.
    EndBelowMin,
    /// The range does not start strictly below its end.
    StartNotBelowEnd,
}

/// The width of each bin when `start..=end` is cut into `bin_count` bins:
/// the least width with which the bins cover the range.
pub open spec fn width_of(start: int, end: int, bin_count: int) -> int {
    (end - start + bin_count) / bin_count
}

/// The range that is binned: the one asked for, or else the extrema.
pub open spec fn resolve(stats: Statistics, start: Option<i32>, end: Option<i32>) -> (i32, i32) {
    (
        match start {
            Some(s) => s,
            None => stats.min,
        },
        match end {
            Some(e) => e,
            None => stats.max,
        },
    )
}

/// The first of the reasons, in the order of the variants, for which the
/// range `start..=end` cannot be binned over `stats`.
pub open spec fn range_error(stats: Statistics, start: i32, end: i32) -> Option<RangeError> {
    if start > stats.max {
        Some(RangeError::StartAboveMax)
    } else if end < stats.min {
        Some(RangeError::EndBelowMin)
    } else if start >= end {
        Some(RangeError::StartNotBelowEnd)
    } else {
        None
    }
}

/// The counts of a statistics folded into bins of equal width.
#[derive(Debug)]
pub struct HistogramInt {
    /// The count of each bin, in the order of the bins.
    pub data: Vec<usize>,
    /// The number of values that each bin spans.
    pub bin_width: i64,
    /// The least value that is counted.
    pub starting_range: i32,
    /// The greatest value that is counted.
    pub ending_range: i32,
    /// The statistics that were binned.
    pub statistics: Statistics,
    /// The greatest number of blocks that a bar is drawn with.
    pub max_blocks: i32,
}

/// The least value of bin `i`.
pub open spec fn bin_low(start: int, width: int, i: int) -> int {
    start + i * width
}

/// The greatest value that bin `i` counts: the last of its width, or the end
/// of the range where the bin reaches beyond it.
pub open spec fn bin_high(start: int, width: int, end: int, i: int) -> int {
    let last = start + (i + 1) * width - 1;
    if last < end {
        last
    } else {
        end
    }
}

/// The bin that holds `value`.
pub open spec fn bin_of(start: int, width: int, value: int) -> int {
    (value - start) / width
}

/// The bins of the computed width cover the range, and not a whole bin more.
pub proof fn lemma_width(start: int, end: int, n: int)
    requires
        start <= end,
        n > 0,
    ensures
        width_of(start, end, n) >= 1,
        end - start < n * width_of(start, end, n) <= end - start + n,
{
    let d = end - start;
    let w = (d + n) / n;
    assert(w >= 1 && d < n * w && n * w <= d + n) by (nonlinear_arith)
        requires
            d >= 0,
            n > 0,
            w == (d + n) / n,
    ;
}

/// A value of the range lies in the bin that `bin_of` names and in no other.
pub proof fn lemma_bin_of(start: int, width: int, end: int, value: int, i: int)
    requires
        width >= 1,
        start <= value <= end,
    ensures
        (bin_low(start, width, i) <= value <= bin_high(start, width, end, i)) <==> i == bin_of(
            start,
            width,
            value,
        ),
        bin_of(start, width, value) >= 0,
{
    let x = value - start;
    let q = x / width;
    assert(q * width <= x < (q + 1) * width && q >= 0) by (nonlinear_arith)
        requires
            width >= 1,
            x >= 0,
            q == x / width,
    ;
    if i * width <= x && x < (i + 1) * width {
        assert(i == q) by (nonlinear_arith)
            requires
                width >= 1,
                i * width <= x,
                x < (i + 1) * width,
                q * width <= x,
                x < (q + 1) * width,
        ;
    }
}

/// Every value of the range has its bin among the `n` bins of the computed
/// width.
pub proof fn lemma_bin_of_in_range(start: int, end: int, n: int, value: int)
    requires
        n > 0,
        start <= value <= end,
    ensures
        0 <= bin_of(start, width_of(start, end, n), value) < n,
{
    let w = width_of(start, end, n);
    lemma_width(start, end, n);
    lemma_bin_of(start, w, end, value, bin_of(start, w, value));
    let x = value - start;
    let q = bin_of(start, w, value);
    assert(q < n) by (nonlinear_arith)
        requires
            w >= 1,
            q * w <= x,
            x < n * w,
    ;
}

/// No bin counts a value outside the range.
pub proof fn lemma_bin_bounds(start: int, width: int, end: int, i: int)
    requires
        width >= 1,
        i >= 0,
    ensures
        start <= bin_low(start, width, i),
        bin_high(start, width, end, i) <= end,
{
    assert(i * width >= 0) by (nonlinear_arith)
        requires
            width >= 1,
            i >= 0,
    ;
}

/// Whether `r` is what binning `statistics` gives: the error of the range
/// where it has one, and else the histogram of `bin_count` bins over it.
pub open spec fn bins_of(
    r: Result<HistogramInt, RangeError>,
    statistics: Statistics,
    bin_count: i32,
    starting_range: Option<i32>,
    ending_range: Option<i32>,
    max_blocks: i32,
) -> bool {
    let (start, end) = resolve(statistics, starting_range, ending_range);
    match r {
        Ok(h) => {
            &&& range_error(statistics, start, end) is None
            &&& h.wf()
            &&& h.data.len() == bin_count
            &&& h.starting_range == start
            &&& h.ending_range == end
            &&& h.statistics == statistics
            &&& h.max_blocks == max_blocks
        },
        Err(e) => range_error(statistics, start, end) == Some(e),
    }
}

impl HistogramInt {
    /// The invariant of the type: the range is not empty, there is a bin,
    /// the width is the one that the range and the number of bins give, and
    /// each bin holds the count of the values of the statistics that lie in
    /// it and within the range.
    pub open spec fn wf(&self) -> bool {
        let m = self.statistics.num_freq_map@;
        &&& self.statistics.wf()
        &&& self.max_blocks > 0
        &&& self.starting_range < self.ending_range
        &&& 0 < self.data.len() <= i32::MAX
        &&& self.bin_width == width_of(
            self.starting_range as int,
            self.ending_range as int,
            self.data.len() as int,
        )
        &&& forall|i: int|
            0 <= i < self.data.len() ==> #[trigger] self.data@[i] == count_in(
                m,
                bin_low(self.starting_range as int, self.bin_width as int, i),
                bin_high(
                    self.starting_range as int,
                    self.bin_width as int,
                    self.ending_range as int,
                    i,
                ),
            )
    }

    /// Folds the frequencies of `statistics` into `bin_count` bins of equal
    /// width over the range from `starting_range` to `ending_range`, where a
    /// bound that is not given is the least or the greatest value of the data.
    /// Values outside the range are left out.
    pub fn new(
        statistics: Statistics,
        bin_count: i32,
        starting_range: Option<i32>,
        ending_range: Option<i32>,
        max_blocks: i32,
    ) -> (r: Result<HistogramInt, RangeError>)
        requires
            statistics.wf(),
            bin_count > 0,
            max_blocks > 0,
        ensures
            bins_of(r, statistics, bin_count, starting_range, ending_range, max_blocks),
    {
        let start: i32 = match starting_range {
            Some(v) => v,
            None => statistics.min,
        };
        let end: i32 = match ending_range {
            Some(v) => v,
            None => statistics.max,
        };
        if start > statistics.max {
            return Err(RangeError::StartAboveMax);
        } else if end < statistics.min {
            return Err(RangeError::EndBelowMin);
        } else if start >= end {
            return Err(RangeError::StartNotBelowEnd);
        }
        let n: usize = bin_count as usize;
        let width: i64 = (end as i64 - start as i64 + bin_count as i64) / (bin_count as i64);
        proof {
            lemma_width(start as int, end as int, bin_count as int);
        }
        let mut data: Vec<usize> = Vec::new();
        while data.len() < n
            invariant
                data.len() <= n,
                forall|i: int| 0 <= i < data.len() ==> data@[i] == 0,
            decreases n - data.len(),
        {
            data.push(0);
        }
        let pairs = statistics.entries();
        let ghost m = statistics.num_freq_map@;
        let ghost mut rest = m;
        let mut j: usize = 0;
        while j < pairs.len()
            invariant
                j <= pairs.len(),
                data.len() == n,
                n == bin_count,
                bin_count > 0,
                start < end,
                width == width_of(start as int, end as int, bin_count as int),
                width >= 1,
                m == statistics.num_freq_map@,
                statistics.wf(),
                forall|i: int|
                    0 <= i < pairs.len() ==> m.contains_key(#[trigger] pairs[i].0) && m[pairs[i].0]
                        == pairs[i].1,
                forall|i: int, k: int| 0 <= i < k < pairs.len() ==> pairs[i].0 != pairs[k].0,
                forall|k: i32| #[trigger] rest.contains_key(k) ==> m.contains_key(k) && rest[k] == m[k],
                forall|i: int| j <= i < pairs.len() ==> rest.contains_key(#[trigger] pairs[i].0),
                forall|k: i32|
                    rest.contains_key(k) ==> exists|i: int|
                        j <= i < pairs.len() && #[trigger] pairs[i].0 == k,
                forall|b: int|
                    0 <= b < n ==> #[trigger] data@[b] + count_in(
                        rest,
                        bin_low(start as int, width as int, b),
                        bin_high(start as int, width as int, end as int, b),
                    ) == count_in(
                        m,
                        bin_low(start as int, width as int, b),
                        bin_high(start as int, width as int, end as int, b),
                    ),
            decreases pairs.len() - j,
        {
            let num: i32 = pairs[j].0;
            let freq: usize = pairs[j].1;
            let ghost before = data@;
            let ghost pending = rest;
            assert(rest.contains_key(pairs[j as int].0));
            assert(count_at(rest, num as int) == freq);
            if num >= start && num <= end {
                let idx: usize = ((num as i64 - start as i64) / width) as usize;
                proof {
                    let q = bin_of(start as int, width as int, num as int);
                    lemma_bin_of(start as int, width as int, end as int, num as int, q);
                    lemma_bin_of_in_range(start as int, end as int, bin_count as int, num as int);
                    let lo = bin_low(start as int, width as int, q);
                    let hi = bin_high(start as int, width as int, end as int, q);
                    lemma_bin_bounds(start as int, width as int, end as int, q);
                    lemma_count_at_most(rest, num as int, lo, hi);
                    lemma_count_in_widen(m, lo, hi, i32::MIN as int, i32::MAX as int);
                    assert(data@[q] + count_in(rest, lo, hi) == count_in(m, lo, hi));
                }
                data.set(idx, data[idx] + freq);
            }
            proof {
                rest = rest.remove(num);
                assert forall|b: int| 0 <= b < n implies #[trigger] data@[b] + count_in(
                    rest,
                    bin_low(start as int, width as int, b),
                    bin_high(start as int, width as int, end as int, b),
                ) == count_in(
                    m,
                    bin_low(start as int, width as int, b),
                    bin_high(start as int, width as int, end as int, b),
                ) by {
                    let lo = bin_low(start as int, width as int, b);
                    let hi = bin_high(start as int, width as int, end as int, b);
                    assert(before[b] + count_in(pending, lo, hi) == count_in(m, lo, hi));
                    lemma_count_in_remove(pending, num, lo, hi);
                    lemma_bin_bounds(start as int, width as int, end as int, b);
                    if start <= num <= end {
                        lemma_bin_of(start as int, width as int, end as int, num as int, b);
                    }
                }
                assert forall|k: i32| rest.contains_key(k) implies exists|i: int|
                    j + 1 <= i < pairs.len() && #[trigger] pairs[i].0 == k by {
                    assert(pending.contains_key(k));
                    let i = choose|i: int| j <= i < pairs.len() && #[trigger] pairs[i].0 == k;
                    assert(i != j);
                }
            }
            j += 1;
        }
        proof {
            assert forall|b: int| 0 <= b < n implies #[trigger] data@[b] == count_in(
                m,
                bin_low(start as int, width as int, b),
                bin_high(start as int, width as int, end as int, b),
            ) by {
                lemma_count_in_absent(
                    rest,
                    bin_low(start as int, width as int, b),
                    bin_high(start as int, width as int, end as int, b),
                );
            }
        }
        Ok(
            HistogramInt {
                data,
                bin_width: width,
                starting_range: start,
                ending_range: end,
                statistics,
                max_blocks,
            },
        )
    }
}

} // verus!
