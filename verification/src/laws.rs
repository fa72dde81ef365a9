//! What holds of every histogram and of the values it was made from.
use crate::bins::{
    bin_high, bin_low, bins_of, lemma_bin_bounds, lemma_width, resolve, HistogramInt, RangeError,
};
use crate::stats::{
    count_in, freq_of, lemma_count_in_split, lemma_occurrences, mode_of, occurrences, total,
    Statistics,
};
use vstd::prelude::*;

verus! {

/// The sum of the counts in `bins`.
pub open spec fn sum_of(bins: Seq<usize>) -> nat
    decreases bins.len(),
{
    if bins.len() == 0 {
        0
    } else {
        sum_of(bins.drop_last()) + bins.last() as nat
    }
}

/// How many of `vals` lie between `lo` and `hi`, both included.
pub open spec fn in_range(vals: Seq<i32>, lo: int, hi: int) -> nat
    decreases vals.len(),
{
    if vals.len() == 0 {
        0
    } else {
        in_range(vals.drop_last(), lo, hi) + if lo <= vals.last() <= hi {
            1nat
        } else {
            0nat
        }
    }
}

/// Widening a range by one value adds the occurrences of that value.
pub proof fn lemma_in_range_step(vals: Seq<i32>, lo: int, hi: i32)
    requires
        lo <= hi,
    ensures
        in_range(vals, lo, hi as int) == in_range(vals, lo, hi - 1) + occurrences(vals, hi),
    decreases vals.len(),
{
    if vals.len() > 0 {
        lemma_in_range_step(vals.drop_last(), lo, hi);
    }
}

/// The frequency map of a sequence counts, over any range, the values of the
/// sequence that lie in it.
pub proof fn lemma_freq_counts(vals: Seq<i32>, lo: int, hi: int)
    requires
        vals.len() <= usize::MAX,
        i32::MIN <= lo,
        hi <= i32::MAX,
    ensures
        count_in(freq_of(vals), lo, hi) == in_range(vals, lo, hi),
    decreases hi - lo + 1,
{
    if hi < lo {
        lemma_in_range_empty(vals, lo, hi);
    } else {
        lemma_freq_counts(vals, lo, hi - 1);
        lemma_in_range_step(vals, lo, hi as i32);
        lemma_occurrences(vals, hi as i32);
    }
}

/// No value lies in a range whose end is below its start.
pub proof fn lemma_in_range_empty(vals: Seq<i32>, lo: int, hi: int)
    requires
        hi < lo,
    ensures
        in_range(vals, lo, hi) == 0,
    decreases vals.len(),
{
    if vals.len() > 0 {
        lemma_in_range_empty(vals.drop_last(), lo, hi);
    }
}

/// The first `j` bins of a histogram together count the values of the
/// statistics from the start of the range up to where bin `j - 1` ends.
pub proof fn lemma_prefix_sum(h: HistogramInt, j: int)
    requires
        h.wf(),
        0 <= j <= h.data.len(),
    ensures
        sum_of(h.data@.take(j)) == count_in(
            h.statistics.num_freq_map@,
            h.starting_range as int,
            bin_high(h.starting_range as int, h.bin_width as int, h.ending_range as int, j - 1),
        ),
    decreases j,
{
    let m = h.statistics.num_freq_map@;
    let start = h.starting_range as int;
    let end = h.ending_range as int;
    let w = h.bin_width as int;
    lemma_width(start, end, h.data.len() as int);
    if j == 0 {
        assert(bin_high(start, w, end, -1) == start - 1) by (nonlinear_arith)
            requires
                bin_high(start, w, end, -1) == if start + (-1 + 1) * w - 1 < end {
                    start + (-1 + 1) * w - 1
                } else {
                    end
                },
                start < end,
        ;
    } else {
        let i = j - 1;
        lemma_prefix_sum(h, i);
        assert(h.data@.take(j).drop_last() =~= h.data@.take(i));
        assert(h.data@.take(j).last() == h.data@[i]);
        let lo = bin_low(start, w, i);
        let hi = bin_high(start, w, end, i);
        let before = bin_high(start, w, end, i - 1);
        lemma_bin_bounds(start, w, end, i);
        assert((i - 1 + 1) * w == i * w && (i + 1) * w == i * w + w) by (nonlinear_arith);
        if lo <= end {
            assert(before == lo - 1);
            lemma_count_in_split(m, start, lo - 1, hi);
        } else {
            assert(before == end && hi == end);
        }
    }
}

/// The bins of a histogram together hold as many values as the input has
/// within the range of the histogram.
pub proof fn lemma_bins_hold_range(h: HistogramInt, vals: Seq<i32>)
    requires
        h.wf(),
        h.statistics.models(vals),
    ensures
        sum_of(h.data@) == in_range(vals, h.starting_range as int, h.ending_range as int),
{
    let n = h.data.len() as int;
    let start = h.starting_range as int;
    let end = h.ending_range as int;
    let w = h.bin_width as int;
    lemma_prefix_sum(h, n);
    assert(h.data@.take(n) =~= h.data@);
    lemma_width(start, end, n);
    assert((n - 1 + 1) * w == n * w) by (nonlinear_arith);
    assert(bin_high(start, w, end, n - 1) == end);
    lemma_freq_counts(vals, start, end);
}

/// The bins of a histogram never hold more values than the input has.
pub proof fn lemma_bins_at_most_size(h: HistogramInt)
    requires
        h.wf(),
    ensures
        sum_of(h.data@) <= h.statistics.size_of_data,
{
    let n = h.data.len() as int;
    let start = h.starting_range as int;
    let end = h.ending_range as int;
    let w = h.bin_width as int;
    lemma_prefix_sum(h, n);
    assert(h.data@.take(n) =~= h.data@);
    lemma_width(start, end, n);
    assert((n - 1 + 1) * w == n * w) by (nonlinear_arith);
    lemma_count_in_split(h.statistics.num_freq_map@, i32::MIN as int, start - 1, i32::MAX as int);
    lemma_count_in_split(h.statistics.num_freq_map@, start, end, i32::MAX as int);
}

/// A range that does not start strictly below its end is refused, whatever
/// the data.
pub proof fn lemma_empty_range_is_refused(
    r: Result<HistogramInt, RangeError>,
    statistics: Statistics,
    bin_count: i32,
    starting_range: Option<i32>,
    ending_range: Option<i32>,
    max_blocks: i32,
)
    requires
        bins_of(r, statistics, bin_count, starting_range, ending_range, max_blocks),
        resolve(statistics, starting_range, ending_range).0 >= resolve(
            statistics,
            starting_range,
            ending_range,
        ).1,
    ensures
        r is Err,
{
}

/// Binning without bounds is binning from the least value of the data to the
/// greatest.
pub proof fn lemma_default_range(
    r: Result<HistogramInt, RangeError>,
    statistics: Statistics,
    bin_count: i32,
    max_blocks: i32,
)
    ensures
        bins_of(r, statistics, bin_count, None, None, max_blocks) == bins_of(
            r,
            statistics,
            bin_count,
            Some(statistics.min),
            Some(statistics.max),
            max_blocks,
        ),
{
}

/// Binning is a function of its arguments: two results for the same
/// statistics and the same parameters are the same error, or histograms with
/// the same bins, width and range.
pub proof fn lemma_binning_is_a_function(
    first: Result<HistogramInt, RangeError>,
    second: Result<HistogramInt, RangeError>,
    statistics: Statistics,
    bin_count: i32,
    starting_range: Option<i32>,
    ending_range: Option<i32>,
    max_blocks: i32,
)
    requires
        bins_of(first, statistics, bin_count, starting_range, ending_range, max_blocks),
        bins_of(second, statistics, bin_count, starting_range, ending_range, max_blocks),
    ensures
        match (first, second) {
            (Ok(a), Ok(b)) => {
                &&& a.data@ == b.data@
                &&& a.bin_width == b.bin_width
                &&& a.starting_range == b.starting_range
                &&& a.ending_range == b.ending_range
                &&& a.statistics == b.statistics
                &&& a.max_blocks == b.max_blocks
            },
            (Err(a), Err(b)) => a == b,
            _ => false,
        },
{
    match (first, second) {
        (Ok(a), Ok(b)) => {
            assert(a.data@ =~= b.data@);
        },
        _ => {},
    }
}

/// No value occurs more often than the mode, and the count of the mode is
/// the number of its occurrences.
pub proof fn lemma_mode_is_most_frequent(vals: Seq<i32>, k: i32)
    ensures
        occurrences(vals, k) <= mode_of(vals).1,
        vals.len() > 0 ==> occurrences(vals, mode_of(vals).0) == mode_of(vals).1,
        vals.len() > 0 ==> vals.contains(mode_of(vals).0),
    decreases vals.len(),
{
    if vals.len() > 0 {
        let front = vals.drop_last();
        lemma_mode_is_most_frequent(front, k);
        lemma_mode_is_most_frequent(front, vals.last());
        lemma_occurrences(vals, mode_of(vals).0);
    }
}

/// A value occurs in the front of a sequence at most as often as in the
/// whole.
pub proof fn lemma_front_occurrences(vals: Seq<i32>, p: int, k: i32)
    requires
        0 <= p <= vals.len(),
    ensures
        occurrences(vals.take(p), k) <= occurrences(vals, k),
    decreases vals.len(),
{
    if p == vals.len() {
        assert(vals.take(p) =~= vals);
    } else {
        assert(vals.drop_last().take(p) =~= vals.take(p));
        lemma_front_occurrences(vals.drop_last(), p, k);
    }
}

/// Among the values that occur most often the mode is the one that reached
/// that count first: wherever the first `p` values hold some value as often
/// as the mode occurs in all, they hold the mode that often.
pub proof fn lemma_mode_is_first(vals: Seq<i32>, p: int, k: i32)
    requires
        0 <= p <= vals.len(),
        vals.len() > 0,
        occurrences(vals.take(p), k) == mode_of(vals).1,
    ensures
        occurrences(vals.take(p), mode_of(vals).0) == mode_of(vals).1,
    decreases vals.len(),
{
    let front = vals.drop_last();
    lemma_mode_is_most_frequent(vals, k);
    if p == vals.len() {
        assert(vals.take(p) =~= vals);
    } else {
        assert(front.take(p) =~= vals.take(p));
        lemma_front_occurrences(front, p, k);
        lemma_mode_is_most_frequent(front, k);
        if front.len() > 0 {
            lemma_mode_is_first(front, p, k);
        }
    }
}

/// Every value of a sequence lies in the range of all of `i32`.
pub proof fn lemma_in_range_all(vals: Seq<i32>)
    ensures
        in_range(vals, i32::MIN as int, i32::MAX as int) == vals.len(),
    decreases vals.len(),
{
    if vals.len() > 0 {
        lemma_in_range_all(vals.drop_last());
    }
}

/// The sum of a sequence is at most its length times the greatest magnitude
/// of an `i32`.
pub proof fn lemma_total_bounds(vals: Seq<i32>)
    ensures
        -(vals.len() * 2147483648) <= total(vals) <= vals.len() * 2147483648,
    decreases vals.len(),
{
    if vals.len() > 0 {
        lemma_total_bounds(vals.drop_last());
    }
}

/// The statistics of a sequence of values keep the invariant of the type,
/// and with it the laws of `lemma_statistics_laws`.
pub proof fn lemma_models_wf(s: Statistics, vals: Seq<i32>)
    requires
        s.models(vals),
    ensures
        s.wf(),
{
    let m = s.num_freq_map@;
    lemma_freq_counts(vals, i32::MIN as int, i32::MAX as int);
    lemma_in_range_all(vals);
    lemma_total_bounds(vals);
    assert forall|k: i32| #[trigger] m.contains_key(k) implies 1 <= m[k] <= s.mode_count && s.min
        <= k <= s.max by {
        lemma_occurrences(vals, k);
        lemma_mode_is_most_frequent(vals, k);
        let i = choose|i: int| 0 <= i < vals.len() && vals[i] == k;
        assert(s.min <= vals[i] <= s.max);
    }
    if vals.len() > 0 {
        lemma_mode_is_most_frequent(vals, s.mode);
        lemma_occurrences(vals, s.mode);
    }
}

/// The laws of a statistics over its frequency map: the size is the sum of
/// all counts; where there is a value, the mode lies between the extrema and
/// its count is the one the map holds for it; and no key has a greater
/// count.
pub proof fn lemma_statistics_laws(s: Statistics, k: i32)
    requires
        s.wf(),
    ensures
        s.size_of_data == count_in(s.num_freq_map@, i32::MIN as int, i32::MAX as int),
        s.size_of_data > 0 ==> s.min <= s.mode <= s.max,
        s.size_of_data > 0 ==> s.num_freq_map@.contains_key(s.mode) && s.num_freq_map@[s.mode]
            == s.mode_count,
        s.num_freq_map@.contains_key(k) ==> s.num_freq_map@[k] <= s.mode_count,
{
}

} // verus!
