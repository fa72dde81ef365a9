//! The rows of a histogram as they are drawn: the bounds of each bin and the
//! length of its bar, scaled so that no bar is longer than the limit.
use crate::bins::{bin_low, lemma_width, HistogramInt};
use vstd::prelude::*;

verus! {

/// The greatest count in `bins`; 0 where there is none.
pub open spec fn largest_of(bins: Seq<usize>) -> nat
    decreases bins.len(),
{
    if bins.len() == 0 {
        0
    } else if largest_of(bins.drop_last()) >= bins.last() {
        largest_of(bins.drop_last())
    } else {
        bins.last() as nat
    }
}

/// The greatest count bounds every count.
pub proof fn lemma_largest_bounds(bins: Seq<usize>, i: int)
    requires
        0 <= i < bins.len(),
    ensures
        bins[i] <= largest_of(bins),
    decreases bins.len(),
{
    if i < bins.len() - 1 {
        lemma_largest_bounds(bins.drop_last(), i);
    }
}

/// One row of a drawn histogram.
#[derive(Clone, Copy, Debug, PartialEq, Eq, Structural)]
pub struct BinRow {
    /// The least value of the bin.
    pub start: i64,
    /// The greatest value of the bin.
    pub end: i64,
    /// The number of values in the bin.
    pub count: usize,
    /// The number of blocks in the bar of the bin.
    pub blocks: usize,
}

impl HistogramInt {
    /// The greatest count of a bin; 1 where there is no bin.
    pub open spec fn largest_bin(&self) -> nat {
        if self.data.len() == 0 {
            1
        } else {
            largest_of(self.data@)
        }
    }

    /// The number of values that one block of a bar stands for.
    pub open spec fn scale_of(&self) -> nat {
        1 + self.largest_bin() / ((self.max_blocks + 1) as nat)
    }

    /// The row of bin `i`.
    pub open spec fn row_of(&self, i: int) -> BinRow {
        BinRow {
            start: bin_low(self.starting_range as int, self.bin_width as int, i) as i64,
            end: (bin_low(self.starting_range as int, self.bin_width as int, i) + self.bin_width
                - 1) as i64,
            count: self.data@[i],
            blocks: (self.data@[i] as nat / self.scale_of()) as usize,
        }
    }

    /// Whether each bin spans one value only, so that a row needs no upper
    /// bound.
    pub fn no_range(&self) -> (b: bool)
        ensures
            b == (self.bin_width == 1),
    {
        self.bin_width == 1
    }

    /// The greatest count of a bin; 1 where there is no bin.
    pub fn largest_bin_qty(&self) -> (r: usize)
        ensures
            r == self.largest_bin(),
    {
        if self.data.len() == 0 {
            return 1;
        }
        let mut best: usize = 0;
        let mut i: usize = 0;
        while i < self.data.len()
            invariant
                i <= self.data.len(),
                best == largest_of(self.data@.take(i as int)),
            decreases self.data.len() - i,
        {
            proof {
                assert(self.data@.take(i + 1).drop_last() =~= self.data@.take(i as int));
            }
            if self.data[i] > best {
                best = self.data[i];
            }
            i += 1;
        }
        proof {
            assert(self.data@.take(i as int) =~= self.data@);
        }
        best
    }

    /// The number of values that one block of a bar stands for: with it no
    /// bar has more than `max_blocks` blocks.
    pub fn scale(&self) -> (r: usize)
        requires
            self.max_blocks > 0,
        ensures
            r == self.scale_of(),
            r >= 1,
            forall|i: int| 0 <= i < self.data.len() ==> self.data@[i] / r <= self.max_blocks,
    {
        let largest = self.largest_bin_qty();
        let limit: usize = self.max_blocks as usize + 1;
        proof {
            let l = largest as int;
            let d = limit as int;
            assert(l / d < l || l == 0) by (nonlinear_arith)
                requires
                    l >= 0,
                    d >= 2,
            ;
        }
        let r: usize = 1 + largest / limit;
        proof {
            assert forall|i: int| 0 <= i < self.data.len() implies self.data@[i] / r
                <= self.max_blocks by {
                lemma_largest_bounds(self.data@, i);
                let x = self.data@[i] as int;
                let l = largest as int;
                let d = limit as int;
                let s = r as int;
                assert(x / s < d) by (nonlinear_arith)
                    requires
                        0 <= x <= l,
                        d >= 1,
                        s == 1 + l / d,
                ;
            }
        }
        r
    }

    /// The rows of the histogram, one for each bin in order.
    pub fn rows(&self) -> (v: Vec<BinRow>)
        requires
            self.wf(),
        ensures
            v.len() == self.data.len(),
            forall|i: int| 0 <= i < v.len() ==> v[i] == self.row_of(i),
            forall|i: int| 0 <= i < v.len() ==> (#[trigger] v[i]).blocks <= self.max_blocks,
            forall|i: int|
                0 <= i < v.len() ==> (#[trigger] v[i]).start == bin_low(
                    self.starting_range as int,
                    self.bin_width as int,
                    i,
                ) && v[i].end == v[i].start + self.bin_width - 1,
    {
        let scale = self.scale();
        let mut v: Vec<BinRow> = Vec::new();
        let mut i: usize = 0;
        proof {
            lemma_width(
                self.starting_range as int,
                self.ending_range as int,
                self.data.len() as int,
            );
        }
        while i < self.data.len()
            invariant
                i <= self.data.len(),
                self.wf(),
                scale == self.scale_of(),
                scale >= 1,
                forall|k: int| 0 <= k < self.data.len() ==> self.data@[k] / scale <= self.max_blocks,
                1 <= self.bin_width,
                self.data.len() * self.bin_width <= self.ending_range - self.starting_range
                    + self.data.len(),
                v.len() == i,
                forall|k: int| 0 <= k < i ==> v[k] == self.row_of(k),
                forall|k: int| 0 <= k < i ==> (#[trigger] v[k]).blocks <= self.max_blocks,
                forall|k: int|
                    0 <= k < i ==> (#[trigger] v[k]).start == bin_low(
                        self.starting_range as int,
                        self.bin_width as int,
                        k,
                    ) && v[k].end == v[k].start + self.bin_width - 1,
            decreases self.data.len() - i,
        {
            proof {
                let n = self.data.len() as int;
                let w = self.bin_width as int;
                let k = i as int;
                assert(0 <= k * w && k * w + w <= n * w) by (nonlinear_arith)
                    requires
                        0 <= k < n,
                        w >= 1,
                ;
            }
            let start: i64 = self.starting_range as i64 + (i as i64) * self.bin_width;
            let end: i64 = start + self.bin_width - 1;
            let count: usize = self.data[i];
            v.push(BinRow { start, end, count, blocks: count / scale });
            i += 1;
        }
        v
    }
}

} // verus!
