//! Summary statistics of a sequence of integers, gathered in one pass.
use crate::text::{
    after, chars_of, find_field_end, line_of, line_start, locate, parse_int, scan, scan_from,
    trim_range,
};
use std::collections::HashMap;
use vstd::prelude::*;
use vstd::std_specs::iter::IteratorSpec;
use vstd::string::*;

verus! {

broadcast use vstd::std_specs::hash::group_hash_axioms;

/// How often `k` occurs in `vals`.
pub open spec fn occurrences(vals: Seq<i32>, k: i32) -> nat
    decreases vals.len(),
{
    if vals.len() == 0 {
        0
    } else {
        occurrences(vals.drop_last(), k) + if vals.last() == k {
            1nat
        } else {
            0nat
        }
    }
}

/// The sum of `vals`.
pub open spec fn total(vals: Seq<i32>) -> int
    decreases vals.len(),
{
    if vals.len() == 0 {
        0
    } else {
        total(vals.drop_last()) + vals.last()
    }
}

/// The map from each value of `vals` to the number of its occurrences.
pub open spec fn freq_of(vals: Seq<i32>) -> Map<i32, usize> {
    Map::new(|k: i32| vals.contains(k), |k: i32| occurrences(vals, k) as usize)
}

/// The mode of `vals` and its count. Reading `vals` from the front, the mode
/// changes only when a value's count so far exceeds every count reached
/// before, so that among values of equal count the one that reached it first
/// stays.
pub open spec fn mode_of(vals: Seq<i32>) -> (i32, nat)
    decreases vals.len(),
{
    if vals.len() == 0 {
        (0, 0)
    } else {
        let before = mode_of(vals.drop_last());
        let c = occurrences(vals, vals.last());
        if c > before.1 {
            (vals.last(), c)
        } else {
            before
        }
    }
}

/// What a frequency map counts under key `k`: nothing where `k` is no key.
pub open spec fn count_at(m: Map<i32, usize>, k: int) -> nat {
    if i32::MIN <= k <= i32::MAX && m.contains_key(k as i32) {
        m[k as i32] as nat
    } else {
        0
    }
}

/// The sum of the counts that `m` holds under the keys from `lo` to `hi`,
/// both included.
pub open spec fn count_in(m: Map<i32, usize>, lo: int, hi: int) -> nat
    decreases hi - lo + 1,
{
    if hi < lo {
        0
    } else {
        count_in(m, lo, hi - 1) + count_at(m, hi)
    }
}

/// The statistics of the values read from a text.
#[derive(Debug)]
pub struct Statistics {
    /// The value that occurs most often; 0 where there is no value.
    pub mode: i32,
    /// How often the mode occurs.
    pub mode_count: usize,
    /// The number of values.
    pub size_of_data: usize,
    /// The sum of the values.
    pub sum: i128,
    /// The least value; `i32::MAX` where there is no value.
    pub min: i32,
    /// The greatest value; `i32::MIN` where there is no value.
    pub max: i32,
    /// The number of occurrences of each value.
    pub num_freq_map: HashMap<i32, usize>,
}

/// A token that writes no integer, and where it stands.
#[derive(Debug)]
pub struct ParseError {
    /// The line of the token, counted from zero.
    pub line: usize,
    /// The offset in characters of the token's first character within its
    /// line, counted from zero.
    pub offset: usize,
    /// The token, without the white space around it.
    pub token: String,
}

impl ParseError {
    /// Whether this error reports the token at positions `a..b` of `text`.
    pub open spec fn reports(&self, text: Seq<char>, a: int, b: int) -> bool {
        &&& self.line == line_of(text, a)
        &&& self.offset == a - line_start(text, a)
        &&& self.token@ == text.subrange(a, b)
    }
}

impl Statistics {
    /// The invariant of the type, over the frequency map: the size is the sum
    /// of all counts, every key lies between the extrema, no count exceeds
    /// that of the mode, and, where there is a value, the mode lies between
    /// the extrema and all three are keys.
    pub open spec fn wf(&self) -> bool {
        let m = self.num_freq_map@;
        &&& self.size_of_data == count_in(m, i32::MIN as int, i32::MAX as int)
        &&& -(self.size_of_data * 2147483648) <= self.sum <= self.size_of_data * 2147483648
        &&& forall|k: i32| #[trigger]
            m.contains_key(k) ==> 1 <= m[k] <= self.mode_count && self.min <= k <= self.max
        &&& self.size_of_data > 0 ==> {
            &&& self.min <= self.mode <= self.max
            &&& m.contains_key(self.mode)
            &&& m[self.mode] == self.mode_count
            &&& m.contains_key(self.min)
            &&& m.contains_key(self.max)
        }
        &&& self.size_of_data == 0 ==> {
            &&& self.mode == 0
            &&& self.mode_count == 0
            &&& self.min == i32::MAX
            &&& self.max == i32::MIN
        }
    }

    /// Whether these are the statistics of `vals`, read in that order.
    pub open spec fn models(&self, vals: Seq<i32>) -> bool {
        &&& self.size_of_data == vals.len()
        &&& self.sum == total(vals)
        &&& self.num_freq_map@ == freq_of(vals)
        &&& (self.mode, self.mode_count as nat) == mode_of(vals)
        &&& vals.len() == 0 ==> self.min == i32::MAX && self.max == i32::MIN
        &&& vals.len() > 0 ==> vals.contains(self.min) && vals.contains(self.max)
        &&& forall|i: int| 0 <= i < vals.len() ==> self.min <= #[trigger] vals[i] <= self.max
    }

    /// The statistics of no values.
    pub fn new() -> (s: Statistics)
        ensures
            s.wf(),
            s.models(Seq::empty()),
            s.mode == 0,
            s.mode_count == 0,
            s.size_of_data == 0,
            s.sum == 0,
            s.min == i32::MAX,
            s.max == i32::MIN,
            s.num_freq_map@ == Map::<i32, usize>::empty(),
    {
        let s = Statistics {
            mode: 0,
            mode_count: 0,
            size_of_data: 0,
            sum: 0,
            min: i32::MAX,
            max: i32::MIN,
            num_freq_map: HashMap::new(),
        };
        proof {
            lemma_count_in_absent(s.num_freq_map@, i32::MIN as int, i32::MAX as int);
            assert(s.num_freq_map@ =~= freq_of(Seq::empty()));
        }
        s
    }

    /// Takes one more value into the statistics.
    pub fn record(&mut self, num: i32)
        requires
            old(self).wf(),
            old(self).size_of_data < usize::MAX,
        ensures
            final(self).wf(),
            forall|vals: Seq<i32>| old(self).models(vals) ==> final(self).models(vals.push(num)),
            final(self).size_of_data == old(self).size_of_data + 1,
            final(self).sum == old(self).sum + num,
            final(self).min == if num < old(self).min {
                num
            } else {
                old(self).min
            },
            final(self).max == if num > old(self).max {
                num
            } else {
                old(self).max
            },
            (final(self).mode, final(self).mode_count) == if count_at(
                old(self).num_freq_map@,
                num as int,
            ) + 1 > old(self).mode_count {
                (num, (count_at(old(self).num_freq_map@, num as int) + 1) as usize)
            } else {
                (old(self).mode, old(self).mode_count)
            },
            final(self).num_freq_map@ == old(self).num_freq_map@.insert(
                num,
                (count_at(old(self).num_freq_map@, num as int) + 1) as usize,
            ),
    {
        let ghost pre = *old(self);
        let ghost m = pre.num_freq_map@;
        proof {
            lemma_count_at_most(m, num as int, i32::MIN as int, i32::MAX as int);
        }
        self.size_of_data = self.size_of_data + 1;
        self.sum = self.sum + (num as i128);
        if num > self.max {
            self.max = num;
        }
        if num < self.min {
            self.min = num;
        }
        let seen: usize = match self.num_freq_map.get(&num) {
            Some(c) => *c,
            None => 0,
        };
        assert(seen == count_at(m, num as int));
        let count: usize = seen + 1;
        self.num_freq_map.insert(num, count);
        if count > self.mode_count {
            self.mode_count = count;
            self.mode = num;
        }
        proof {
            lemma_count_in_insert(m, num, count, i32::MIN as int, i32::MAX as int);
            assert forall|vals: Seq<i32>| pre.models(vals) implies self.models(
                vals.push(num),
            ) by {
                lemma_push(vals, num);
                let after = vals.push(num);
                lemma_occurrences(vals, num);
                assert(after.drop_last() =~= vals);
                assert(after.last() == num);
                assert(after[vals.len() as int] == num);
                assert forall|k: i32| #[trigger] after.contains(k) <==> (vals.contains(k) || k == num) by {
                    if vals.contains(k) {
                        let j = choose|j: int| 0 <= j < vals.len() && vals[j] == k;
                        assert(after[j] == k);
                    }
                }
                assert forall|k: i32| after.contains(k) implies #[trigger] freq_of(after)[k]
                    == self.num_freq_map@[k] by {
                    lemma_occurrences(vals, k);
                }
                assert(self.num_freq_map@ =~= freq_of(after));
                if vals.len() > 0 {
                    let i = choose|i: int| 0 <= i < vals.len() && vals[i] == pre.min;
                    assert(after[i] == pre.min);
                    let j = choose|j: int| 0 <= j < vals.len() && vals[j] == pre.max;
                    assert(after[j] == pre.max);
                }
            }
        }
    }

    /// The keys of the frequency map with their counts, each key once, in no
    /// particular order.
    pub fn entries(&self) -> (v: Vec<(i32, usize)>)
        ensures
            forall|j: int|
                0 <= j < v.len() ==> self.num_freq_map@.contains_key(#[trigger] v[j].0)
                    && self.num_freq_map@[v[j].0] == v[j].1,
            forall|i: int, j: int| 0 <= i < j < v.len() ==> v[i].0 != v[j].0,
            forall|k: i32|
                self.num_freq_map@.contains_key(k) ==> exists|j: int|
                    0 <= j < v.len() && #[trigger] v[j].0 == k,
    {
        let mut v: Vec<(i32, usize)> = Vec::new();
        let ghost m = self.num_freq_map@;
        for pair in it: self.num_freq_map.iter()
            invariant
                m == self.num_freq_map@,
                it.seq() == self.num_freq_map.iter().remaining(),
                it.seq().no_duplicates(),
                v.len() == it.index(),
                forall|j: int|
                    0 <= j < v.len() ==> (#[trigger] v[j]).0 == *it.seq()[j].0 && v[j].1
                        == *it.seq()[j].1,
        {
            v.push((*pair.0, *pair.1));
        }
        proof {
            let s = self.num_freq_map.iter().remaining();
            assert(v.len() == s.len());
            assert forall|j: int| 0 <= j < v.len() implies m.contains_key(#[trigger] v[j].0)
                && m[v[j].0] == v[j].1 by {
                assert(m.contains_key(*s[j].0));
                assert(v[j].0 == *s[j].0);
            }
            assert forall|i: int, j: int| 0 <= i < j < v.len() implies v[i].0 != v[j].0 by {
                if v[i].0 == v[j].0 {
                    assert(v[i].0 == *s[i].0 && v[j].0 == *s[j].0);
                    assert(m.contains_key(*s[i].0) && m[*s[i].0] == *s[i].1);
                    assert(m.contains_key(*s[j].0) && m[*s[j].0] == *s[j].1);
                    assert(s[i] == s[j]);
                }
            }
            assert forall|k: i32| m.contains_key(k) implies exists|j: int|
                0 <= j < v.len() && #[trigger] v[j].0 == k by {
                assert(s.contains((&k, &m[k])));
                let j = choose|j: int| 0 <= j < s.len() && s[j] == (&k, &m[k]);
                assert(v[j].0 == k);
            }
        }
        v
    }
}

/// Reads the integers of `contents` and gathers their statistics.
///
/// Commas and line feeds separate the fields. White space around a field is
/// dropped, and a field of white space alone is skipped. The first token that
/// is no decimal integer within `i32` ends the reading with an error that
/// names its line, its offset in that line (both counted from zero) and the
/// token itself.
pub fn get_statistics(contents: &str) -> (r: Result<Statistics, ParseError>)
    ensures
        match r {
            Ok(s) => match scan(contents@) {
                Ok(vals) => s.wf() && s.models(vals),
                Err(_) => false,
            },
            Err(e) => match scan(contents@) {
                Ok(_) => false,
                Err((a, b)) => e.reports(contents@, a, b),
            },
        },
{
    let text = chars_of(contents);
    let mut stats = Statistics::new();
    let ghost mut vals: Seq<i32> = Seq::empty();
    let mut pos: usize = 0;
    proof {
        match scan_from(text@, 0) {
            Ok(all) => {
                assert(vals + all =~= all);
            },
            Err(_) => {},
        }
    }
    while pos < text.len()
        invariant
            pos <= text.len(),
            text@ == contents@,
            stats.wf(),
            stats.models(vals),
            vals.len() <= pos,
            scan(text@) == after(vals, scan_from(text@, pos as int)),
        decreases text.len() - pos,
    {
        let end = find_field_end(&text, pos);
        let (a, b) = trim_range(&text, pos, end);
        let next: usize = if end < text.len() {
            end + 1
        } else {
            end
        };
        let ghost rest = scan_from(text@, next as int);
        if a < b {
            match parse_int(&text, a, b) {
                None => {
                    let (line, offset) = locate(&text, a);
                    let token = contents.substring_char(a, b).to_owned();
                    return Err(ParseError { line, offset, token });
                },
                Some(v) => {
                    stats.record(v);
                    proof {
                        match rest {
                            Ok(more) => {
                                assert(vals + (seq![v] + more) =~= vals.push(v) + more);
                            },
                            Err(_) => {},
                        }
                        vals = vals.push(v);
                    }
                },
            }
        }
        pos = next;
    }
    proof {
        assert(vals + Seq::<i32>::empty() =~= vals);
    }
    Ok(stats)
}

/// A map counts nothing over a range that holds none of its keys.
pub proof fn lemma_count_in_absent(m: Map<i32, usize>, lo: int, hi: int)
    requires
        forall|k: i32| lo <= k <= hi ==> !m.contains_key(k),
    ensures
        count_in(m, lo, hi) == 0,
    decreases hi - lo + 1,
{
    if hi >= lo {
        lemma_count_in_absent(m, lo, hi - 1);
    }
}

/// The count under one key of a range is at most the count over the range.
pub proof fn lemma_count_at_most(m: Map<i32, usize>, k: int, lo: int, hi: int)
    requires
        lo <= k <= hi,
    ensures
        count_at(m, k) <= count_in(m, lo, hi),
    decreases hi - lo + 1,
{
    if k < hi {
        lemma_count_at_most(m, k, lo, hi - 1);
    }
}

/// Setting the count under `k` to `v` changes the count over a range that
/// holds `k` by the difference, and that over any other range not at all.
pub proof fn lemma_count_in_insert(m: Map<i32, usize>, k: i32, v: usize, lo: int, hi: int)
    ensures
        count_in(m.insert(k, v), lo, hi) == if lo <= k <= hi {
            count_in(m, lo, hi) - count_at(m, k as int) + v
        } else {
            count_in(m, lo, hi) as int
        },
    decreases hi - lo + 1,
{
    if hi >= lo {
        lemma_count_in_insert(m, k, v, lo, hi - 1);
    }
}

/// A value occurs in a sequence at most as often as the sequence is long,
/// and at least once exactly where the sequence holds it.
pub proof fn lemma_occurrences(vals: Seq<i32>, k: i32)
    ensures
        occurrences(vals, k) <= vals.len(),
        occurrences(vals, k) > 0 <==> vals.contains(k),
    decreases vals.len(),
{
    if vals.len() > 0 {
        let front = vals.drop_last();
        lemma_occurrences(front, k);
        if front.contains(k) {
            let j = choose|j: int| 0 <= j < front.len() && front[j] == k;
            assert(vals[j] == k);
        }
        if vals.contains(k) && vals.last() != k {
            let j = choose|j: int| 0 <= j < vals.len() && vals[j] == k;
            assert(front[j] == k);
        }
        if vals.last() == k {
            assert(vals[vals.len() - 1] == k);
        }
    }
}

/// After a push the sequence without its last value is the sequence before.
pub proof fn lemma_push(vals: Seq<i32>, num: i32)
    ensures
        vals.push(num).drop_last() == vals,
        vals.push(num).last() == num,
        vals.push(num).len() == vals.len() + 1,
{
    assert(vals.push(num).drop_last() =~= vals);
}

/// Removing the key `k` lowers the count over a range that holds `k` by the
/// count under `k`, and that over any other range not at all.
pub proof fn lemma_count_in_remove(m: Map<i32, usize>, k: i32, lo: int, hi: int)
    ensures
        count_in(m.remove(k), lo, hi) == if lo <= k <= hi {
            count_in(m, lo, hi) - count_at(m, k as int)
        } else {
            count_in(m, lo, hi) as int
        },
    decreases hi - lo + 1,
{
    if hi >= lo {
        lemma_count_in_remove(m, k, lo, hi - 1);
    }
}

/// The count over a range is the sum of the counts over its two parts.
pub proof fn lemma_count_in_split(m: Map<i32, usize>, lo: int, mid: int, hi: int)
    requires
        lo - 1 <= mid <= hi,
    ensures
        count_in(m, lo, hi) == count_in(m, lo, mid) + count_in(m, mid + 1, hi),
    decreases hi - mid,
{
    if mid < hi {
        lemma_count_in_split(m, lo, mid, hi - 1);
    }
}

/// The count over a range is at most the count over a range that holds it.
pub proof fn lemma_count_in_widen(m: Map<i32, usize>, lo: int, hi: int, low: int, high: int)
    requires
        low <= lo,
        hi <= high,
    ensures
        count_in(m, lo, hi) <= count_in(m, low, high),
{
    if lo <= hi {
        lemma_count_in_split(m, low, lo - 1, high);
        lemma_count_in_split(m, lo, hi, high);
    }
}

} // verus!
