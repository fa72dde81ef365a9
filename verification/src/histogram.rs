//! From the text of a file and the parameters of a run to a histogram.
use crate::bins::{bins_of, range_error, resolve, HistogramInt, RangeError};
use crate::stats::{get_statistics, ParseError, Statistics};
use crate::text::scan;
use vstd::prelude::*;

verus! {

/// The parameters of a run.
#[derive(Debug)]
pub struct Args {
    /// The name of the file that holds the text.
    pub filename: String,
    /// The number of bins.
    pub bin_count: i32,
    /// The least value to count; the least of the data where none is given.
    pub starting_range: Option<i32>,
    /// The greatest value to count; the greatest of the data where none is
    /// given.
    pub ending_range: Option<i32>,
    /// The greatest number of blocks that a bar is drawn with.
    pub max_blocks: i32,
}

/// Why a text gave no histogram.
#[derive(Debug)]
pub enum HistogramError {
    /// A token of the text is no integer.
    Parse(ParseError),
    /// The range cannot be binned over the data.
    Range(RangeError),
}

impl RangeError {
    /// The sentence that tells a reader what is wrong with the range.
    pub open spec fn message_of(self) -> Seq<char> {
        match self {
            RangeError::StartAboveMax => "Starting range is greater than the maximum value present in data."@,
            RangeError::EndBelowMin => "Ending range is less than the minimum value present in data."@,
            RangeError::StartNotBelowEnd => "Starting range must be less than the ending range."@,
        }
    }

    /// The sentence that tells a reader what is wrong with the range.
    pub fn message(&self) -> (s: &'static str)
        ensures
            s@ == self.message_of(),
    {
        match self {
            RangeError::StartAboveMax => "Starting range is greater than the maximum value present in data.",
            RangeError::EndBelowMin => "Ending range is less than the minimum value present in data.",
            RangeError::StartNotBelowEnd => "Starting range must be less than the ending range.",
        }
    }
}

/// Reads the integers of `contents`, gathers their statistics and bins them
/// as `args` asks. A token that is no integer is reported before any fault
/// of the range.
pub fn get_histogram(args: &Args, contents: &str) -> (r: Result<HistogramInt, HistogramError>)
    requires
        args.bin_count > 0,
        args.max_blocks > 0,
    ensures
        match r {
            Ok(h) => match scan(contents@) {
                Ok(vals) => h.statistics.models(vals) && bins_of(
                    Ok(h),
                    h.statistics,
                    args.bin_count,
                    args.starting_range,
                    args.ending_range,
                    args.max_blocks,
                ),
                Err(_) => false,
            },
            Err(HistogramError::Parse(e)) => match scan(contents@) {
                Ok(_) => false,
                Err((a, b)) => e.reports(contents@, a, b),
            },
            Err(HistogramError::Range(e)) => match scan(contents@) {
                Ok(vals) => exists|s: Statistics|
                    {
                        &&& s.wf()
                        &&& #[trigger] s.models(vals)
                        &&& range_error(
                            s,
                            resolve(s, args.starting_range, args.ending_range).0,
                            resolve(s, args.starting_range, args.ending_range).1,
                        ) == Some(e)
                    },
                Err(_) => false,
            },
        },
{
    let statistics = match get_statistics(contents) {
        Ok(s) => s,
        Err(e) => {
            return Err(HistogramError::Parse(e));
        },
    };
    let ghost gathered = statistics;
    match HistogramInt::new(
        statistics,
        args.bin_count,
        args.starting_range,
        args.ending_range,
        args.max_blocks,
    ) {
        Ok(h) => Ok(h),
        Err(e) => {
            proof {
                let vals = scan(contents@)->Ok_0;
                assert(gathered.models(vals));
            }
            Err(HistogramError::Range(e))
        },
    }
}

} // verus!
