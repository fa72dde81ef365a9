use histogram::bars::BinRow;
use histogram::bins::{HistogramInt, RangeError};
use histogram::histogram::{get_histogram, Args, HistogramError};
use histogram::samples::{digit_str, join_samples, push_decimal};
use histogram::stats::{get_statistics, Statistics};
use histogram::text::{chars_of, find_field_end, is_space_char, locate, parse_int, trim_range};

fn uniform_10000() -> String {
    let mut s = String::new();
    for i in 1..=10000 {
        if i > 1 {
            s.push(',');
        }
        s.push_str(&format!("{}", i));
        if i % 100 == 0 {
            s.push('\n');
        }
    }
    s
}

fn args(bin_count: i32, start: Option<i32>, end: Option<i32>) -> Args {
    Args {
        filename: String::from("tests/test_uniform_10000.csv"),
        bin_count,
        starting_range: start,
        ending_range: end,
        max_blocks: 30,
    }
}

#[test]
fn test_uniform_10000_range_1_100_bin_10() {
    let args = Args {
        filename: String::from("tests/test_uniform_10000.csv"),
        bin_count: 10,
        starting_range: Some(1),
        ending_range: Some(10000),
        max_blocks: 30,
    };

    let histo = get_histogram(&args, &uniform_10000()).unwrap();

    assert_eq!([1000].repeat(10), histo.data);
}

#[test]
fn test_uniform_10000_range_1_100_bin_100() {
    let args = Args {
        filename: String::from("tests/test_uniform_10000.csv"),
        bin_count: 100,
        starting_range: Some(1),
        ending_range: Some(10000),
        max_blocks: 30,
    };

    let histo = get_histogram(&args, &uniform_10000()).unwrap();
    assert_eq!([100].repeat(100), histo.data);
}

#[test]
fn test_uniform_10000_no_range_specified_bin_10() {
    let args = Args {
        filename: String::from("tests/test_uniform_10000.csv"),
        bin_count: 10,
        starting_range: None,
        ending_range: None,
        max_blocks: 30,
    };

    let histo = get_histogram(&args, &uniform_10000()).unwrap();
    assert_eq!([1000].repeat(10), histo.data);
}

#[test]
fn test_uniform_10000_starting_larger_than_ending() {
    let args = Args {
        filename: String::from("tests/test_uniform_10000.csv"),
        bin_count: 10,
        starting_range: Some(10000),
        ending_range: Some(1),
        max_blocks: 30,
    };

    let histo = get_histogram(&args, &uniform_10000());
    assert!(histo.is_err())
}

#[test]
fn uniform_statistics() {
    let s = get_statistics(&uniform_10000()).unwrap();
    assert_eq!(s.size_of_data, 10000);
    assert_eq!(s.sum, 50005000);
    assert_eq!(s.min, 1);
    assert_eq!(s.max, 10000);
    assert_eq!(s.mode, 1);
    assert_eq!(s.mode_count, 1);
    assert_eq!(s.num_freq_map.len(), 10000);
}

#[test]
fn default_range_gives_the_same_bins_as_the_explicit_one() {
    let text = uniform_10000();
    let a = get_histogram(&args(10, Some(1), Some(10000)), &text).unwrap();
    let b = get_histogram(&args(10, None, None), &text).unwrap();
    assert_eq!(a.data, b.data);
    assert_eq!(a.bin_width, b.bin_width);
    assert_eq!(a.starting_range, b.starting_range);
    assert_eq!(a.ending_range, b.ending_range);
}

#[test]
fn statistics_of_a_small_text() {
    let s = get_statistics("3, 1,2 ,3\n\n 7,,1,3,\n").unwrap();
    assert_eq!(s.size_of_data, 7);
    assert_eq!(s.sum, 20);
    assert_eq!(s.min, 1);
    assert_eq!(s.max, 7);
    assert_eq!(s.mode, 3);
    assert_eq!(s.mode_count, 3);
    assert_eq!(s.num_freq_map.len(), 4);
    assert_eq!(s.num_freq_map[&1], 2);
    assert_eq!(s.num_freq_map[&2], 1);
    assert_eq!(s.num_freq_map[&3], 3);
    assert_eq!(s.num_freq_map[&7], 1);
}

#[test]
fn count_is_the_sum_of_the_frequencies() {
    let s = get_statistics("5,5,4,9,-2,4,5,0,0").unwrap();
    let total: usize = s.num_freq_map.values().sum();
    assert_eq!(s.size_of_data, total);
    assert!(s.min <= s.mode && s.mode <= s.max);
    assert_eq!(s.num_freq_map[&s.mode], s.mode_count);
    assert!(s.num_freq_map.values().all(|c| *c <= s.mode_count));
}

#[test]
fn the_first_value_to_reach_the_highest_count_is_the_mode() {
    let s = get_statistics("4,8,8,4").unwrap();
    assert_eq!(s.mode, 8);
    assert_eq!(s.mode_count, 2);
    let s = get_statistics("4,8,4,8").unwrap();
    assert_eq!(s.mode, 4);
    assert_eq!(s.mode_count, 2);
}

#[test]
fn empty_text_gives_empty_statistics() {
    for text in ["", "  ", ",,\n,\n", "\n"] {
        let s = get_statistics(text).unwrap();
        assert_eq!(s.size_of_data, 0);
        assert_eq!(s.sum, 0);
        assert_eq!(s.min, i32::MAX);
        assert_eq!(s.max, i32::MIN);
        assert_eq!(s.mode, 0);
        assert_eq!(s.mode_count, 0);
        assert!(s.num_freq_map.is_empty());
    }
}

#[test]
fn new_statistics_are_empty() {
    let s = Statistics::new();
    assert_eq!(s.size_of_data, 0);
    assert_eq!(s.sum, 0);
    assert_eq!(s.min, i32::MAX);
    assert_eq!(s.max, i32::MIN);
    assert!(s.num_freq_map.is_empty());
}

#[test]
fn record_adds_one_value() {
    let mut s = Statistics::new();
    s.record(-4);
    s.record(9);
    s.record(-4);
    assert_eq!(s.size_of_data, 3);
    assert_eq!(s.sum, 1);
    assert_eq!(s.min, -4);
    assert_eq!(s.max, 9);
    assert_eq!(s.mode, -4);
    assert_eq!(s.mode_count, 2);
    let mut entries = s.entries();
    entries.sort();
    assert_eq!(entries, vec![(-4, 2), (9, 1)]);
}

#[test]
fn a_bad_token_is_reported_with_its_place() {
    let e = get_statistics("12,ab,7").err().unwrap();
    assert_eq!(e.line, 0);
    assert_eq!(e.offset, 3);
    assert_eq!(e.token, "ab");
}

#[test]
fn a_bad_token_on_a_later_line() {
    let e = get_statistics("1,2\n3, 4\n 5,  x7 ,8\n9").err().unwrap();
    assert_eq!(e.line, 2);
    assert_eq!(e.offset, 5);
    assert_eq!(e.token, "x7");
}

#[test]
fn the_first_bad_token_is_the_one_reported() {
    let e = get_statistics("1,2.5,zz").err().unwrap();
    assert_eq!((e.line, e.offset), (0, 2));
    assert_eq!(e.token, "2.5");
}

#[test]
fn offsets_count_characters() {
    let e = get_statistics("\u{00e9}1,2").err().unwrap();
    assert_eq!((e.line, e.offset), (0, 0));
    assert_eq!(e.token, "\u{00e9}1");
    let e = get_statistics("1,\u{3000}\u{00e9}\u{00a0},2").err().unwrap();
    assert_eq!((e.line, e.offset), (0, 3));
    assert_eq!(e.token, "\u{00e9}");
}

#[test]
fn a_parse_error_comes_before_a_range_error() {
    let r = get_histogram(&args(10, Some(10), Some(1)), "1,2,q");
    match r {
        Err(HistogramError::Parse(e)) => assert_eq!(e.token, "q"),
        _ => panic!("a parse error was expected"),
    }
}

#[test]
fn integers_at_the_limits() {
    let s = get_statistics("2147483647,-2147483648,+17,-0,007").unwrap();
    assert_eq!(s.size_of_data, 5);
    assert_eq!(s.max, i32::MAX);
    assert_eq!(s.min, i32::MIN);
    assert_eq!(s.sum, 23);
    assert_eq!(get_statistics("2147483648").err().unwrap().token, "2147483648");
    assert_eq!(get_statistics("-2147483649").err().unwrap().token, "-2147483649");
    assert_eq!(
        get_statistics("99999999999999999999999999").err().unwrap().token,
        "99999999999999999999999999"
    );
    assert!(get_statistics("-").is_err());
    assert!(get_statistics("+").is_err());
    assert!(get_statistics("1 2").is_err());
    assert!(get_statistics("--1").is_err());
    assert!(get_statistics("1-").is_err());
}

#[test]
fn the_sum_does_not_wrap() {
    let s = get_statistics("2147483647,2147483647,2147483647").unwrap();
    assert_eq!(s.sum, 6442450941);
    let s = get_statistics("-2147483648,-2147483648").unwrap();
    assert_eq!(s.sum, -4294967296);
}

#[test]
fn parse_int_reads_a_token() {
    let text = chars_of("ab-123cd");
    assert_eq!(parse_int(&text, 2, 6), Some(-123));
    assert_eq!(parse_int(&text, 3, 6), Some(123));
    assert_eq!(parse_int(&text, 3, 5), Some(12));
    assert_eq!(parse_int(&text, 2, 3), None);
    assert_eq!(parse_int(&text, 3, 3), None);
    assert_eq!(parse_int(&text, 1, 6), None);
    assert_eq!(parse_int(&text, 3, 7), None);
}

#[test]
fn fields_and_trimming() {
    let text = chars_of(" 12 ,\t7\n");
    assert_eq!(text.len(), 8);
    assert_eq!(find_field_end(&text, 0), 4);
    assert_eq!(find_field_end(&text, 4), 4);
    assert_eq!(find_field_end(&text, 5), 7);
    assert_eq!(find_field_end(&text, 8), 8);
    assert_eq!(trim_range(&text, 0, 4), (1, 3));
    assert_eq!(trim_range(&text, 5, 7), (6, 7));
    assert_eq!(trim_range(&text, 0, 1), (1, 1));
    assert_eq!(locate(&text, 0), (0, 0));
    assert_eq!(locate(&text, 6), (0, 6));
    assert_eq!(locate(&text, 8), (1, 0));
}

#[test]
fn white_space_is_what_unicode_lists() {
    for c in [' ', '\t', '\n', '\r', '\u{b}', '\u{c}', '\u{85}', '\u{a0}', '\u{1680}', '\u{2000}',
        '\u{200a}', '\u{2028}', '\u{2029}', '\u{202f}', '\u{205f}', '\u{3000}']
    {
        assert!(is_space_char(c));
        assert!(c.is_whitespace());
    }
    for c in ['a', '0', ',', '\u{200b}', '\u{feff}', '\u{1c}', '\u{8}', '\u{e}'] {
        assert!(!is_space_char(c));
    }
    for n in 0..=0x10ffffu32 {
        if let Some(c) = char::from_u32(n) {
            assert_eq!(is_space_char(c), c.is_whitespace());
        }
    }
}

#[test]
fn each_range_error() {
    let text = "10,20,30";
    let r = |start, end| match get_histogram(&args(4, start, end), text) {
        Err(HistogramError::Range(e)) => Some(e),
        _ => None,
    };
    assert_eq!(r(Some(31), Some(40)), Some(RangeError::StartAboveMax));
    assert_eq!(r(Some(31), Some(5)), Some(RangeError::StartAboveMax));
    assert_eq!(r(Some(1), Some(9)), Some(RangeError::EndBelowMin));
    assert_eq!(r(Some(25), Some(9)), Some(RangeError::EndBelowMin));
    assert_eq!(r(Some(20), Some(20)), Some(RangeError::StartNotBelowEnd));
    assert_eq!(r(Some(25), Some(15)), Some(RangeError::StartNotBelowEnd));
    assert_eq!(r(Some(30), Some(31)), None);
    assert_eq!(r(Some(9), Some(10)), None);
    assert_eq!(r(None, Some(10)), Some(RangeError::StartNotBelowEnd));
}

#[test]
fn a_single_value_has_no_range_of_its_own() {
    match get_histogram(&args(3, None, None), "5,5,5") {
        Err(HistogramError::Range(e)) => assert_eq!(e, RangeError::StartNotBelowEnd),
        _ => panic!("a range error was expected"),
    }
    match get_histogram(&args(3, None, None), "") {
        Err(HistogramError::Range(e)) => assert_eq!(e, RangeError::StartAboveMax),
        _ => panic!("a range error was expected"),
    }
}

#[test]
fn range_error_messages() {
    assert_eq!(
        RangeError::StartAboveMax.message(),
        "Starting range is greater than the maximum value present in data."
    );
    assert_eq!(
        RangeError::EndBelowMin.message(),
        "Ending range is less than the minimum value present in data."
    );
    assert_eq!(
        RangeError::StartNotBelowEnd.message(),
        "Starting range must be less than the ending range."
    );
}

#[test]
fn bin_width_rounds_up_and_values_outside_are_dropped() {
    let text = "1,2,3,4,5,6,7,8,9,10,11,12,0,-3,40,7,7";
    let h = get_histogram(&args(3, Some(1), Some(10)), text).unwrap();
    assert_eq!(h.bin_width, 4);
    assert_eq!(h.data, vec![4, 6, 2]);
    assert_eq!(h.starting_range, 1);
    assert_eq!(h.ending_range, 10);
    assert_eq!(h.max_blocks, 30);
    assert_eq!(h.statistics.size_of_data, 17);
    let inside = [1, 2, 3, 4, 5, 6, 7, 8, 9, 10, 7, 7].len();
    assert_eq!(h.data.iter().sum::<usize>(), inside);
}

#[test]
fn bins_beyond_the_range_stay_empty() {
    let h = get_histogram(&args(8, Some(0), Some(9)), "0,1,2,3,4,5,6,7,8,9,10,11").unwrap();
    assert_eq!(h.bin_width, 2);
    assert_eq!(h.data, vec![2, 2, 2, 2, 2, 0, 0, 0]);
}

#[test]
fn the_widest_range_in_one_bin() {
    let h = get_histogram(&args(1, None, None), "-2147483648,2147483647,0").unwrap();
    assert_eq!(h.bin_width, 4294967296);
    assert_eq!(h.data, vec![3]);
    let h = get_histogram(&args(2, None, None), "-2147483648,2147483647,0,-1").unwrap();
    assert_eq!(h.bin_width, 2147483648);
    assert_eq!(h.data, vec![2, 2]);
}

#[test]
fn binning_twice_gives_the_same_histogram() {
    let text = "3,9,27,81,243,3,9,1,1,1,700";
    let a = HistogramInt::new(get_statistics(text).unwrap(), 7, Some(2), None, 12).unwrap();
    let b = HistogramInt::new(get_statistics(text).unwrap(), 7, Some(2), None, 12).unwrap();
    assert_eq!(a.data, b.data);
    assert_eq!(a.bin_width, b.bin_width);
    assert_eq!(a.starting_range, b.starting_range);
    assert_eq!(a.ending_range, b.ending_range);
    assert_eq!(a.max_blocks, b.max_blocks);
    assert_eq!(a.scale(), b.scale());
    assert_eq!(a.rows(), b.rows());
    assert_eq!(a.bin_width, 100);
    assert_eq!(a.data, vec![6, 0, 1, 0, 0, 0, 1]);
}

#[test]
fn unit_width_is_flagged() {
    let h = get_histogram(&args(10, Some(1), Some(10)), "1,2,3,10").unwrap();
    assert_eq!(h.bin_width, 1);
    assert!(h.no_range());
    let h = get_histogram(&args(5, Some(1), Some(10)), "1,2,3,10").unwrap();
    assert_eq!(h.bin_width, 2);
    assert!(!h.no_range());
}

#[test]
fn scale_and_rows() {
    let h = get_histogram(&args(10, Some(1), Some(10000)), &uniform_10000()).unwrap();
    assert_eq!(h.largest_bin_qty(), 1000);
    assert_eq!(h.scale(), 33);
    let rows = h.rows();
    assert_eq!(rows.len(), 10);
    assert_eq!(rows[0], BinRow { start: 1, end: 1000, count: 1000, blocks: 30 });
    assert_eq!(rows[9], BinRow { start: 9001, end: 10000, count: 1000, blocks: 30 });
    for row in rows {
        assert!(row.blocks <= 30);
    }
}

#[test]
fn small_counts_are_drawn_one_block_each() {
    let h = HistogramInt::new(get_statistics("1,1,2,4,4,4").unwrap(), 2, None, None, 3).unwrap();
    assert_eq!(h.data, vec![3, 3]);
    assert_eq!(h.scale(), 1);
    assert_eq!(h.rows()[1], BinRow { start: 3, end: 4, count: 3, blocks: 3 });
    let h = HistogramInt::new(get_statistics("1,1,2,4,4,4,4").unwrap(), 2, None, None, 3).unwrap();
    assert_eq!(h.data, vec![3, 4]);
    assert_eq!(h.scale(), 2);
    assert_eq!(h.rows()[0], BinRow { start: 1, end: 2, count: 3, blocks: 1 });
    assert_eq!(h.rows()[1], BinRow { start: 3, end: 4, count: 4, blocks: 2 });
}

#[test]
fn parse_int_agrees_with_the_standard_parser() {
    let tokens = [
        "0", "1", "-1", "+1", "00", "-00", "+0", "2147483647", "2147483648", "-2147483648",
        "-2147483649", "+2147483647", "+2147483648", "4294967296", "18446744073709551616", "",
        "+", "-", "++1", "+-1", "1+", "1_000", "0x10", "1e3", "1.0", " 1", "1 ", "\u{661}",
        "12a", "a12", "000000000000000000000000000012", "-000000000002147483648",
    ];
    for token in tokens {
        let text = chars_of(token);
        assert_eq!(parse_int(&text, 0, text.len()), token.parse::<i32>().ok(), "{:?}", token);
    }
}

#[test]
fn a_histogram_never_holds_more_than_the_data() {
    let text = "5,1,9,3,3,3,8,-4,12,7,7";
    let s = get_statistics(text).unwrap();
    let size = s.size_of_data;
    let h = HistogramInt::new(s, 4, Some(0), Some(8), 30).unwrap();
    assert_eq!(h.bin_width, 3);
    assert_eq!(h.data, vec![1, 4, 3, 0]);
    assert_eq!(h.data.iter().sum::<usize>(), 8);
    assert!(h.data.iter().sum::<usize>() <= size);
}

#[test]
fn samples_are_joined_with_commas() {
    assert_eq!(join_samples(&vec![]), "");
    assert_eq!(join_samples(&vec![0]), "0");
    assert_eq!(join_samples(&vec![7, 10, 0, 123456]), "7,10,0,123456");
    assert_eq!(join_samples(&vec![u64::MAX, 1]), "18446744073709551615,1");
}

#[test]
fn decimal_digits() {
    let mut out = String::from("n=");
    push_decimal(&mut out, 9070);
    assert_eq!(out, "n=9070");
    push_decimal(&mut out, 0);
    assert_eq!(out, "n=90700");
    assert_eq!(digit_str(0), "0");
    assert_eq!(digit_str(9), "9");
    for n in [0u64, 5, 10, 99, 100, 101, 4294967295, u64::MAX] {
        let mut s = String::new();
        push_decimal(&mut s, n);
        assert_eq!(s, n.to_string());
    }
}

#[test]
fn what_was_written_is_read_back() {
    let values: Vec<u64> = vec![12, 0, 7, 7, 2147483647, 7, 3];
    let text = join_samples(&values);
    let s = get_statistics(&text).unwrap();
    assert_eq!(s.size_of_data, 7);
    assert_eq!(s.sum, 2147483647 + 36);
    assert_eq!(s.min, 0);
    assert_eq!(s.max, i32::MAX);
    assert_eq!(s.mode, 7);
    assert_eq!(s.mode_count, 3);
    let mut entries = s.entries();
    entries.sort();
    assert_eq!(entries, vec![(0, 1), (3, 1), (7, 3), (12, 1), (2147483647, 1)]);
}
