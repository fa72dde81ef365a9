//! Writing integers as the text that the reader takes: decimal numbers with
//! commas between them.
use crate::text::{
    all_digits, digits_value, field_end, field_len, int_of, is_digit, is_separator, is_space, scan,
    scan_from, skip_spaces, trim_end,
};
use vstd::prelude::*;
use vstd::string::*;

verus! {

/// The character of the decimal digit `d`.
pub open spec fn digit_char(d: nat) -> char {
    ((48 + d) as u8) as char
}

/// The decimal digits of `n`, the most significant first, without leading
/// zeros.
pub open spec fn decimal(n: nat) -> Seq<char>
    decreases n,
{
    if n < 10 {
        seq![digit_char(n)]
    } else {
        decimal(n / 10).push(digit_char(n % 10))
    }
}

/// The numbers of `values` in decimal, in order, with a comma between each
/// two.
pub open spec fn joined(values: Seq<u64>) -> Seq<char>
    decreases values.len(),
{
    if values.len() == 0 {
        Seq::empty()
    } else if values.len() == 1 {
        decimal(values[0] as nat)
    } else {
        joined(values.drop_last()) + seq![','] + decimal(values.last() as nat)
    }
}

/// The decimal digits of a number are digits, and they write that number.
pub proof fn lemma_decimal_value(n: nat)
    ensures
        decimal(n).len() > 0,
        all_digits(decimal(n)),
        digits_value(decimal(n)) == n,
        n > 0 ==> decimal(n)[0] != '0',
    decreases n,
{
    if n < 10 {
        let s = seq![digit_char(n)];
        assert(s.drop_last() =~= Seq::<char>::empty());
        assert(digits_value(s.drop_last()) == 0);
        assert(is_digit(s[0]));
    } else {
        lemma_decimal_value(n / 10);
        let front = decimal(n / 10);
        let s = front.push(digit_char(n % 10));
        assert(s.drop_last() =~= front);
        assert(is_digit(s.last()));
        assert forall|i: int| 0 <= i < s.len() implies is_digit(#[trigger] s[i]) by {
            if i < front.len() {
                assert(s[i] == front[i]);
            }
        }
    }
}

/// The reader takes the decimal digits of a number within `i32` as that
/// number.
pub proof fn lemma_decimal_reads_back(n: nat)
    requires
        n <= i32::MAX,
    ensures
        int_of(decimal(n)) == Some(n as i32),
{
    lemma_decimal_value(n);
    assert(is_digit(decimal(n)[0]));
}

/// The values of `values` as the reader gives them back.
pub open spec fn read_back(values: Seq<u64>) -> Seq<i32> {
    Seq::new(values.len(), |i: int| values[i] as i32)
}

/// A field ends within the text.
pub proof fn lemma_field_end_bounds(t: Seq<char>, from: int)
    requires
        0 <= from <= t.len(),
    ensures
        from <= field_end(t, from) <= t.len(),
    decreases t.len() - from,
{
    if from < t.len() && !is_separator(t[from]) {
        lemma_field_end_bounds(t, from + 1);
    }
}

/// Text that follows a separator does not change where an earlier field
/// ends.
pub proof fn lemma_field_len_ext(t: Seq<char>, more: Seq<char>, from: int)
    requires
        0 <= from <= t.len(),
        more.len() > 0,
        is_separator(more[0]),
    ensures
        field_len(t + more, from) == field_len(t, from),
    decreases t.len() - from,
{
    let u = t + more;
    if from < t.len() {
        assert(u[from] == t[from]);
        if !is_separator(t[from]) {
            lemma_field_len_ext(t, more, from + 1);
        }
    } else {
        assert(u[from] == more[0]);
    }
}

/// Trimming within a text does not depend on what follows the text.
pub proof fn lemma_trim_ext(t: Seq<char>, more: Seq<char>, from: int, to: int)
    requires
        0 <= from <= to <= t.len(),
    ensures
        skip_spaces(t + more, from, to) == skip_spaces(t, from, to),
        trim_end(t + more, from, to) == trim_end(t, from, to),
        from <= skip_spaces(t, from, to) <= to,
        from <= trim_end(t, from, to) <= to,
    decreases to - from,
{
    let u = t + more;
    if from < to {
        assert(u[from] == t[from]);
        assert(u[to - 1] == t[to - 1]);
        if is_space(t[from]) {
            lemma_trim_ext(t, more, from + 1, to);
        }
        if is_space(t[to - 1]) {
            lemma_trim_ext(t, more, from, to - 1);
        }
    }
}

/// A run of digits up to the end of the text is one field.
pub proof fn lemma_field_len_digits(u: Seq<char>, p: int)
    requires
        0 <= p <= u.len(),
        forall|i: int| p <= i < u.len() ==> is_digit(#[trigger] u[i]),
    ensures
        field_len(u, p) == u.len() - p,
    decreases u.len() - p,
{
    if p < u.len() {
        assert(is_digit(u[p]));
        lemma_field_len_digits(u, p + 1);
    }
}

/// A text that ends with the decimal digits of `v` gives, read from where
/// they begin, the one value `v`.
pub proof fn lemma_scan_tail(u: Seq<char>, p: int, v: i32)
    requires
        0 <= p <= u.len(),
        v >= 0,
        u.subrange(p, u.len() as int) == decimal(v as nat),
    ensures
        scan_from(u, p) == Ok::<Seq<i32>, (int, int)>(seq![v]),
{
    let d = decimal(v as nat);
    let end = u.len() as int;
    lemma_decimal_value(v as nat);
    lemma_decimal_reads_back(v as nat);
    assert forall|i: int| p <= i < u.len() implies is_digit(#[trigger] u[i]) by {
        assert(u[i] == d[i - p]);
    }
    lemma_field_len_digits(u, p);
    assert(is_digit(u[p]));
    assert(is_digit(u[end - 1]));
    assert(skip_spaces(u, p, end) == p);
    assert(trim_end(u, p, end) == end);
    assert(seq![v] + Seq::<i32>::empty() =~= seq![v]);
}

/// Where a text reads as some values, the text followed by a comma and the
/// decimal digits of `v` reads as those values and then `v`.
pub proof fn lemma_scan_ext(t: Seq<char>, v: i32, from: int)
    requires
        0 <= from <= t.len(),
        v >= 0,
        scan_from(t, from) is Ok,
    ensures
        scan_from(t + seq![','] + decimal(v as nat), from) == Ok::<Seq<i32>, (int, int)>(
            scan_from(t, from)->Ok_0.push(v),
        ),
    decreases t.len() - from,
{
    let more = seq![','] + decimal(v as nat);
    let u = t + more;
    assert(t + seq![','] + decimal(v as nat) =~= u);
    assert(u.subrange(t.len() as int + 1, u.len() as int) =~= decimal(v as nat));
    assert(more[0] == ',');
    lemma_field_len_ext(t, more, from);
    if from == t.len() {
        assert(u[from] == ',');
        lemma_scan_tail(u, from + 1, v);
        assert(Seq::<i32>::empty().push(v) =~= seq![v]);
    } else {
        lemma_field_end_bounds(t, from);
        let end = field_end(t, from);
        lemma_trim_ext(t, more, from, end);
        let a = skip_spaces(t, from, end);
        lemma_trim_ext(t, more, a, end);
        let b = trim_end(t, a, end);
        assert(u.subrange(a, b) =~= t.subrange(a, b));
        let rest = if end < t.len() {
            scan_from(t, end + 1)
        } else {
            Ok(Seq::empty())
        };
        assert(rest is Ok);
        if end < t.len() {
            lemma_scan_ext(t, v, end + 1);
        } else {
            lemma_scan_tail(u, end + 1, v);
            assert(Seq::<i32>::empty().push(v) =~= seq![v]);
        }
        if a != b {
            let x = int_of(t.subrange(a, b))->Some_0;
            assert(seq![x] + rest->Ok_0.push(v) =~= (seq![x] + rest->Ok_0).push(v));
        }
    }
}

/// Reading what was written gives the values back: the text of values
/// within `i32` reads as those values, in order.
pub proof fn lemma_reads_back(values: Seq<u64>)
    requires
        forall|i: int| 0 <= i < values.len() ==> #[trigger] values[i] <= i32::MAX,
    ensures
        scan(joined(values)) == Ok::<Seq<i32>, (int, int)>(read_back(values)),
    decreases values.len(),
{
    if values.len() == 0 {
        assert(read_back(values) =~= Seq::<i32>::empty());
    } else if values.len() == 1 {
        let d = joined(values);
        assert(d.subrange(0, d.len() as int) =~= d);
        lemma_scan_tail(d, 0, values[0] as i32);
        assert(read_back(values) =~= seq![values[0] as i32]);
    } else {
        let front = values.drop_last();
        assert forall|i: int| 0 <= i < front.len() implies #[trigger] front[i] <= i32::MAX by {
            assert(front[i] == values[i]);
        }
        lemma_reads_back(front);
        lemma_scan_ext(joined(front), values.last() as i32, 0);
        assert(read_back(front).push(values.last() as i32) =~= read_back(values));
    }
}

/// The text of one decimal digit.
pub fn digit_str(d: u64) -> (s: &'static str)
    requires
        d < 10,
    ensures
        s@ == seq![digit_char(d as nat)],
{
    proof {
        reveal_strlit("0");
        reveal_strlit("1");
        reveal_strlit("2");
        reveal_strlit("3");
        reveal_strlit("4");
        reveal_strlit("5");
        reveal_strlit("6");
        reveal_strlit("7");
        reveal_strlit("8");
        reveal_strlit("9");
    }
    let s = if d == 0 {
        "0"
    } else if d == 1 {
        "1"
    } else if d == 2 {
        "2"
    } else if d == 3 {
        "3"
    } else if d == 4 {
        "4"
    } else if d == 5 {
        "5"
    } else if d == 6 {
        "6"
    } else if d == 7 {
        "7"
    } else if d == 8 {
        "8"
    } else {
        "9"
    };
    assert(s@ =~= seq![digit_char(d as nat)]);
    s
}

/// Appends the decimal digits of `n` to `out`.
pub fn push_decimal(out: &mut String, n: u64)
    ensures
        final(out)@ == old(out)@ + decimal(n as nat),
    decreases n,
{
    if n >= 10 {
        push_decimal(out, n / 10);
    }
    out.append(digit_str(n % 10));
    proof {
        if n >= 10 {
            assert(old(out)@ + decimal((n / 10) as nat) + seq![digit_char((n % 10) as nat)]
                =~= old(out)@ + decimal(n as nat));
        }
    }
}

/// The numbers of `values` in decimal, in order, with a comma between each
/// two.
pub fn join_samples(values: &Vec<u64>) -> (s: String)
    ensures
        s@ == joined(values@),
{
    let mut out = String::new();
    let mut i: usize = 0;
    while i < values.len()
        invariant
            i <= values.len(),
            out@ == joined(values@.take(i as int)),
        decreases values.len() - i,
    {
        let ghost before = out@;
        if i > 0 {
            proof {
                reveal_strlit(",");
            }
            out.append(",");
        }
        push_decimal(&mut out, values[i]);
        proof {
            let now = values@.take(i + 1);
            assert(now.drop_last() =~= values@.take(i as int));
            assert(now.last() == values@[i as int]);
            if i > 0 {
                assert(","@ =~= seq![',']);
            } else {
                assert(before =~= Seq::<char>::empty());
                assert(before + decimal(values@[i as int] as nat) =~= decimal(
                    values@[i as int] as nat,
                ));
            }
        }
        i += 1;
    }
    proof {
        assert(values@.take(i as int) =~= values@);
    }
    out
}

} // verus!
