//! Reading delimited integer text: fields, trimming and decimal integers.
//!
//! A text is a sequence of characters. Commas and line feeds separate its
//! fields; white space around a field does not belong to it, and a field
//! that holds nothing but white space is skipped.
use vstd::prelude::*;

verus! {

/// Whether `c` is one of the characters that Unicode lists as white space.
pub open spec fn is_space(c: char) -> bool {
    let n = c as u32;
    (0x09 <= n <= 0x0D) || n == 0x20 || n == 0x85 || n == 0xA0 || n == 0x1680 || (0x2000 <= n
        <= 0x200A) || n == 0x2028 || n == 0x2029 || n == 0x202F || n == 0x205F || n == 0x3000
}

/// Whether `c` ends a field: a comma or a line feed.
pub open spec fn is_separator(c: char) -> bool {
    c == ',' || c == '\n'
}

/// Whether `c` is a decimal digit.
pub open spec fn is_digit(c: char) -> bool {
    48 <= c as u32 <= 57
}

/// The number of characters from `from` up to the next separator, or up to
/// the end of the text where there is none.
pub open spec fn field_len(text: Seq<char>, from: int) -> nat
    decreases text.len() - from,
{
    if from < 0 || from >= text.len() || is_separator(text[from]) {
        0
    } else {
        1 + field_len(text, from + 1)
    }
}

/// The position of the first separator at or after `from`, or the length of
/// the text where there is none.
pub open spec fn field_end(text: Seq<char>, from: int) -> int {
    from + field_len(text, from)
}

/// The first position in `from..to` that holds no white space, or `to`.
pub open spec fn skip_spaces(text: Seq<char>, from: int, to: int) -> int
    decreases to - from,
{
    if from >= to || !is_space(text[from]) {
        from
    } else {
        skip_spaces(text, from + 1, to)
    }
}

/// The position after the last character in `from..to` that is no white
/// space, or `from`.
pub open spec fn trim_end(text: Seq<char>, from: int, to: int) -> int
    decreases to - from,
{
    if to <= from || !is_space(text[to - 1]) {
        to
    } else {
        trim_end(text, from, to - 1)
    }
}

/// The number that a run of decimal digits writes.
pub open spec fn digits_value(s: Seq<char>) -> int
    decreases s.len(),
{
    if s.len() == 0 {
        0
    } else {
        10 * digits_value(s.drop_last()) + (s.last() as u32 - 48)
    }
}

/// Whether every character of `s` is a decimal digit.
pub open spec fn all_digits(s: Seq<char>) -> bool {
    forall|i: int| 0 <= i < s.len() ==> is_digit(#[trigger] s[i])
}

/// The integer that a token writes: an optional `+` or `-`, then one or
/// more decimal digits, the whole within the range of `i32`. Any other
/// token writes none.
pub open spec fn int_of(token: Seq<char>) -> Option<i32> {
    let signed = token.len() > 0 && (token[0] == '-' || token[0] == '+');
    let digits = if signed {
        token.drop_first()
    } else {
        token
    };
    let magnitude = digits_value(digits);
    let value = if signed && token[0] == '-' {
        -magnitude
    } else {
        magnitude
    };
    if digits.len() > 0 && all_digits(digits) && i32::MIN <= value <= i32::MAX {
        Some(value as i32)
    } else {
        None
    }
}

/// The number of line feeds before position `pos`.
pub open spec fn line_of(text: Seq<char>, pos: int) -> int
    decreases pos,
{
    if pos <= 0 {
        0
    } else {
        line_of(text, pos - 1) + if text[pos - 1] == '\n' {
            1int
        } else {
            0int
        }
    }
}

/// The position at which the line that holds position `pos` begins.
pub open spec fn line_start(text: Seq<char>, pos: int) -> int
    decreases pos,
{
    if pos <= 0 {
        0
    } else if text[pos - 1] == '\n' {
        pos
    } else {
        line_start(text, pos - 1)
    }
}

/// What reading the text from position `from` on gives: the integers of
/// its fields in order, or the bounds of the first token that writes none.
pub open spec fn scan_from(text: Seq<char>, from: int) -> Result<Seq<i32>, (int, int)>
    decreases text.len() - from,
{
    if from < 0 || from >= text.len() {
        Ok(Seq::empty())
    } else {
        let end = field_end(text, from);
        let a = skip_spaces(text, from, end);
        let b = trim_end(text, a, end);
        let rest = if end < text.len() {
            scan_from(text, end + 1)
        } else {
            Ok(Seq::empty())
        };
        if a == b {
            rest
        } else {
            match int_of(text.subrange(a, b)) {
                None => Err((a, b)),
                Some(v) => after(seq![v], rest),
            }
        }
    }
}

/// The values `vals` followed by what the rest of a text gives.
pub open spec fn after(vals: Seq<i32>, rest: Result<Seq<i32>, (int, int)>) -> Result<
    Seq<i32>,
    (int, int),
> {
    match rest {
        Ok(more) => Ok(vals + more),
        Err(e) => Err(e),
    }
}

/// What reading a whole text gives.
pub open spec fn scan(text: Seq<char>) -> Result<Seq<i32>, (int, int)> {
    scan_from(text, 0)
}

/// The characters of a string slice, in order.
pub fn chars_of(s: &str) -> (v: Vec<char>)
    ensures
        v@ == s@,
{
    let mut v: Vec<char> = Vec::new();
    for c in it: s.chars()
        invariant
            it.seq() == s@,
            v@ == s@.take(it.index() as int),
    {
        v.push(c);
    }
    v
}

/// Tests a character for white space.
pub fn is_space_char(c: char) -> (b: bool)
    ensures
        b == is_space(c),
{
    let n: u32 = c as u32;
    (0x09 <= n && n <= 0x0D) || n == 0x20 || n == 0x85 || n == 0xA0 || n == 0x1680 || (0x2000 <= n
        && n <= 0x200A) || n == 0x2028 || n == 0x2029 || n == 0x202F || n == 0x205F || n == 0x3000
}

/// Finds the end of the field that starts at `from`.
pub fn find_field_end(text: &Vec<char>, from: usize) -> (end: usize)
    requires
        from <= text.len(),
    ensures
        end == field_end(text@, from as int),
        from <= end <= text.len(),
{
    let mut i: usize = from;
    while i < text.len() && !(text[i] == ',' || text[i] == '\n')
        invariant
            from <= i <= text.len(),
            from + field_len(text@, from as int) == i + field_len(text@, i as int),
        decreases text.len() - i,
    {
        i += 1;
    }
    i
}

/// Trims white space from both ends of `from..to`.
pub fn trim_range(text: &Vec<char>, from: usize, to: usize) -> (r: (usize, usize))
    requires
        from <= to <= text.len(),
    ensures
        r.0 == skip_spaces(text@, from as int, to as int),
        r.1 == trim_end(text@, r.0 as int, to as int),
        from <= r.0 <= r.1 <= to,
{
    let mut a: usize = from;
    while a < to && is_space_char(text[a])
        invariant
            from <= a <= to <= text.len(),
            skip_spaces(text@, from as int, to as int) == skip_spaces(text@, a as int, to as int),
        decreases to - a,
    {
        a += 1;
    }
    let mut b: usize = to;
    while a < b && is_space_char(text[b - 1])
        invariant
            a <= b <= to <= text.len(),
            trim_end(text@, a as int, to as int) == trim_end(text@, a as int, b as int),
        decreases b - a,
    {
        b -= 1;
    }
    (a, b)
}

/// Reads the token at `from..to` as a decimal integer.
pub fn parse_int(text: &Vec<char>, from: usize, to: usize) -> (r: Option<i32>)
    requires
        from <= to <= text.len(),
    ensures
        r == int_of(text@.subrange(from as int, to as int)),
{
    let ghost token = text@.subrange(from as int, to as int);
    let signed: bool = from < to && (text[from] == '-' || text[from] == '+');
    let negative: bool = signed && text[from] == '-';
    let start: usize = if signed {
        from + 1
    } else {
        from
    };
    let ghost digits = text@.subrange(start as int, to as int);
    proof {
        if signed {
            assert(token.drop_first() =~= digits);
        } else {
            assert(token =~= digits);
        }
    }
    let ghost sign = token.len() > 0 && (token[0] == '-' || token[0] == '+');
    if start == to {
        return None;
    }
    let limit: i64 = 2147483649;
    let mut acc: i64 = 0;
    let mut i: usize = start;
    while i < to
        invariant
            start <= i <= to <= text.len(),
            limit == 2147483649,
            digits == text@.subrange(start as int, to as int),
            token == text@.subrange(from as int, to as int),
            sign == (token.len() > 0 && (token[0] == '-' || token[0] == '+')),
            digits == if sign {
                token.drop_first()
            } else {
                token
            },
            negative == (sign && token[0] == '-'),
            all_digits(text@.subrange(start as int, i as int)),
            0 <= acc <= limit,
            acc == if digits_value(text@.subrange(start as int, i as int)) < limit {
                digits_value(text@.subrange(start as int, i as int))
            } else {
                limit as int
            },
        decreases to - i,
    {
        let n: u32 = text[i] as u32;
        if n < 48 || n > 57 {
            proof {
                assert(digits[i - start] == text@[i as int]);
            }
            return None;
        }
        let d: i64 = (n - 48) as i64;
        proof {
            let next = text@.subrange(start as int, i + 1);
            assert(next.drop_last() =~= text@.subrange(start as int, i as int));
            assert(next.last() == text@[i as int]);
            assert forall|j: int| 0 <= j < next.len() implies is_digit(#[trigger] next[j]) by {
                if j < i - start {
                    assert(next[j] == text@.subrange(start as int, i as int)[j]);
                }
            }
        }
        acc = acc * 10 + d;
        if acc > limit {
            acc = limit;
        }
        i += 1;
    }
    assert(text@.subrange(start as int, i as int) == digits);
    let value: i64 = if negative {
        -acc
    } else {
        acc
    };
    if value < -2147483648 || value > 2147483647 {
        None
    } else {
        Some(value as i32)
    }
}

/// The line and the offset within that line of position `pos`, both counted
/// from zero.
pub fn locate(text: &Vec<char>, pos: usize) -> (r: (usize, usize))
    requires
        pos <= text.len(),
    ensures
        r.0 == line_of(text@, pos as int),
        r.1 == pos - line_start(text@, pos as int),
{
    let mut line: usize = 0;
    let mut begin: usize = 0;
    let mut i: usize = 0;
    while i < pos
        invariant
            i <= pos <= text.len(),
            begin <= i,
            line <= i,
            line == line_of(text@, i as int),
            begin == line_start(text@, i as int),
        decreases pos - i,
    {
        if text[i] == '\n' {
            line += 1;
            begin = i + 1;
        }
        i += 1;
    }
    (line, pos - begin)
}

} // verus!
