//! The trajectory CSV format: an optional header line `x,y,timestamp_ms`,
//! then one sample per line, `x,y,timestamp_ms` with `x` and `y` decimal `i32`
//! and the timestamp a decimal `u128`. Lines end at `\n` (a `\r` before it is
//! dropped); surrounding Unicode whitespace is ignored around each line and
//! each field; blank lines are skipped; fields after the third are ignored.
//! The samples come back sorted by timestamp, ties in file order.

use vstd::prelude::*;
use crate::trajectory::{sort_by_timestamp, stable_sort_of, Point};

verus! {

broadcast use vstd::string::axiom_spec_iter;

/// Why a decimal integer was rejected.
#[derive(Clone, Copy, Debug, PartialEq, Eq, Structural)]
pub enum IntErrorKind {
    /// The field is empty.
    Empty,
    /// A character is not a decimal digit (or the field is a lone sign).
    InvalidDigit,
    /// The value is above the type's maximum.
    PosOverflow,
    /// The value is below the type's minimum.
    NegOverflow,
}

/// Why a trajectory file was rejected.
#[derive(Clone, Copy, Debug, PartialEq, Eq, Structural)]
pub enum PointsError {
    /// A line has no second field.
    MissingY,
    /// A line has no third field.
    MissingTimestamp,
    /// A field is not an integer of its type.
    BadInteger(IntErrorKind),
}

/// What one line of the file contributes.
#[derive(Clone, Copy, Debug, PartialEq, Eq, Structural)]
pub enum LineOutcome {
    Skip,
    Sample(Point),
    Fail(PointsError),
}

// ----------------------------------------------------------------------------
// Characters

/// Unicode `White_Space`, the set `str::trim` removes.
pub open spec fn is_whitespace(c: char) -> bool {
    let u = c as u32;
    (9 <= u <= 13) || u == 32 || u == 0x85 || u == 0xA0 || u == 0x1680 || (0x2000 <= u <= 0x200A)
        || u == 0x2028 || u == 0x2029 || u == 0x202F || u == 0x205F || u == 0x3000
}

pub open spec fn is_digit(c: char) -> bool {
    48 <= (c as u32) <= 57
}

pub open spec fn digit_value(c: char) -> int {
    (c as u32) - 48
}

/// Index of the first `c` in `s`, or `s.len()` if there is none.
pub open spec fn find(s: Seq<char>, c: char) -> int
    decreases s.len(),
{
    if s.len() == 0 {
        0
    } else if s[0] == c {
        0
    } else {
        1 + find(s.drop_first(), c)
    }
}

pub proof fn lemma_find_bounds(s: Seq<char>, c: char)
    ensures
        0 <= find(s, c) <= s.len(),
    decreases s.len(),
{
    if s.len() > 0 && s[0] != c {
        lemma_find_bounds(s.drop_first(), c);
    }
}

/// `find` is the first position holding `c`.
pub proof fn lemma_find(s: Seq<char>, c: char, j: int)
    requires
        0 <= j <= s.len(),
        forall|i: int| 0 <= i < j ==> s[i] != c,
        j == s.len() || s[j] == c,
    ensures
        find(s, c) == j,
    decreases j,
{
    if j > 0 {
        let t = s.drop_first();
        assert forall|i: int| 0 <= i < j - 1 implies t[i] != c by {
            assert(t[i] == s[i + 1]);
        }
        if j < s.len() {
            assert(t[j - 1] == s[j]);
        }
        lemma_find(t, c, j - 1);
    }
}

// ----------------------------------------------------------------------------
// Lines

/// A line with one trailing carriage return removed.
pub open spec fn strip_cr(l: Seq<char>) -> Seq<char> {
    if l.len() > 0 && l.last() == '\r' {
        l.drop_last()
    } else {
        l
    }
}

/// The lines of a text, as `str::lines` gives them: split after each `\n`, the
/// `\n` and a `\r` just before it removed, no empty line after a final `\n`.
pub open spec fn split_lines(s: Seq<char>) -> Seq<Seq<char>>
    decreases s.len(),
{
    if s.len() == 0 {
        Seq::empty()
    } else {
        let k = find(s, '\n');
        proof {
            lemma_find_bounds(s, '\n');
        }
        if k >= s.len() {
            seq![s]
        } else {
            seq![strip_cr(s.take(k))] + split_lines(s.skip(k + 1))
        }
    }
}

/// A text with its leading whitespace removed.
pub open spec fn trim_start(s: Seq<char>) -> Seq<char>
    decreases s.len(),
{
    if s.len() > 0 && is_whitespace(s[0]) {
        trim_start(s.drop_first())
    } else {
        s
    }
}

/// A text with its trailing whitespace removed.
pub open spec fn trim_end(s: Seq<char>) -> Seq<char>
    decreases s.len(),
{
    if s.len() > 0 && is_whitespace(s.last()) {
        trim_end(s.drop_last())
    } else {
        s
    }
}

/// A text with whitespace removed from both ends.
pub open spec fn trim(s: Seq<char>) -> Seq<char> {
    trim_end(trim_start(s))
}

proof fn lemma_trim_start(s: Seq<char>, i: int)
    requires
        0 <= i <= s.len(),
        forall|j: int| 0 <= j < i ==> is_whitespace(#[trigger] s[j]),
        i == s.len() || !is_whitespace(s[i]),
    ensures
        trim_start(s) == s.skip(i),
    decreases i,
{
    if i == 0 {
        assert(s.skip(0) =~= s);
    } else {
        let t = s.drop_first();
        assert forall|j: int| 0 <= j < i - 1 implies is_whitespace(#[trigger] t[j]) by {
            assert(t[j] == s[j + 1]);
        }
        if i < s.len() {
            assert(t[i - 1] == s[i]);
        }
        lemma_trim_start(t, i - 1);
        assert(t.skip(i - 1) =~= s.skip(i));
    }
}

proof fn lemma_trim_end(s: Seq<char>, e: int)
    requires
        0 <= e <= s.len(),
        forall|j: int| e <= j < s.len() ==> is_whitespace(#[trigger] s[j]),
        e == 0 || !is_whitespace(s[e - 1]),
    ensures
        trim_end(s) == s.take(e),
    decreases s.len() - e,
{
    if e == s.len() {
        assert(s.take(e) =~= s);
    } else {
        let t = s.drop_last();
        assert forall|j: int| e <= j < t.len() implies is_whitespace(#[trigger] t[j]) by {
            assert(t[j] == s[j]);
        }
        if e > 0 {
            assert(t[e - 1] == s[e - 1]);
        }
        lemma_trim_end(t, e);
        assert(t.take(e) =~= s.take(e));
    }
}

// ----------------------------------------------------------------------------
// Integers

/// The value of a string of decimal digits.
pub open spec fn digits_value(ds: Seq<char>) -> int
    decreases ds.len(),
{
    if ds.len() == 0 {
        0
    } else {
        digits_value(ds.drop_last()) * 10 + digit_value(ds.last())
    }
}

/// Number of leading decimal digits.
pub open spec fn digit_run(ds: Seq<char>) -> int
    decreases ds.len(),
{
    if ds.len() > 0 && is_digit(ds[0]) {
        1 + digit_run(ds.drop_first())
    } else {
        0
    }
}

/// A decimal integer in `lo..=hi`, as `str::parse` reads one: an optional `+`
/// (or `-`, when `lo` is negative) and then digits only. Overflow is reported
/// when the leading digits already leave the range, before any later stray
/// character is looked at.
pub open spec fn parse_int(s: Seq<char>, lo: int, hi: int) -> Result<int, IntErrorKind> {
    if s.len() == 0 {
        Err(IntErrorKind::Empty)
    } else if (s[0] == '+' || s[0] == '-') && s.len() == 1 {
        Err(IntErrorKind::InvalidDigit)
    } else {
        let neg = s[0] == '-' && lo < 0;
        let ds = if s[0] == '+' || neg {
            s.drop_first()
        } else {
            s
        };
        let k = digit_run(ds);
        let v = digits_value(ds.take(k));
        if neg && -v < lo {
            Err(IntErrorKind::NegOverflow)
        } else if !neg && v > hi {
            Err(IntErrorKind::PosOverflow)
        } else if k < ds.len() {
            Err(IntErrorKind::InvalidDigit)
        } else if neg {
            Ok(-v)
        } else {
            Ok(v)
        }
    }
}

/// An accepted integer lies in the requested range.
pub proof fn lemma_parse_int_in_range(s: Seq<char>, lo: int, hi: int, v: int)
    requires
        lo <= 0 <= hi,
        parse_int(s, lo, hi) == Ok::<int, IntErrorKind>(v),
    ensures
        lo <= v <= hi,
{
    let neg = s[0] == '-' && lo < 0;
    let ds = if s[0] == '+' || neg {
        s.drop_first()
    } else {
        s
    };
    let k = digit_run(ds);
    lemma_digit_run_bounds(ds);
    lemma_digit_run_digits(ds);
    let t = ds.take(k);
    assert forall|j: int| 0 <= j < t.len() implies is_digit(#[trigger] t[j]) by {
        assert(t[j] == ds[j]);
    }
    lemma_digits_nonneg(t);
}

proof fn lemma_digit_run(ds: Seq<char>, j: int)
    requires
        0 <= j <= ds.len(),
        forall|i: int| 0 <= i < j ==> is_digit(#[trigger] ds[i]),
        j == ds.len() || !is_digit(ds[j]),
    ensures
        digit_run(ds) == j,
    decreases j,
{
    if j > 0 {
        let t = ds.drop_first();
        assert forall|i: int| 0 <= i < j - 1 implies is_digit(#[trigger] t[i]) by {
            assert(t[i] == ds[i + 1]);
        }
        if j < ds.len() {
            assert(t[j - 1] == ds[j]);
        }
        lemma_digit_run(t, j - 1);
    }
}

proof fn lemma_digits_monotone(ds: Seq<char>, i: int, k: int)
    requires
        0 <= i <= k <= ds.len(),
        forall|j: int| 0 <= j < k ==> is_digit(#[trigger] ds[j]),
    ensures
        0 <= digits_value(ds.take(i)) <= digits_value(ds.take(k)),
    decreases k - i,
{
    if i < k {
        lemma_digits_monotone(ds, i, k - 1);
        assert(ds.take(k).drop_last() =~= ds.take(k - 1));
        assert(is_digit(ds[k - 1]));
    } else {
        lemma_digits_nonneg(ds.take(i));
    }
}

proof fn lemma_digits_nonneg(ds: Seq<char>)
    requires
        forall|j: int| 0 <= j < ds.len() ==> is_digit(#[trigger] ds[j]),
    ensures
        0 <= digits_value(ds),
    decreases ds.len(),
{
    if ds.len() > 0 {
        let t = ds.drop_last();
        assert forall|j: int| 0 <= j < t.len() implies is_digit(#[trigger] t[j]) by {
            assert(t[j] == ds[j]);
        }
        lemma_digits_nonneg(t);
        assert(is_digit(ds[ds.len() - 1]));
    }
}

// ----------------------------------------------------------------------------
// Records

/// The header line's marker.
pub open spec fn csv_header() -> Seq<char> {
    seq!['x', ',', 'y', ',', 't', 'i', 'm', 'e', 's', 't', 'a', 'm', 'p', '_', 'm', 's']
}

/// `pat` occurs in `s`.
pub open spec fn contains_seq(s: Seq<char>, pat: Seq<char>) -> bool {
    exists|i: int| 0 <= i <= s.len() - pat.len() && #[trigger] s.subrange(i, i + pat.len()) == pat
}

/// The text before the first comma.
pub open spec fn first_field(s: Seq<char>) -> Seq<char> {
    s.take(find(s, ','))
}

/// `s` has a comma, so a field follows the first one.
pub open spec fn has_more(s: Seq<char>) -> bool {
    find(s, ',') < s.len()
}

/// The text after the first comma.
pub open spec fn rest_fields(s: Seq<char>) -> Seq<char> {
    s.skip(find(s, ',') + 1)
}

/// A non-blank, trimmed line read as a sample: `x`, then `y`, then the
/// timestamp, each field trimmed, the first failure reported.
pub open spec fn parse_record(t: Seq<char>) -> LineOutcome {
    match parse_int(trim(first_field(t)), i32::MIN as int, i32::MAX as int) {
        Err(e) => LineOutcome::Fail(PointsError::BadInteger(e)),
        Ok(x) => if !has_more(t) {
            LineOutcome::Fail(PointsError::MissingY)
        } else {
            let t1 = rest_fields(t);
            match parse_int(trim(first_field(t1)), i32::MIN as int, i32::MAX as int) {
                Err(e) => LineOutcome::Fail(PointsError::BadInteger(e)),
                Ok(y) => if !has_more(t1) {
                    LineOutcome::Fail(PointsError::MissingTimestamp)
                } else {
                    let t2 = rest_fields(t1);
                    match parse_int(trim(first_field(t2)), 0, u128::MAX as int) {
                        Err(e) => LineOutcome::Fail(PointsError::BadInteger(e)),
                        Ok(ts) => LineOutcome::Sample(
                            Point { x: x as i32, y: y as i32, timestamp_ms: ts as u128 },
                        ),
                    }
                },
            }
        },
    }
}

/// Line number `idx` (from 0) of the file: the header on the first line and
/// blank lines are skipped, every other line is a sample.
pub open spec fn parse_line(idx: int, line: Seq<char>) -> LineOutcome {
    if idx == 0 && contains_seq(line, csv_header()) {
        LineOutcome::Skip
    } else if trim(line).len() == 0 {
        LineOutcome::Skip
    } else {
        parse_record(trim(line))
    }
}

/// The samples of the lines in file order, or the first line's failure.
pub open spec fn collect_points(lines: Seq<Seq<char>>) -> Result<Seq<Point>, PointsError>
    decreases lines.len(),
{
    if lines.len() == 0 {
        Ok(Seq::empty())
    } else {
        match collect_points(lines.drop_last()) {
            Err(e) => Err(e),
            Ok(pts) => match parse_line(lines.len() - 1, lines.last()) {
                LineOutcome::Skip => Ok(pts),
                LineOutcome::Sample(p) => Ok(pts.push(p)),
                LineOutcome::Fail(e) => Err(e),
            },
        }
    }
}

/// The samples of a file in file order, or the failure of its first bad line.
pub open spec fn csv_points(text: Seq<char>) -> Result<Seq<Point>, PointsError> {
    collect_points(split_lines(text))
}

// ----------------------------------------------------------------------------
// Laws of the format

proof fn lemma_find_props(s: Seq<char>, c: char)
    ensures
        0 <= find(s, c) <= s.len(),
        forall|i: int| 0 <= i < find(s, c) ==> s[i] != c,
        find(s, c) < s.len() ==> s[find(s, c)] == c,
    decreases s.len(),
{
    if s.len() > 0 && s[0] != c {
        let t = s.drop_first();
        lemma_find_props(t, c);
        assert forall|i: int| 0 <= i < find(s, c) implies s[i] != c by {
            if i > 0 {
                assert(s[i] == t[i - 1]);
            }
        }
    }
}

proof fn lemma_find_in_prefix(a: Seq<char>, b: Seq<char>, c: char)
    requires
        find(a, c) < a.len(),
    ensures
        find(a + b, c) == find(a, c),
{
    lemma_find_props(a, c);
    let j = find(a, c);
    let s = a + b;
    assert forall|i: int| 0 <= i < j implies s[i] != c by {
        assert(s[i] == a[i]);
    }
    assert(s[j] == a[j]);
    lemma_find(s, c, j);
}

/// Lines split at a line break are split independently.
proof fn lemma_split_lines_concat(a: Seq<char>, b: Seq<char>)
    requires
        a.len() == 0 || a.last() == '\n',
    ensures
        split_lines(a + b) == split_lines(a) + split_lines(b),
    decreases a.len(),
{
    if a.len() == 0 {
        assert(a + b =~= b);
        assert(split_lines(a) + split_lines(b) =~= split_lines(b));
    } else {
        let s = a + b;
        lemma_find_props(a, '\n');
        let k = find(a, '\n');
        if k >= a.len() {
            assert(a[a.len() - 1] == '\n');
            assert(false);
        }
        lemma_find_in_prefix(a, b, '\n');
        assert(s.take(k) =~= a.take(k));
        let a2 = a.skip(k + 1);
        assert(s.skip(k + 1) =~= a2 + b);
        if a2.len() > 0 {
            assert(a2.last() == a.last());
        }
        lemma_split_lines_concat(a2, b);
        assert(split_lines(s) == seq![strip_cr(a.take(k))] + split_lines(a2 + b));
        assert(split_lines(a) == seq![strip_cr(a.take(k))] + split_lines(a2));
        assert(split_lines(s) =~= split_lines(a) + split_lines(b));
    }
}

proof fn lemma_split_single_line(w: Seq<char>)
    requires
        forall|i: int| 0 <= i < w.len() ==> w[i] != '\n',
    ensures
        split_lines(w + seq!['\n']) == seq![strip_cr(w)],
{
    let s = w + seq!['\n'];
    assert forall|i: int| 0 <= i < w.len() implies s[i] != '\n' by {
        assert(s[i] == w[i]);
    }
    lemma_find(s, '\n', w.len() as int);
    assert(s.take(w.len() as int) =~= w);
    assert(s.skip(w.len() as int + 1) =~= Seq::<char>::empty());
    assert(split_lines(Seq::<char>::empty()) =~= Seq::<Seq<char>>::empty());
    assert(split_lines(s) == seq![strip_cr(w)] + split_lines(s.skip(w.len() as int + 1)));
    assert(seq![strip_cr(w)] + Seq::<Seq<char>>::empty() =~= seq![strip_cr(w)]);
}

/// A line that holds only whitespace contributes no sample and no error: a
/// file with such a line after its first line reads exactly as the file
/// without it.
pub proof fn lemma_blank_line_skipped(t: Seq<char>, w: Seq<char>)
    requires
        forall|i: int| 0 <= i < w.len() ==> is_whitespace(#[trigger] w[i]) && w[i] != '\n',
    ensures
        csv_points(t + seq!['\n'] + w + seq!['\n']) == csv_points(t + seq!['\n']),
{
    let a = t + seq!['\n'];
    let b = w + seq!['\n'];
    assert(t + seq!['\n'] + w + seq!['\n'] =~= a + b);
    lemma_split_lines_concat(a, b);
    lemma_split_single_line(w);
    let lines = split_lines(a);
    let line = strip_cr(w);
    assert(split_lines(a + b) == lines.push(line));
    assert(lines.len() >= 1);
    assert forall|j: int| 0 <= j < line.len() implies is_whitespace(#[trigger] line[j]) by {
        assert(line[j] == w[j]);
    }
    lemma_trim_start(line, line.len() as int);
    assert(line.skip(line.len() as int) =~= Seq::<char>::empty());
    assert(trim(line).len() == 0);
    assert(parse_line(lines.len() as int, line) == LineOutcome::Skip);
    assert(lines.push(line).drop_last() =~= lines);
}

// ----------------------------------------------------------------------------
// Executable reading

/// The characters of `s`, in order.
pub fn chars_of(s: &str) -> (v: Vec<char>)
    ensures
        v@ == s@,
{
    let mut v: Vec<char> = Vec::new();
    for c in it: s.chars()
        invariant
            v@ == it.seq().take(it.index()),
            it.seq() == s@,
    {
        v.push(c);
    }
    v
}

pub fn is_whitespace_char(c: char) -> (b: bool)
    ensures
        b == is_whitespace(c),
{
    let u = c as u32;
    (9 <= u && u <= 13) || u == 32 || u == 0x85 || u == 0xA0 || u == 0x1680 || (0x2000 <= u && u
        <= 0x200A) || u == 0x2028 || u == 0x2029 || u == 0x202F || u == 0x205F || u == 0x3000
}

/// Position of the first `c` in `text[a..b]`, or `b`.
fn find_char(text: &Vec<char>, a: usize, b: usize, c: char) -> (r: usize)
    requires
        a <= b <= text@.len(),
    ensures
        a <= r <= b,
        r - a == find(text@.subrange(a as int, b as int), c),
{
    let mut k = a;
    while k < b && text[k] != c
        invariant
            a <= k <= b,
            b <= text@.len(),
            forall|i: int| a <= i < k ==> text@[i] != c,
        decreases b - k,
    {
        k += 1;
    }
    proof {
        let s = text@.subrange(a as int, b as int);
        assert forall|i: int| 0 <= i < k - a implies s[i] != c by {
            assert(s[i] == text@[a + i]);
        }
        lemma_find(s, c, k - a);
    }
    k
}

/// The trimmed part of `text[a..b]`.
fn trim_range(text: &Vec<char>, a: usize, b: usize) -> (r: (usize, usize))
    requires
        a <= b <= text@.len(),
    ensures
        a <= r.0 <= r.1 <= b,
        text@.subrange(r.0 as int, r.1 as int) == trim(text@.subrange(a as int, b as int)),
{
    let ghost s = text@.subrange(a as int, b as int);
    let mut i = a;
    while i < b && is_whitespace_char(text[i])
        invariant
            a <= i <= b,
            b <= text@.len(),
            forall|j: int| a <= j < i ==> is_whitespace(#[trigger] text@[j]),
        decreases b - i,
    {
        i += 1;
    }
    proof {
        assert forall|j: int| 0 <= j < i - a implies is_whitespace(#[trigger] s[j]) by {
            assert(s[j] == text@[a + j]);
        }
        if i < b {
            assert(s[i - a] == text@[i as int]);
        }
        lemma_trim_start(s, i - a);
        assert(s.skip(i - a) =~= text@.subrange(i as int, b as int));
    }
    let ghost t = text@.subrange(i as int, b as int);
    let mut e = b;
    while e > i && is_whitespace_char(text[e - 1])
        invariant
            a <= i <= e <= b,
            b <= text@.len(),
            forall|j: int| e <= j < b ==> is_whitespace(#[trigger] text@[j]),
        decreases e - i,
    {
        e -= 1;
    }
    proof {
        assert forall|j: int| e - i <= j < t.len() implies is_whitespace(#[trigger] t[j]) by {
            assert(t[j] == text@[i + j]);
        }
        if e > i {
            assert(t[e - i - 1] == text@[e - 1]);
        }
        lemma_trim_end(t, e - i);
        assert(t.take(e - i) =~= text@.subrange(i as int, e as int));
    }
    (i, e)
}

/// Reads `text[a..b]` as a decimal integer whose magnitude is at most
/// `pos_limit` when non-negative and `neg_limit` when negative (a `-` sign is
/// only accepted when `signed`). Returns the sign and the magnitude.
fn parse_magnitude(
    text: &Vec<char>,
    a: usize,
    b: usize,
    signed: bool,
    pos_limit: u128,
    neg_limit: u128,
) -> (r: Result<(bool, u128), IntErrorKind>)
    requires
        a <= b <= text@.len(),
        signed ==> neg_limit > 0,
    ensures
        ({
            let spec_r = parse_int(
                text@.subrange(a as int, b as int),
                if signed {
                    -(neg_limit as int)
                } else {
                    0
                },
                pos_limit as int,
            );
            match r {
                Ok((neg, m)) => spec_r == Ok::<int, IntErrorKind>(
                    if neg {
                        -(m as int)
                    } else {
                        m as int
                    },
                ),
                Err(e) => spec_r == Err::<int, IntErrorKind>(e),
            }
        }),
        r matches Ok((neg, m)) ==> (neg ==> signed) && m <= (if neg {
            neg_limit
        } else {
            pos_limit
        }),
{
    let ghost s = text@.subrange(a as int, b as int);
    let ghost lo: int = if signed {
        -(neg_limit as int)
    } else {
        0
    };
    if a == b {
        return Err(IntErrorKind::Empty);
    }
    let first = text[a];
    proof {
        assert(s[0] == first);
    }
    if (first == '+' || first == '-') && b - a == 1 {
        return Err(IntErrorKind::InvalidDigit);
    }
    let neg = first == '-' && signed;
    let start = if first == '+' || neg { a + 1 } else { a };
    let limit = if neg { neg_limit } else { pos_limit };
    let ghost ds = text@.subrange(start as int, b as int);
    proof {
        assert(s[0] == first);
        if first == '+' || neg {
            assert(ds =~= s.drop_first());
        } else {
            assert(ds =~= s);
        }
    }
    let mut mag: u128 = 0;
    let mut i = start;
    proof {
        assert(ds.take(0) =~= Seq::<char>::empty());
    }
    while i < b
        invariant
            start <= i <= b,
            b <= text@.len(),
            ds == text@.subrange(start as int, b as int),
            s == text@.subrange(a as int, b as int),
            s.len() >= 1,
            s[0] == first,
            !((first == '+' || first == '-') && s.len() == 1),
            neg == (first == '-' && signed),
            signed ==> neg_limit > 0,
            lo == (if signed { -(neg_limit as int) } else { 0 }),
            limit == (if neg { neg_limit } else { pos_limit }),
            ds == (if first == '+' || neg { s.drop_first() } else { s }),
            forall|j: int| 0 <= j < i - start ==> is_digit(#[trigger] ds[j]),
            mag == digits_value(ds.take(i - start)),
            mag <= limit,
        decreases b - i,
    {
        let c = text[i];
        let ghost n = i - start;
        proof {
            assert(ds[n] == c);
        }
        let code = c as u32;
        if !(48 <= code && code <= 57) {
            proof {
                lemma_digit_run(ds, n);
            }
            return Err(IntErrorKind::InvalidDigit);
        }
        let d = (code - 48) as u128;
        proof {
            assert(ds.take(n + 1).drop_last() =~= ds.take(n));
            assert(digits_value(ds.take(n + 1)) == mag * 10 + d);
        }
        let next = match mag.checked_mul(10) {
            Some(m10) => m10.checked_add(d),
            None => None,
        };
        let fits = match next {
            Some(v) => v <= limit,
            None => false,
        };
        if !fits {
            proof {
                assert forall|j: int| 0 <= j < n + 1 implies is_digit(#[trigger] ds[j]) by {}
                let k = digit_run(ds);
                assert(k >= n + 1) by {
                    lemma_digit_run_at_least(ds, n + 1);
                }
                lemma_digit_run_bounds(ds);
                lemma_digit_run_digits(ds);
                lemma_digits_monotone(ds, n + 1, k);
            }
            if neg {
                return Err(IntErrorKind::NegOverflow);
            } else {
                return Err(IntErrorKind::PosOverflow);
            }
        }
        mag = match next {
            Some(v) => v,
            None => 0,
        };
        i += 1;
    }
    proof {
        lemma_digit_run(ds, ds.len() as int);
        assert(ds.take(ds.len() as int) =~= ds);
    }
    Ok((neg, mag))
}

proof fn lemma_digit_run_bounds(ds: Seq<char>)
    ensures
        0 <= digit_run(ds) <= ds.len(),
    decreases ds.len(),
{
    if ds.len() > 0 && is_digit(ds[0]) {
        lemma_digit_run_bounds(ds.drop_first());
    }
}

proof fn lemma_digit_run_digits(ds: Seq<char>)
    ensures
        forall|j: int| 0 <= j < digit_run(ds) ==> is_digit(#[trigger] ds[j]),
    decreases ds.len(),
{
    if ds.len() > 0 && is_digit(ds[0]) {
        let t = ds.drop_first();
        lemma_digit_run_digits(t);
        lemma_digit_run_bounds(t);
        assert forall|j: int| 0 <= j < digit_run(ds) implies is_digit(#[trigger] ds[j]) by {
            if j > 0 {
                assert(ds[j] == t[j - 1]);
            }
        }
    }
}

proof fn lemma_digit_run_at_least(ds: Seq<char>, j: int)
    requires
        0 <= j <= ds.len(),
        forall|i: int| 0 <= i < j ==> is_digit(#[trigger] ds[i]),
    ensures
        digit_run(ds) >= j,
    decreases j,
{
    lemma_digit_run_bounds(ds);
    if j > 0 {
        let t = ds.drop_first();
        assert forall|i: int| 0 <= i < j - 1 implies is_digit(#[trigger] t[i]) by {
            assert(t[i] == ds[i + 1]);
        }
        lemma_digit_run_at_least(t, j - 1);
    }
}

/// `text[a..b]` read as an `i32`.
pub(crate) fn parse_i32_range(text: &Vec<char>, a: usize, b: usize) -> (r: Result<i32, IntErrorKind>)
    requires
        a <= b <= text@.len(),
    ensures
        match r {
            Ok(v) => parse_int(text@.subrange(a as int, b as int), i32::MIN as int, i32::MAX as int)
                == Ok::<int, IntErrorKind>(v as int),
            Err(e) => parse_int(text@.subrange(a as int, b as int), i32::MIN as int, i32::MAX as int)
                == Err::<int, IntErrorKind>(e),
        },
{
    match parse_magnitude(text, a, b, true, 2147483647, 2147483648) {
        Ok((neg, m)) => {
            if neg {
                Ok((0i64 - m as i64) as i32)
            } else {
                Ok(m as i32)
            }
        },
        Err(e) => Err(e),
    }
}

/// `text[a..b]` read as a `u128`.
pub(crate) fn parse_u128_range(text: &Vec<char>, a: usize, b: usize) -> (r: Result<u128, IntErrorKind>)
    requires
        a <= b <= text@.len(),
    ensures
        match r {
            Ok(v) => parse_int(text@.subrange(a as int, b as int), 0, u128::MAX as int) == Ok::<
                int,
                IntErrorKind,
            >(v as int),
            Err(e) => parse_int(text@.subrange(a as int, b as int), 0, u128::MAX as int) == Err::<
                int,
                IntErrorKind,
            >(e),
        },
{
    match parse_magnitude(text, a, b, false, u128::MAX, 0) {
        Ok((_neg, m)) => Ok(m),
        Err(e) => Err(e),
    }
}

/// `text[a..b]` read as a `u32`.
pub(crate) fn parse_u32_range(text: &Vec<char>, a: usize, b: usize) -> (r: Result<u32, IntErrorKind>)
    requires
        a <= b <= text@.len(),
    ensures
        match r {
            Ok(v) => parse_int(text@.subrange(a as int, b as int), 0, u32::MAX as int) == Ok::<
                int,
                IntErrorKind,
            >(v as int),
            Err(e) => parse_int(text@.subrange(a as int, b as int), 0, u32::MAX as int) == Err::<
                int,
                IntErrorKind,
            >(e),
        },
{
    match parse_magnitude(text, a, b, false, 4294967295, 0) {
        Ok((_neg, m)) => Ok(m as u32),
        Err(e) => Err(e),
    }
}

/// Whether `text[a..b]` contains the header marker.
fn contains_header(text: &Vec<char>, a: usize, b: usize) -> (r: bool)
    requires
        a <= b <= text@.len(),
    ensures
        r == contains_seq(text@.subrange(a as int, b as int), csv_header()),
{
    let pat: [char; 16] = ['x', ',', 'y', ',', 't', 'i', 'm', 'e', 's', 't', 'a', 'm', 'p', '_', 'm', 's'];
    let ghost s = text@.subrange(a as int, b as int);
    let ghost h = csv_header();
    proof {
        assert(pat@ =~= h);
    }
    if b - a < 16 {
        return false;
    }
    let mut i = a;
    while i <= b - 16
        invariant
            a <= i <= b,
            b - a >= 16,
            b <= text@.len(),
            s == text@.subrange(a as int, b as int),
            h == csv_header(),
            pat@ == h,
            forall|i2: int| 0 <= i2 < i - a ==> #[trigger] s.subrange(i2, i2 + 16) != h,
        decreases b - i,
    {
        let mut j: usize = 0;
        while j < 16 && text[i + j] == pat[j]
            invariant
                j <= 16,
                i + 16 <= b,
                b <= text@.len(),
                pat@ == h,
                forall|j2: int| 0 <= j2 < j ==> text@[i + j2] == h[j2],
            decreases 16 - j,
        {
            j += 1;
        }
        if j == 16 {
            proof {
                assert(s.subrange(i - a, i - a + 16) =~= h);
            }
            return true;
        }
        proof {
            assert(s.subrange(i - a, i - a + 16)[j as int] != h[j as int]);
        }
        i += 1;
    }
    proof {
        assert forall|i2: int| 0 <= i2 <= s.len() - h.len() implies #[trigger] s.subrange(
            i2,
            i2 + h.len(),
        ) != h by {
            assert(i2 < i - a);
        }
    }
    false
}

/// A non-blank, trimmed line `text[a..b]` read as a sample.
fn parse_record_range(text: &Vec<char>, a: usize, b: usize) -> (r: LineOutcome)
    requires
        a <= b <= text@.len(),
    ensures
        r == parse_record(text@.subrange(a as int, b as int)),
{
    let ghost t = text@.subrange(a as int, b as int);
    let c1 = find_char(text, a, b, ',');
    proof {
        assert(first_field(t) =~= text@.subrange(a as int, c1 as int));
        if c1 < b {
            assert(rest_fields(t) =~= text@.subrange(c1 + 1, b as int));
        }
    }
    let (xa, xb) = trim_range(text, a, c1);
    let x = match parse_i32_range(text, xa, xb) {
        Ok(v) => v,
        Err(e) => {
            return LineOutcome::Fail(PointsError::BadInteger(e));
        },
    };
    if c1 == b {
        return LineOutcome::Fail(PointsError::MissingY);
    }
    let ghost t1 = text@.subrange(c1 + 1, b as int);
    let c2 = find_char(text, c1 + 1, b, ',');
    proof {
        assert(first_field(t1) =~= text@.subrange(c1 + 1, c2 as int));
        if c2 < b {
            assert(rest_fields(t1) =~= text@.subrange(c2 + 1, b as int));
        }
    }
    let (ya, yb) = trim_range(text, c1 + 1, c2);
    let y = match parse_i32_range(text, ya, yb) {
        Ok(v) => v,
        Err(e) => {
            return LineOutcome::Fail(PointsError::BadInteger(e));
        },
    };
    if c2 == b {
        return LineOutcome::Fail(PointsError::MissingTimestamp);
    }
    let ghost t2 = text@.subrange(c2 + 1, b as int);
    let c3 = find_char(text, c2 + 1, b, ',');
    proof {
        assert(first_field(t2) =~= text@.subrange(c2 + 1, c3 as int));
    }
    let (ta, tb) = trim_range(text, c2 + 1, c3);
    let ts = match parse_u128_range(text, ta, tb) {
        Ok(v) => v,
        Err(e) => {
            return LineOutcome::Fail(PointsError::BadInteger(e));
        },
    };
    LineOutcome::Sample(Point { x, y, timestamp_ms: ts })
}

/// Line number `idx` of the file, `text[a..b]`.
fn parse_line_range(text: &Vec<char>, idx: usize, a: usize, b: usize) -> (r: LineOutcome)
    requires
        a <= b <= text@.len(),
    ensures
        r == parse_line(idx as int, text@.subrange(a as int, b as int)),
{
    if idx == 0 && contains_header(text, a, b) {
        return LineOutcome::Skip;
    }
    let (ta, tb) = trim_range(text, a, b);
    if ta == tb {
        return LineOutcome::Skip;
    }
    parse_record_range(text, ta, tb)
}

/// Once a prefix of the lines has failed, the whole file fails the same way.
proof fn lemma_collect_err(a: Seq<Seq<char>>, b: Seq<Seq<char>>, e: PointsError)
    requires
        collect_points(a) == Err::<Seq<Point>, PointsError>(e),
    ensures
        collect_points(a + b) == Err::<Seq<Point>, PointsError>(e),
    decreases b.len(),
{
    if b.len() == 0 {
        assert(a + b =~= a);
    } else {
        lemma_collect_err(a, b.drop_last(), e);
        assert((a + b).drop_last() =~= a + b.drop_last());
    }
}

/// Reads the samples of a trajectory file and sorts them by timestamp, samples
/// with equal timestamps kept in file order; fails with the first bad line's
/// error.
pub fn parse_points(content: &str) -> (r: Result<Vec<Point>, PointsError>)
    ensures
        match r {
            Ok(v) => csv_points(content@) matches Ok(pts) && stable_sort_of(pts, v@),
            Err(e) => csv_points(content@) == Err::<Seq<Point>, PointsError>(e),
        },
{
    let text = chars_of(content);
    let len = text.len();
    let mut points: Vec<Point> = Vec::new();
    let mut start: usize = 0;
    let mut idx: usize = 0;
    let ghost mut done: Seq<Seq<char>> = Seq::empty();
    proof {
        assert(text@.skip(0) =~= text@);
        assert(done + split_lines(text@) =~= split_lines(text@));
    }
    while start < len
        invariant
            len == text@.len(),
            text@ == content@,
            start <= len,
            idx == done.len(),
            idx <= start,
            split_lines(text@) == done + split_lines(text@.skip(start as int)),
            collect_points(done) == Ok::<Seq<Point>, PointsError>(points@),
        decreases len - start,
    {
        let ghost rest = text@.skip(start as int);
        let k = find_char(&text, start, len, '\n');
        let mut end = k;
        if k < len && end > start && text[end - 1] == '\r' {
            end -= 1;
        }
        let ghost line = text@.subrange(start as int, end as int);
        proof {
            assert(rest =~= text@.subrange(start as int, len as int));
            if k < len {
                assert(rest.take(k - start) =~= text@.subrange(start as int, k as int));
                assert(strip_cr(rest.take(k - start)) =~= line);
                assert(rest.skip(k - start + 1) =~= text@.skip(k + 1));
                assert(split_lines(rest) == seq![line] + split_lines(text@.skip(k + 1)));
            } else {
                assert(line =~= rest);
                assert(text@.skip(len as int) =~= Seq::<char>::empty());
                assert(split_lines(rest) == seq![line]);
            }
        }
        let outcome = parse_line_range(&text, idx, start, end);
        let ghost prev_done = done;
        proof {
            done = prev_done.push(line);
            assert(done.drop_last() =~= prev_done);
        }
        match outcome {
            LineOutcome::Skip => {},
            LineOutcome::Sample(p) => {
                points.push(p);
            },
            LineOutcome::Fail(e) => {
                proof {
                    let tail = if k < len {
                        split_lines(text@.skip(k + 1))
                    } else {
                        Seq::empty()
                    };
                    assert(split_lines(text@) =~= done + tail);
                    lemma_collect_err(done, tail, e);
                }
                return Err(e);
            },
        }
        proof {
            if k < len {
                assert(split_lines(text@) =~= done + split_lines(text@.skip(k + 1)));
            } else {
                assert(split_lines(text@) =~= done + split_lines(text@.skip(len as int)));
            }
        }
        start = if k < len { k + 1 } else { len };
        idx += 1;
    }
    proof {
        assert(text@.skip(len as int) =~= Seq::<char>::empty());
        assert(split_lines(text@) =~= done);
    }
    Ok(sort_by_timestamp(points))
}

} // verus!
