//! Element sets in the three-line fixed-width format: a name line and two element
//! lines, each element line ending in a check digit.
use vstd::prelude::*;

use crate::body::Body;
use crate::decimal::{
    at_most, below_one, bounded, field_value, integer_value, is_integer_text, is_natural_text,
    magnitude, opt_view, parse_field, parse_integer, parse_point, point_value, pow10_i128, Decimal,
};
use crate::satellite;
use crate::text::{
    chars_of, digit_value, is_ascii_digit, is_digit, lemma_digits_value_bound, lemma_pow10_positive,
    lemma_line_end_at, line_at, lines_from, pow10, split_lines, string_of, text_lines, trim,
    trim_bounds,
};
use crate::time::{day_start_nanos, days_in_year, Timestamp, NANOS_PER_DAY};

verus! {

/// What a character adds to the check sum: its value for a digit, 1 for a minus
/// sign, 0 for anything else.
pub open spec fn check_weight(c: char) -> int {
    if is_digit(c) {
        digit_value(c)
    } else if c == '-' {
        1
    } else {
        0
    }
}

/// The sum of the check weights of the characters of `s`.
pub open spec fn check_sum(s: Seq<char>) -> int
    decreases s.len(),
{
    if s.len() == 0 {
        0
    } else {
        check_sum(s.drop_last()) + check_weight(s.last())
    }
}

/// A line whose trailing character is a digit equal, modulo 10, to the check sum
/// of all the characters before it.
pub open spec fn checksum_ok(line: Seq<char>) -> bool {
    line.len() >= 1 && is_digit(line.last()) && check_sum(line.drop_last()) % 10 == digit_value(
        line.last(),
    )
}

proof fn lemma_check_sum_update(s: Seq<char>, i: int, c: char)
    requires
        0 <= i < s.len(),
    ensures
        check_sum(s.update(i, c)) == check_sum(s) - check_weight(s[i]) + check_weight(c),
    decreases s.len(),
{
    let t = s.update(i, c);
    if i < s.len() - 1 {
        assert(t.drop_last() =~= s.drop_last().update(i, c));
        lemma_check_sum_update(s.drop_last(), i, c);
    } else {
        assert(t.drop_last() =~= s.drop_last());
    }
}

/// Replacing one digit of a line that passes its check, anywhere before its
/// trailing check digit, by a different digit makes the line fail its check.
pub proof fn lemma_digit_change_breaks_checksum(line: Seq<char>, i: int, c: char)
    requires
        checksum_ok(line),
        0 <= i < line.len() - 1,
        is_digit(line[i]),
        is_digit(c),
        c != line[i],
    ensures
        !checksum_ok(line.update(i, c)),
{
    let t = line.update(i, c);
    let body = line.drop_last();
    assert(t.drop_last() =~= body.update(i, c));
    assert(t.last() == line.last());
    lemma_check_sum_update(body, i, c);
    assert(body[i] == line[i]);
    let d = digit_value(c) - digit_value(line[i]);
    assert(d != 0 && -9 <= d <= 9) by {
        if c as u32 == line[i] as u32 {
            vstd::utf8::char_u32_cast(c, c as u32);
            vstd::utf8::char_u32_cast(line[i], line[i] as u32);
        }
    }
    assert((check_sum(body) + d) % 10 != check_sum(body) % 10) by (nonlinear_arith)
        requires
            d != 0,
            -9 <= d <= 9,
    {
    }
}

/// Whether `chars[from..to]` passes its check.
pub fn checksum_in(chars: &Vec<char>, from: usize, to: usize) -> (r: bool)
    requires
        from <= to <= chars.len(),
    ensures
        r == checksum_ok(chars@.subrange(from as int, to as int)),
{
    if from == to {
        return false;
    }
    let last = chars[to - 1];
    let ghost line = chars@.subrange(from as int, to as int);
    assert(line.last() == last);
    if !is_ascii_digit(last) {
        return false;
    }
    let mut acc: u32 = 0;
    let mut i: usize = from;
    while i < to - 1
        invariant
            from <= i <= to - 1,
            to <= chars.len(),
            acc < 10,
            acc == check_sum(chars@.subrange(from as int, i as int)) % 10,
        decreases to - 1 - i,
    {
        let c = chars[i];
        let w: u32 = if is_ascii_digit(c) {
            c as u32 - '0' as u32
        } else if c == '-' {
            1
        } else {
            0
        };
        let ghost prev = chars@.subrange(from as int, i as int);
        assert(chars@.subrange(from as int, i + 1).drop_last() =~= prev);
        assert(w == check_weight(c));
        proof {
            let cs = check_sum(prev);
            assert((cs % 10 + w) % 10 == (cs + w) % 10) by (nonlinear_arith)
                requires
                    0 <= w,
            {
            }
        }
        acc = (acc + w) % 10;
        i = i + 1;
    }
    assert(line.drop_last() =~= chars@.subrange(from as int, i as int));
    acc == last as u32 - '0' as u32
}

/// Whether `line` passes its check: its trailing character is a digit equal,
/// modulo 10, to the sum over all the characters before it of the digit values,
/// counting 1 for each minus sign.
pub fn line_checksum(line: &str) -> (r: bool)
    ensures
        r == checksum_ok(line@),
{
    let chars = chars_of(line);
    assert(chars@.subrange(0, chars.len() as int) =~= chars@);
    checksum_in(&chars, 0, chars.len())
}

/// The security classification of an element set, column 7 of the first element line.
#[derive(Clone, Copy, Debug, PartialEq, Eq, Structural)]
pub enum Classification {
    Unclassified,
    Other,
}

/// Why a record could not be read.
#[derive(Clone, Debug, PartialEq, Eq)]
pub enum DeserializationError {
    /// A field does not hold the number that its columns call for, or a line is
    /// missing or not 69 characters long.
    ParseError(String),
}

/// One element set, as its record gives it. Angles are in degrees, the mean
/// motion in revolutions per day; the first and second derivatives of the mean
/// motion are held doubled and multiplied by six, as the record halves them and
/// divides them by six.
#[derive(Clone, Debug, PartialEq)]
pub struct TLE {
    pub name: String,
    pub satellite_number: i16,
    pub classification: Classification,
    pub id_launch_year: i8,
    pub id_launch_number: i16,
    pub id_launch_piece: String,
    pub timestamp: Timestamp,
    pub mean_motion_d: Decimal,
    pub mean_motion_dd: Decimal,
    pub bstar: Decimal,
    pub set_number: i32,
    pub inclination: Decimal,
    pub right_ascension: Decimal,
    pub eccentricity: Decimal,
    pub perigree: Decimal,
    pub mean_anomaly: Decimal,
    pub mean_motion: Decimal,
    pub revolution_number: i32,
    /// Both element lines pass their check digit.
    pub valid: bool,
}

/// Columns `a..b` of `line`, counted from 0.
pub open spec fn cols(line: Seq<char>, a: int, b: int) -> Seq<char> {
    line.subrange(a, b)
}

/// Integer text whose value lies in `lo..=hi`.
pub open spec fn int_in(s: Seq<char>, lo: int, hi: int) -> bool {
    is_integer_text(s) && lo <= integer_value(s) <= hi
}

/// `v` with its mantissa multiplied by `k`.
pub open spec fn scaled(v: (int, int), k: int) -> (int, int) {
    (k * v.0, v.1)
}

/// A fraction of a day in [0, 1), written with no power of ten above 1.
pub open spec fn day_fraction(f: (int, int)) -> bool {
    f.1 <= 0 && 0 <= f.0 < pow10((-f.1) as nat)
}

/// The nanoseconds in fraction `f` of a day, rounded down.
pub open spec fn fraction_nanos(f: (int, int)) -> int {
    f.0 * NANOS_PER_DAY / pow10((-f.1) as nat)
}

/// The epoch of element line `l1` in nanoseconds since the Unix epoch: a two-digit
/// year after 2000 in columns 18..20, the day of the year in columns 20..23 and
/// the fraction of that day in columns 23..32.
pub open spec fn epoch_of(l1: Seq<char>) -> Option<int> {
    let y = cols(l1, 18, 20);
    let d = cols(l1, 20, 23);
    let f = point_value(cols(l1, 23, 32));
    if is_integer_text(y) && is_natural_text(d) && f is Some && day_fraction(f->Some_0) {
        let year = 2000 + integer_value(y);
        let day = integer_value(d);
        let n = day_start_nanos(year, day) + fraction_nanos(f->Some_0);
        if 1 <= day <= days_in_year(year) && i64::MIN <= n <= i64::MAX {
            Some(n)
        } else {
            None
        }
    } else {
        None
    }
}

/// The first element line has exactly 69 columns, the last its check digit, and
/// every field of it reads.
pub open spec fn line1_ok(l1: Seq<char>) -> bool {
    &&& l1.len() == 69
    &&& int_in(cols(l1, 2, 7), i16::MIN as int, i16::MAX as int)
    &&& int_in(cols(l1, 9, 11), i8::MIN as int, i8::MAX as int)
    &&& int_in(cols(l1, 11, 14), i16::MIN as int, i16::MAX as int)
    &&& epoch_of(l1) is Some
    &&& field_value(trim(cols(l1, 33, 43))) is Some
    &&& field_value(trim(cols(l1, 44, 52))) is Some
    &&& field_value(trim(cols(l1, 53, 61))) is Some
    &&& int_in(trim(cols(l1, 64, 68)), i32::MIN as int, i32::MAX as int)
}

/// The second element line has exactly 69 columns, the last its check digit, and
/// every field of it reads, with an inclination from 0 to
/// 180 degrees, an eccentricity in [0, 1) and a positive mean motion.
pub open spec fn line2_ok(l2: Seq<char>) -> bool {
    &&& l2.len() == 69
    &&& point_value(trim(cols(l2, 8, 16))) is Some
    &&& at_most(point_value(trim(cols(l2, 8, 16)))->Some_0, 180)
    &&& point_value(trim(cols(l2, 17, 25))) is Some
    &&& field_value(trim(cols(l2, 26, 33))) is Some
    &&& below_one(field_value(trim(cols(l2, 26, 33)))->Some_0)
    &&& point_value(trim(cols(l2, 34, 42))) is Some
    &&& point_value(trim(cols(l2, 43, 51))) is Some
    &&& point_value(trim(cols(l2, 52, 63))) is Some
    &&& point_value(trim(cols(l2, 52, 63)))->Some_0.0 > 0
    &&& int_in(trim(cols(l2, 63, 68)), i32::MIN as int, i32::MAX as int)
}

/// Three lines or more, whose second and third lines read as element lines.
pub open spec fn record_ok(lines: Seq<Seq<char>>) -> bool {
    lines.len() >= 3 && line1_ok(lines[1]) && line2_ok(lines[2])
}

impl TLE {
    /// This element set is the one that name line `l0` and element lines `l1`, `l2` hold.
    pub open spec fn describes(&self, l0: Seq<char>, l1: Seq<char>, l2: Seq<char>) -> bool {
        &&& self.name@ == l0
        &&& self.satellite_number == integer_value(cols(l1, 2, 7))
        &&& self.classification == if l1[7] == 'U' {
            Classification::Unclassified
        } else {
            Classification::Other
        }
        &&& self.id_launch_year == integer_value(cols(l1, 9, 11))
        &&& self.id_launch_number == integer_value(cols(l1, 11, 14))
        &&& self.id_launch_piece@ == trim(cols(l1, 14, 17))
        &&& self.timestamp.nanos == epoch_of(l1)->Some_0
        &&& self.mean_motion_d@ == scaled(field_value(trim(cols(l1, 33, 43)))->Some_0, 2)
        &&& self.mean_motion_dd@ == scaled(field_value(trim(cols(l1, 44, 52)))->Some_0, 6)
        &&& self.bstar@ == field_value(trim(cols(l1, 53, 61)))->Some_0
        &&& self.set_number == integer_value(trim(cols(l1, 64, 68)))
        &&& self.inclination@ == point_value(trim(cols(l2, 8, 16)))->Some_0
        &&& self.right_ascension@ == point_value(trim(cols(l2, 17, 25)))->Some_0
        &&& self.eccentricity@ == field_value(trim(cols(l2, 26, 33)))->Some_0
        &&& self.perigree@ == point_value(trim(cols(l2, 34, 42)))->Some_0
        &&& self.mean_anomaly@ == point_value(trim(cols(l2, 43, 51)))->Some_0
        &&& self.mean_motion@ == point_value(trim(cols(l2, 52, 63)))->Some_0
        &&& self.revolution_number == integer_value(trim(cols(l2, 63, 68)))
        &&& self.valid == (checksum_ok(l1) && checksum_ok(l2))
    }

    /// The invariant of an element set: an eccentricity in [0, 1), a positive mean
    /// motion and an inclination from 0 to 180 degrees.
    pub open spec fn wf(&self) -> bool {
        &&& below_one(self.eccentricity@)
        &&& self.mean_motion.mantissa > 0
        &&& at_most(self.inclination@, 180)
    }
}

proof fn lemma_cols(c: Seq<char>, s: int, e: int)
    requires
        0 <= s <= e <= c.len(),
    ensures
        forall|a: int, b: int|
            0 <= a <= b <= e - s ==> #[trigger] cols(c.subrange(s, e), a, b) == c.subrange(
                s + a,
                s + b,
            ),
{
    assert forall|a: int, b: int| 0 <= a <= b <= e - s implies #[trigger] cols(
        c.subrange(s, e),
        a,
        b,
    ) == c.subrange(s + a, s + b) by {
        assert(cols(c.subrange(s, e), a, b) =~= c.subrange(s + a, s + b));
    }
}

/// Integer text in `chars[from..to]` whose value lies in `lo..=hi`.
fn int_field(chars: &Vec<char>, from: usize, to: usize, lo: i64, hi: i64) -> (r: Option<i64>)
    requires
        from <= to <= chars.len(),
        to - from <= 18,
    ensures
        r is Some <==> int_in(chars@.subrange(from as int, to as int), lo as int, hi as int),
        r is Some ==> r->Some_0 == integer_value(chars@.subrange(from as int, to as int)),
{
    match parse_integer(chars, from, to) {
        Some(v) => if lo <= v && v <= hi {
            Some(v)
        } else {
            None
        },
        None => None,
    }
}

/// Integer text in `chars[from..to]` once blanks are stripped, within `lo..=hi`.
fn trimmed_int_field(chars: &Vec<char>, from: usize, to: usize, lo: i64, hi: i64) -> (r: Option<
    i64,
>)
    requires
        from <= to <= chars.len(),
        to - from <= 18,
    ensures
        r is Some <==> int_in(trim(chars@.subrange(from as int, to as int)), lo as int, hi as int),
        r is Some ==> r->Some_0 == integer_value(trim(chars@.subrange(from as int, to as int))),
{
    let (a, b) = trim_bounds(chars, from, to);
    int_field(chars, a, b, lo, hi)
}

/// Fixed-point text in `chars[from..to]` once blanks are stripped.
fn trimmed_point_field(chars: &Vec<char>, from: usize, to: usize) -> (r: Option<Decimal>)
    requires
        from <= to <= chars.len(),
        to - from <= 18,
    ensures
        opt_view(r) == point_value(trim(chars@.subrange(from as int, to as int))),
        r is Some ==> bounded(r->Some_0@),
{
    let (a, b) = trim_bounds(chars, from, to);
    parse_point(chars, a, b)
}

/// Fixed-point or compact text in `chars[from..to]` once blanks are stripped.
fn trimmed_field(chars: &Vec<char>, from: usize, to: usize) -> (r: Option<Decimal>)
    requires
        from <= to <= chars.len(),
        to - from <= 18,
    ensures
        opt_view(r) == field_value(trim(chars@.subrange(from as int, to as int))),
        r is Some ==> bounded(r->Some_0@),
{
    let (a, b) = trim_bounds(chars, from, to);
    parse_field(chars, a, b)
}

/// The nanoseconds in fraction `f` of a day, where `f` lies in [0, 1).
fn day_fraction_nanos(f: Decimal) -> (r: Option<i64>)
    requires
        bounded(f@),
    ensures
        r is Some <==> day_fraction(f@),
        r is Some ==> r->Some_0 == fraction_nanos(f@) && 0 <= r->Some_0 < NANOS_PER_DAY,
{
    if f.exponent > 0 || f.mantissa < 0 {
        return None;
    }
    let p = pow10_i128((-f.exponent) as u32);
    if f.mantissa as i128 >= p {
        return None;
    }
    let m = f.mantissa as i128;
    proof {
        lemma_pow10_positive((-f.exponent) as nat);
        let mi = m as int;
        let pi = p as int;
        assert(0 <= mi * 86_400_000_000_000 < pi * 86_400_000_000_000) by (nonlinear_arith)
            requires
                0 <= mi < pi,
        {
        }
        assert(0 <= (mi * 86_400_000_000_000) / pi < 86_400_000_000_000) by (nonlinear_arith)
            requires
                0 <= mi * 86_400_000_000_000 < pi * 86_400_000_000_000,
                pi >= 1,
        {
        }
    }
    Some(((m * NANOS_PER_DAY as i128) / p) as i64)
}


/// Reads the epoch of element line `chars[s..e]`.
fn read_epoch(chars: &Vec<char>, s: usize, e: usize) -> (r: Option<Timestamp>)
    requires
        s <= e <= chars.len(),
        e - s >= 68,
    ensures
        r is Some <==> epoch_of(chars@.subrange(s as int, e as int)) is Some,
        r is Some ==> epoch_of(chars@.subrange(s as int, e as int))->Some_0 == r->Some_0.nanos,
{
    let ghost l1 = chars@.subrange(s as int, e as int);
    proof {
        lemma_cols(chars@, s as int, e as int);
        assert(cols(l1, 18, 20) == chars@.subrange(s + 18, s + 20));
        assert(cols(l1, 20, 23) == chars@.subrange(s + 20, s + 23));
        assert(cols(l1, 23, 32) == chars@.subrange(s + 23, s + 32));
        assert(cols(l1, 20, 23)[0] == chars@[s + 20]);
    }
    let y = match parse_integer(chars, s + 18, s + 20) {
        Some(v) => v,
        None => {
            return None;
        },
    };
    let d = match parse_integer(chars, s + 20, s + 23) {
        Some(v) => v,
        None => {
            return None;
        },
    };
    if chars[s + 20] == '-' {
        return None;
    }
    proof {
        lemma_digits_value_bound(magnitude(chars@.subrange(s + 20, s + 23)));
        assert(pow10(2) == 100 && pow10(3) == 1000) by {
            reveal_with_fuel(pow10, 4);
        }
    }
    let f = match parse_point(chars, s + 23, s + 32) {
        Some(v) => v,
        None => {
            return None;
        },
    };
    let nanos = match day_fraction_nanos(f) {
        Some(v) => v,
        None => {
            return None;
        },
    };
    Timestamp::from_ordinal_date((2000 + y) as i32, d as u32, nanos)
}

/// The fields of a first element line.
struct Line1 {
    satellite_number: i16,
    classification: Classification,
    id_launch_year: i8,
    id_launch_number: i16,
    id_launch_piece: String,
    timestamp: Timestamp,
    mean_motion_d: Decimal,
    mean_motion_dd: Decimal,
    bstar: Decimal,
    set_number: i32,
}

/// The fields of a second element line.
struct Line2 {
    inclination: Decimal,
    right_ascension: Decimal,
    eccentricity: Decimal,
    perigree: Decimal,
    mean_anomaly: Decimal,
    mean_motion: Decimal,
    revolution_number: i32,
}

spec fn line1_read(v: Line1, l1: Seq<char>) -> bool {
    &&& v.satellite_number == integer_value(cols(l1, 2, 7))
    &&& v.classification == if l1[7] == 'U' {
        Classification::Unclassified
    } else {
        Classification::Other
    }
    &&& v.id_launch_year == integer_value(cols(l1, 9, 11))
    &&& v.id_launch_number == integer_value(cols(l1, 11, 14))
    &&& v.id_launch_piece@ == trim(cols(l1, 14, 17))
    &&& v.timestamp.nanos == epoch_of(l1)->Some_0
    &&& v.mean_motion_d@ == scaled(field_value(trim(cols(l1, 33, 43)))->Some_0, 2)
    &&& v.mean_motion_dd@ == scaled(field_value(trim(cols(l1, 44, 52)))->Some_0, 6)
    &&& v.bstar@ == field_value(trim(cols(l1, 53, 61)))->Some_0
    &&& v.set_number == integer_value(trim(cols(l1, 64, 68)))
}

spec fn line2_read(v: Line2, l2: Seq<char>) -> bool {
    &&& v.inclination@ == point_value(trim(cols(l2, 8, 16)))->Some_0
    &&& v.right_ascension@ == point_value(trim(cols(l2, 17, 25)))->Some_0
    &&& v.eccentricity@ == field_value(trim(cols(l2, 26, 33)))->Some_0
    &&& v.perigree@ == point_value(trim(cols(l2, 34, 42)))->Some_0
    &&& v.mean_anomaly@ == point_value(trim(cols(l2, 43, 51)))->Some_0
    &&& v.mean_motion@ == point_value(trim(cols(l2, 52, 63)))->Some_0
    &&& v.revolution_number == integer_value(trim(cols(l2, 63, 68)))
}

/// Reads the first element line `chars[s..e]`.
fn read_line1(chars: &Vec<char>, s: usize, e: usize) -> (r: Option<Line1>)
    requires
        s <= e <= chars.len(),
    ensures
        r is Some <==> line1_ok(chars@.subrange(s as int, e as int)),
        r is Some ==> line1_read(r->Some_0, chars@.subrange(s as int, e as int)),
{
    let ghost l1 = chars@.subrange(s as int, e as int);
    if e - s != 69 {
        return None;
    }
    proof {
        lemma_cols(chars@, s as int, e as int);
        assert(cols(l1, 2, 7) == chars@.subrange(s + 2, s + 7));
        assert(cols(l1, 9, 11) == chars@.subrange(s + 9, s + 11));
        assert(cols(l1, 11, 14) == chars@.subrange(s + 11, s + 14));
        assert(cols(l1, 14, 17) == chars@.subrange(s + 14, s + 17));
        assert(cols(l1, 33, 43) == chars@.subrange(s + 33, s + 43));
        assert(cols(l1, 44, 52) == chars@.subrange(s + 44, s + 52));
        assert(cols(l1, 53, 61) == chars@.subrange(s + 53, s + 61));
        assert(cols(l1, 64, 68) == chars@.subrange(s + 64, s + 68));
        assert(l1[7] == chars@[s + 7]);
    }
    let satellite_number = match int_field(chars, s + 2, s + 7, -32768, 32767) {
        Some(v) => v as i16,
        None => {
            return None;
        },
    };
    let id_launch_year = match int_field(chars, s + 9, s + 11, -128, 127) {
        Some(v) => v as i8,
        None => {
            return None;
        },
    };
    let id_launch_number = match int_field(chars, s + 11, s + 14, -32768, 32767) {
        Some(v) => v as i16,
        None => {
            return None;
        },
    };
    let timestamp = match read_epoch(chars, s, e) {
        Some(t) => t,
        None => {
            return None;
        },
    };
    let first = match trimmed_field(chars, s + 33, s + 43) {
        Some(v) => v,
        None => {
            return None;
        },
    };
    let second = match trimmed_field(chars, s + 44, s + 52) {
        Some(v) => v,
        None => {
            return None;
        },
    };
    let bstar = match trimmed_field(chars, s + 53, s + 61) {
        Some(v) => v,
        None => {
            return None;
        },
    };
    let set_number = match trimmed_int_field(chars, s + 64, s + 68, -2147483648, 2147483647) {
        Some(v) => v as i32,
        None => {
            return None;
        },
    };
    let (pa, pb) = trim_bounds(chars, s + 14, s + 17);
    let classification = if chars[s + 7] == 'U' {
        Classification::Unclassified
    } else {
        Classification::Other
    };
    Some(
        Line1 {
            satellite_number,
            classification,
            id_launch_year,
            id_launch_number,
            id_launch_piece: string_of(chars, pa, pb),
            timestamp,
            mean_motion_d: Decimal { mantissa: first.mantissa * 2, exponent: first.exponent },
            mean_motion_dd: Decimal { mantissa: second.mantissa * 6, exponent: second.exponent },
            bstar,
            set_number,
        },
    )
}

/// Reads the second element line `chars[s..e]`.
fn read_line2(chars: &Vec<char>, s: usize, e: usize) -> (r: Option<Line2>)
    requires
        s <= e <= chars.len(),
    ensures
        r is Some <==> line2_ok(chars@.subrange(s as int, e as int)),
        r is Some ==> line2_read(r->Some_0, chars@.subrange(s as int, e as int)),
{
    let ghost l2 = chars@.subrange(s as int, e as int);
    if e - s != 69 {
        return None;
    }
    proof {
        lemma_cols(chars@, s as int, e as int);
        assert(cols(l2, 8, 16) == chars@.subrange(s + 8, s + 16));
        assert(cols(l2, 17, 25) == chars@.subrange(s + 17, s + 25));
        assert(cols(l2, 26, 33) == chars@.subrange(s + 26, s + 33));
        assert(cols(l2, 34, 42) == chars@.subrange(s + 34, s + 42));
        assert(cols(l2, 43, 51) == chars@.subrange(s + 43, s + 51));
        assert(cols(l2, 52, 63) == chars@.subrange(s + 52, s + 63));
        assert(cols(l2, 63, 68) == chars@.subrange(s + 63, s + 68));
    }
    let inclination = match trimmed_point_field(chars, s + 8, s + 16) {
        Some(v) => v,
        None => {
            return None;
        },
    };
    if !inclination.is_at_most(180) {
        return None;
    }
    let right_ascension = match trimmed_point_field(chars, s + 17, s + 25) {
        Some(v) => v,
        None => {
            return None;
        },
    };
    let eccentricity = match trimmed_field(chars, s + 26, s + 33) {
        Some(v) => v,
        None => {
            return None;
        },
    };
    if !eccentricity.is_below_one() {
        return None;
    }
    let perigree = match trimmed_point_field(chars, s + 34, s + 42) {
        Some(v) => v,
        None => {
            return None;
        },
    };
    let mean_anomaly = match trimmed_point_field(chars, s + 43, s + 51) {
        Some(v) => v,
        None => {
            return None;
        },
    };
    let mean_motion = match trimmed_point_field(chars, s + 52, s + 63) {
        Some(v) => v,
        None => {
            return None;
        },
    };
    if mean_motion.mantissa <= 0 {
        return None;
    }
    let revolution_number = match trimmed_int_field(
        chars,
        s + 63,
        s + 68,
        -2147483648,
        2147483647,
    ) {
        Some(v) => v as i32,
        None => {
            return None;
        },
    };
    Some(
        Line2 {
            inclination,
            right_ascension,
            eccentricity,
            perigree,
            mean_anomaly,
            mean_motion,
            revolution_number,
        },
    )
}

/// The error for a record that does not read.
fn parse_error(what: &str) -> (r: DeserializationError) {
    DeserializationError::ParseError(what.to_string())
}

/// Reads the record of name line `chars[b0.0..b0.1]` and element lines
/// `chars[b1.0..b1.1]`, `chars[b2.0..b2.1]`.
fn read_record(chars: &Vec<char>, b0: (usize, usize), b1: (usize, usize), b2: (usize, usize)) -> (r:
    Result<TLE, DeserializationError>)
    requires
        b0.0 <= b0.1 <= chars.len(),
        b1.0 <= b1.1 <= chars.len(),
        b2.0 <= b2.1 <= chars.len(),
    ensures
        r is Ok <==> line1_ok(chars@.subrange(b1.0 as int, b1.1 as int)) && line2_ok(
            chars@.subrange(b2.0 as int, b2.1 as int),
        ),
        r is Ok ==> r->Ok_0.wf() && r->Ok_0.describes(
            chars@.subrange(b0.0 as int, b0.1 as int),
            chars@.subrange(b1.0 as int, b1.1 as int),
            chars@.subrange(b2.0 as int, b2.1 as int),
        ),
{
    let first = match read_line1(chars, b1.0, b1.1) {
        Some(v) => v,
        None => {
            return Err(parse_error("malformed first element line"));
        },
    };
    let second = match read_line2(chars, b2.0, b2.1) {
        Some(v) => v,
        None => {
            return Err(parse_error("malformed second element line"));
        },
    };
    let valid = checksum_in(chars, b1.0, b1.1) && checksum_in(chars, b2.0, b2.1);
    Ok(
        TLE {
            name: string_of(chars, b0.0, b0.1),
            satellite_number: first.satellite_number,
            classification: first.classification,
            id_launch_year: first.id_launch_year,
            id_launch_number: first.id_launch_number,
            id_launch_piece: first.id_launch_piece,
            timestamp: first.timestamp,
            mean_motion_d: first.mean_motion_d,
            mean_motion_dd: first.mean_motion_dd,
            bstar: first.bstar,
            set_number: first.set_number,
            inclination: second.inclination,
            right_ascension: second.right_ascension,
            eccentricity: second.eccentricity,
            perigree: second.perigree,
            mean_anomaly: second.mean_anomaly,
            mean_motion: second.mean_motion,
            revolution_number: second.revolution_number,
            valid,
        },
    )
}

impl TLE {
    /// Whether both element lines pass their check digit. A record that fails it is
    /// still read; callers decide whether to keep it.
    pub fn is_valid(&self) -> (r: bool)
        ensures
            r == self.valid,
    {
        self.valid
    }

    /// Reads the record that `input` starts with: a name line, then two element
    /// lines. Lines after the third are not looked at.
    pub fn new(input: &String) -> (r: Result<TLE, DeserializationError>)
        ensures
            r is Ok <==> record_ok(text_lines(input@)),
            r is Ok ==> r->Ok_0.wf() && r->Ok_0.describes(
                text_lines(input@)[0],
                text_lines(input@)[1],
                text_lines(input@)[2],
            ),
    {
        let chars = chars_of(input.as_str());
        let lines = split_lines(&chars);
        if lines.len() < 3 {
            return Err(parse_error("a record needs a name line and two element lines"));
        }
        read_record(&chars, lines[0], lines[1], lines[2])
    }
}

/// The text of a record: the name line, a line feed, the first element line, a
/// line feed, the second element line.
pub open spec fn record_text(name: Seq<char>, l1: Seq<char>, l2: Seq<char>) -> Seq<char> {
    name + seq!['\n'] + l1 + seq!['\n'] + l2
}

/// `s` holds no line feed.
pub open spec fn no_line_feed(s: Seq<char>) -> bool {
    forall|j: int| 0 <= j < s.len() ==> s[j] != '\n'
}

/// `s` ends in a carriage return.
pub open spec fn ends_in_cr(s: Seq<char>) -> bool {
    s.len() > 0 && s.last() == '\r'
}

/// Reading the text of a record gives its three lines back: where no line holds a
/// line feed, the name line and the first element line do not end in a carriage
/// return, and both element lines read, the text of the record reads (so
/// `TLE::new` returns `Ok`), its lines are the name line and the two element lines
/// (so the element set is the one they hold), and the element set is flagged valid
/// exactly when both element lines pass their check.
pub proof fn lemma_record_round_trip(name: Seq<char>, l1: Seq<char>, l2: Seq<char>)
    requires
        no_line_feed(name),
        no_line_feed(l1),
        no_line_feed(l2),
        !ends_in_cr(name),
        !ends_in_cr(l1),
        line1_ok(l1),
        line2_ok(l2),
    ensures
        text_lines(record_text(name, l1, l2)) == seq![name, l1, l2],
        record_ok(text_lines(record_text(name, l1, l2))),
        forall|t: TLE|
            #[trigger] t.describes(name, l1, l2) ==> (t.valid <==> checksum_ok(l1) && checksum_ok(
                l2,
            )),
{
    let s = record_text(name, l1, l2);
    let n = name.len() as int;
    let p1 = n + 1;
    let e1 = p1 + l1.len();
    let p2 = e1 + 1;
    let len = s.len() as int;
    assert(len == p2 + l2.len());
    assert forall|j: int| 0 <= j < n implies s[j] == name[j] by {}
    assert(s[n] == '\n');
    assert forall|j: int| p1 <= j < e1 implies s[j] == l1[j - p1] by {}
    assert(s[e1] == '\n');
    assert forall|j: int| p2 <= j < len implies s[j] == l2[j - p2] by {}
    lemma_line_end_at(s, 0, n);
    lemma_line_end_at(s, p1, e1);
    lemma_line_end_at(s, p2, len);
    if n > 0 {
        assert(s[n - 1] == name.last());
    }
    assert(s[e1 - 1] == l1.last());
    assert(line_at(s, 0) =~= name);
    assert(line_at(s, p1) =~= l1);
    assert(line_at(s, p2) =~= l2);
    assert(lines_from(s, len + 1) == Seq::<Seq<char>>::empty());
    assert(lines_from(s, p2) == seq![l2]);
    assert(lines_from(s, p1) =~= seq![l1, l2]);
    assert(lines_from(s, 0) =~= seq![name, l1, l2]);
}

/// A readable record whose element lines pass their check fails it once one digit
/// of either element line, before its check digit, is changed to another digit:
/// where the changed text still reads (as `TLE::new` then returns `Ok`), its lines
/// are the changed ones and its element set is flagged invalid. `second` picks the
/// line changed, `k` the column and `c` the new digit.
pub proof fn lemma_record_digit_change(
    name: Seq<char>,
    l1: Seq<char>,
    l2: Seq<char>,
    second: bool,
    k: int,
    c: char,
)
    requires
        no_line_feed(name),
        no_line_feed(l1),
        no_line_feed(l2),
        !ends_in_cr(name),
        !ends_in_cr(l1),
        line1_ok(l1),
        line2_ok(l2),
        checksum_ok(l1),
        checksum_ok(l2),
        0 <= k < 68,
        is_digit(c),
        second ==> is_digit(l2[k]) && c != l2[k] && line2_ok(l2.update(k, c)),
        !second ==> is_digit(l1[k]) && c != l1[k] && line1_ok(l1.update(k, c)),
    ensures
        ({
            let n1 = if second {
                l1
            } else {
                l1.update(k, c)
            };
            let n2 = if second {
                l2.update(k, c)
            } else {
                l2
            };
            &&& text_lines(record_text(name, n1, n2)) == seq![name, n1, n2]
            &&& record_ok(text_lines(record_text(name, n1, n2)))
            &&& forall|t: TLE| #[trigger] t.describes(name, n1, n2) ==> !t.valid
        }),
{
    let n1 = if second {
        l1
    } else {
        l1.update(k, c)
    };
    let n2 = if second {
        l2.update(k, c)
    } else {
        l2
    };
    assert(no_line_feed(n1)) by {
        assert forall|j: int| 0 <= j < n1.len() implies n1[j] != '\n' by {
            if !second && j == k {
                assert(n1[j] == c);
            }
        }
    }
    assert(no_line_feed(n2)) by {
        assert forall|j: int| 0 <= j < n2.len() implies n2[j] != '\n' by {
            if second && j == k {
                assert(n2[j] == c);
            }
        }
    }
    assert(n1.len() == 69 && n1.last() == n1[68]);
    assert(!ends_in_cr(n1)) by {
        if !second {
            assert(n1[68] == l1[68]);
            assert(l1.last() == l1[68]);
        }
    }
    lemma_record_round_trip(name, n1, n2);
    if second {
        lemma_digit_change_breaks_checksum(l2, k, c);
    } else {
        lemma_digit_change_breaks_checksum(l1, k, c);
    }
}

/// The lines of the `k`-th run of three lines of `lines`, with blanks stripped
/// from both ends of each.
pub open spec fn record_lines(lines: Seq<Seq<char>>, k: int) -> Seq<Seq<char>> {
    seq![trim(lines[3 * k]), trim(lines[3 * k + 1]), trim(lines[3 * k + 2])]
}

/// The indices, in order, of the runs among the first `n` runs of three lines
/// of `lines` that read as records.
pub open spec fn readable_records(lines: Seq<Seq<char>>, n: int) -> Seq<int>
    decreases n,
{
    if n <= 0 {
        Seq::empty()
    } else {
        let earlier = readable_records(lines, n - 1);
        if record_ok(record_lines(lines, n - 1)) {
            earlier.push(n - 1)
        } else {
            earlier
        }
    }
}

/// Reads every record of `text`: each run of three lines, blanks stripped from the
/// ends of each line, is read as `TLE::new` reads a record. Runs that do not read,
/// and lines left over after the last full run, are dropped; records that fail
/// their check digits are kept.
pub fn parse_file(text: &str) -> (r: Vec<TLE>)
    ensures
        r.len() == readable_records(text_lines(text@), text_lines(text@).len() as int / 3).len(),
        forall|j: int|
            #![trigger r[j]]
            0 <= j < r.len() ==> {
                let rec = record_lines(
                    text_lines(text@),
                    readable_records(text_lines(text@), text_lines(text@).len() as int / 3)[j],
                );
                r[j].wf() && r[j].describes(rec[0], rec[1], rec[2])
            },
{
    let chars = chars_of(text);
    let lines = split_lines(&chars);
    let ghost all = text_lines(text@);
    let n = lines.len() / 3;
    let mut r: Vec<TLE> = Vec::new();
    let mut k: usize = 0;
    while k < n
        invariant
            chars@ == text@,
            all == text_lines(text@),
            lines.len() == all.len(),
            forall|i: int| #![trigger lines[i]] 0 <= i < lines.len() ==> lines[i].0 <= lines[i].1 <= chars.len(),
            forall|i: int|
                #![trigger lines[i]]
                0 <= i < lines.len() ==> chars@.subrange(lines[i].0 as int, lines[i].1 as int)
                    == all[i],
            n == lines.len() / 3,
            k <= n,
            r.len() == readable_records(all, k as int).len(),
            forall|j: int|
                #![trigger r[j]]
                0 <= j < r.len() ==> {
                    let rec = record_lines(all, readable_records(all, k as int)[j]);
                    r[j].wf() && r[j].describes(rec[0], rec[1], rec[2])
                },
        decreases n - k,
    {
        let l0 = lines[3 * k];
        let l1 = lines[3 * k + 1];
        let l2 = lines[3 * k + 2];
        let t0 = trim_bounds(&chars, l0.0, l0.1);
        let t1 = trim_bounds(&chars, l1.0, l1.1);
        let t2 = trim_bounds(&chars, l2.0, l2.1);
        let ghost rec = record_lines(all, k as int);
        assert(chars@.subrange(t0.0 as int, t0.1 as int) == rec[0]);
        assert(chars@.subrange(t1.0 as int, t1.1 as int) == rec[1]);
        assert(chars@.subrange(t2.0 as int, t2.1 as int) == rec[2]);
        let ghost before = r@;
        match read_record(&chars, t0, t1, t2) {
            Ok(t) => {
                r.push(t);
            },
            Err(_) => {},
        }
        proof {
            let prev = readable_records(all, k as int);
            let next = readable_records(all, k + 1);
            assert forall|j: int| #![trigger r[j]] 0 <= j < r.len() implies {
                let rec_j = record_lines(all, next[j]);
                r[j].wf() && r[j].describes(rec_j[0], rec_j[1], rec_j[2])
            } by {
                if j < prev.len() {
                    assert(next[j] == prev[j]);
                    assert(r[j] == before[j]);
                }
            }
        }
        k = k + 1;
    }
    r
}

/// A satellite whose elements come from an element set.
#[derive(Clone, Debug, PartialEq)]
pub struct Satellite {
    body: Body,
    tle: TLE,
}

impl Satellite {
    /// The element set it was built from.
    pub closed spec fn elements(&self) -> TLE {
        self.tle
    }

    /// The body it orbits.
    pub closed spec fn orbited(&self) -> Body {
        self.body
    }
}

impl satellite::Satellite<TLE> for Satellite {
    fn new(body: Body, tle: TLE) -> (r: Satellite)
        ensures
            r.orbited() == body,
            r.elements() == tle,
    {
        Satellite { body, tle }
    }

    fn body(&self) -> (r: &Body)
        ensures
            *r == self.orbited(),
    {
        &self.body
    }

    fn right_ascension(&self) -> (r: Decimal)
        ensures
            r == self.elements().right_ascension,
    {
        self.tle.right_ascension
    }

    fn perigree(&self) -> (r: Decimal)
        ensures
            r == self.elements().perigree,
    {
        self.tle.perigree
    }

    fn mean_motion(&self) -> (r: Decimal)
        ensures
            r == self.elements().mean_motion,
    {
        self.tle.mean_motion
    }

    fn mean_motion_d(&self) -> (r: Decimal)
        ensures
            r == self.elements().mean_motion_d,
    {
        self.tle.mean_motion_d
    }

    fn mean_anomaly(&self) -> (r: Decimal)
        ensures
            r == self.elements().mean_anomaly,
    {
        self.tle.mean_anomaly
    }

    fn eccentricity(&self) -> (r: Decimal)
        ensures
            r == self.elements().eccentricity,
    {
        self.tle.eccentricity
    }

    fn inclination(&self) -> (r: Decimal)
        ensures
            r == self.elements().inclination,
    {
        self.tle.inclination
    }

    fn timestamp(&self) -> (r: Timestamp)
        ensures
            r == self.elements().timestamp,
    {
        self.tle.timestamp
    }
}

} // verus!
