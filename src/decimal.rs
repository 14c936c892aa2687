//! Exact decimal numbers and the numeric notations of element records.
use vstd::prelude::*;

use crate::text::{
    all_digits, digit_value, digits_value, is_ascii_digit, is_digit, lemma_digits_value_bound,
    lemma_pow10_18, lemma_pow10_monotone, lemma_pow10_positive, pow10,
};

verus! {

/// A decimal number held exactly, as `mantissa × 10^exponent`.
#[derive(Clone, Copy, Debug, PartialEq, Eq, Structural)]
pub struct Decimal {
    pub mantissa: i64,
    pub exponent: i32,
}

impl View for Decimal {
    type V = (int, int);

    /// The pair (mantissa, exponent).
    open spec fn view(&self) -> (int, int) {
        (self.mantissa as int, self.exponent as int)
    }
}

/// The view of an optional decimal.
pub open spec fn opt_view(r: Option<Decimal>) -> Option<(int, int)> {
    match r {
        Some(d) => Some(d@),
        None => None,
    }
}

/// The length of the sign that `s` starts with: 1 for `+` or `-`, else 0.
pub open spec fn sign_len(s: Seq<char>) -> int {
    if s.len() > 0 && (s[0] == '+' || s[0] == '-') {
        1
    } else {
        0
    }
}

/// `s` without its leading sign.
pub open spec fn magnitude(s: Seq<char>) -> Seq<char> {
    s.skip(sign_len(s))
}

/// `v` with the sign that `s` starts with.
pub open spec fn signed(s: Seq<char>, v: int) -> int {
    if s.len() > 0 && s[0] == '-' {
        -v
    } else {
        v
    }
}

/// Integer text: an optional sign, then one digit or more.
pub open spec fn is_integer_text(s: Seq<char>) -> bool {
    magnitude(s).len() > 0 && all_digits(magnitude(s))
}

/// The value of integer text.
pub open spec fn integer_value(s: Seq<char>) -> int {
    signed(s, digits_value(magnitude(s)))
}

/// Integer text without a minus sign (as unsigned types read it).
pub open spec fn is_natural_text(s: Seq<char>) -> bool {
    is_integer_text(s) && !(s.len() > 0 && s[0] == '-')
}

/// The number of digits that `s` starts with.
pub open spec fn leading_digits(s: Seq<char>) -> nat
    decreases s.len(),
{
    if s.len() > 0 && is_digit(s[0]) {
        1 + leading_digits(s.skip(1))
    } else {
        0
    }
}

/// The digits that `s` starts with are followed by a decimal point.
pub open spec fn has_point(s: Seq<char>) -> bool {
    leading_digits(s) < s.len() && s[leading_digits(s) as int] == '.'
}

/// Fixed-point text without a sign: digits, or digits, a point and digits, with
/// one digit at least in all (`51.6448`, `.00012260`, `7.`, `15`).
pub open spec fn is_point_text(u: Seq<char>) -> bool {
    if has_point(u) {
        all_digits(u.skip(leading_digits(u) as int + 1)) && u.len() >= 2
    } else {
        leading_digits(u) == u.len() && u.len() >= 1
    }
}

/// The digits of fixed-point text, without its point.
pub open spec fn point_digits(u: Seq<char>) -> Seq<char> {
    if has_point(u) {
        u.take(leading_digits(u) as int) + u.skip(leading_digits(u) as int + 1)
    } else {
        u
    }
}

/// The number of digits after the point of fixed-point text.
pub open spec fn point_scale(u: Seq<char>) -> int {
    if has_point(u) {
        u.len() - leading_digits(u) - 1
    } else {
        0
    }
}

/// Fixed-point text with an optional sign, as (mantissa, exponent).
pub open spec fn point_value(s: Seq<char>) -> Option<(int, int)> {
    let u = magnitude(s);
    if is_point_text(u) {
        Some((signed(s, digits_value(point_digits(u))), -point_scale(u)))
    } else {
        None
    }
}

/// The compact notation ends in a signed one-digit power of ten (`31134-2`).
pub open spec fn has_exponent(u: Seq<char>) -> bool {
    u.len() >= 2 && (u[u.len() - 2] == '+' || u[u.len() - 2] == '-') && is_digit(u.last())
}

/// The digits of compact text, before its power of ten.
pub open spec fn compact_digits(u: Seq<char>) -> Seq<char> {
    if has_exponent(u) {
        u.take(u.len() - 2)
    } else {
        u
    }
}

/// The power of ten of compact text (0 where none is written).
pub open spec fn compact_power(u: Seq<char>) -> int {
    if has_exponent(u) {
        if u[u.len() - 2] == '-' {
            -digit_value(u.last())
        } else {
            digit_value(u.last())
        }
    } else {
        0
    }
}

/// Compact text with an optional sign: digits with an implied point before them,
/// then optionally a signed power of ten, as (mantissa, exponent).
/// `-31134-2` is -0.31134e-2, `0008835` is 0.0008835.
pub open spec fn compact_value(s: Seq<char>) -> Option<(int, int)> {
    let u = magnitude(s);
    let d = compact_digits(u);
    if d.len() >= 1 && all_digits(d) {
        Some((signed(s, digits_value(d)), compact_power(u) - d.len()))
    } else {
        None
    }
}

/// A field that holds either fixed-point text, where it has a point after its
/// leading digits, or compact text.
pub open spec fn field_value(s: Seq<char>) -> Option<(int, int)> {
    if has_point(magnitude(s)) {
        point_value(s)
    } else {
        compact_value(s)
    }
}

proof fn lemma_leading_digits(s: Seq<char>)
    ensures
        leading_digits(s) <= s.len(),
        forall|i: int| 0 <= i < leading_digits(s) ==> is_digit(#[trigger] s[i]),
        leading_digits(s) < s.len() ==> !is_digit(s[leading_digits(s) as int]),
    decreases s.len(),
{
    if s.len() > 0 && is_digit(s[0]) {
        lemma_leading_digits(s.skip(1));
        assert forall|i: int| 0 <= i < leading_digits(s) implies is_digit(#[trigger] s[i]) by {
            if i > 0 {
                assert(s[i] == s.skip(1)[i - 1]);
            }
        }
    }
}

proof fn lemma_digit_bound(s: Seq<char>)
    requires
        all_digits(s),
        s.len() <= 18,
    ensures
        0 <= digits_value(s) < 1_000_000_000_000_000_000,
{
    lemma_digits_value_bound(s);
    lemma_pow10_monotone(s.len(), 18);
    lemma_pow10_18();
}

/// The number that `chars[from..to]` writes, when every one of its characters is a digit.
pub fn parse_digits(chars: &Vec<char>, from: usize, to: usize) -> (r: Option<i64>)
    requires
        from <= to <= chars.len(),
        to - from <= 18,
    ensures
        r is Some <==> all_digits(chars@.subrange(from as int, to as int)),
        r is Some ==> r->Some_0 == digits_value(chars@.subrange(from as int, to as int)),
{
    let mut acc: i64 = 0;
    let mut i: usize = from;
    while i < to
        invariant
            from <= i <= to <= chars.len(),
            to - from <= 18,
            all_digits(chars@.subrange(from as int, i as int)),
            acc == digits_value(chars@.subrange(from as int, i as int)),
        decreases to - i,
    {
        let c = chars[i];
        if !is_ascii_digit(c) {
            assert(chars@.subrange(from as int, to as int)[i - from] == c);
            return None;
        }
        let ghost prev = chars@.subrange(from as int, i as int);
        let ghost next = chars@.subrange(from as int, i + 1);
        assert(next.drop_last() =~= prev);
        assert(all_digits(next)) by {
            assert forall|j: int| 0 <= j < next.len() implies is_digit(#[trigger] next[j]) by {
                if j < prev.len() {
                    assert(next[j] == prev[j]);
                }
            }
        }
        proof {
            lemma_digit_bound(next);
        }
        acc = acc * 10 + (c as u32 - '0' as u32) as i64;
        i = i + 1;
    }
    assert(chars@.subrange(from as int, i as int) =~= chars@.subrange(from as int, to as int));
    Some(acc)
}

/// The length of the sign at `chars[from]`, within `chars[from..to]`.
fn sign_at(chars: &Vec<char>, from: usize, to: usize) -> (r: usize)
    requires
        from <= to <= chars.len(),
    ensures
        r == sign_len(chars@.subrange(from as int, to as int)),
        from + r <= to,
        chars@.subrange(from as int, to as int).skip(r as int) =~= chars@.subrange(
            from + r,
            to as int,
        ),
{
    if from < to && (chars[from] == '+' || chars[from] == '-') {
        1
    } else {
        0
    }
}

/// Applies the sign of `chars[from..to]` to `v`.
fn apply_sign(chars: &Vec<char>, from: usize, to: usize, v: i64) -> (r: i64)
    requires
        from <= to <= chars.len(),
        0 <= v < 1_000_000_000_000_000_000,
    ensures
        r == signed(chars@.subrange(from as int, to as int), v as int),
{
    if from < to && chars[from] == '-' {
        -v
    } else {
        v
    }
}

/// Reads integer text in `chars[from..to]`.
pub fn parse_integer(chars: &Vec<char>, from: usize, to: usize) -> (r: Option<i64>)
    requires
        from <= to <= chars.len(),
        to - from <= 18,
    ensures
        r is Some <==> is_integer_text(chars@.subrange(from as int, to as int)),
        r is Some ==> r->Some_0 == integer_value(chars@.subrange(from as int, to as int)),
        r is Some ==> -pow10((to - from) as nat) < r->Some_0 < pow10((to - from) as nat),
{
    let k = from + sign_at(chars, from, to);
    if k == to {
        return None;
    }
    match parse_digits(chars, k, to) {
        Some(v) => {
            proof {
                lemma_digit_bound(chars@.subrange(k as int, to as int));
                lemma_digits_value_bound(chars@.subrange(k as int, to as int));
                lemma_pow10_monotone((to - k) as nat, (to - from) as nat);
            }
            Some(apply_sign(chars, from, to, v))
        },
        None => None,
    }
}

/// The end of the run of digits that starts at `chars[from]`, within `chars[from..to]`.
fn digit_run_end(chars: &Vec<char>, from: usize, to: usize) -> (r: usize)
    requires
        from <= to <= chars.len(),
    ensures
        from <= r <= to,
        r - from == leading_digits(chars@.subrange(from as int, to as int)),
{
    let mut i: usize = from;
    while i < to && is_ascii_digit(chars[i])
        invariant
            from <= i <= to <= chars.len(),
            leading_digits(chars@.subrange(from as int, to as int)) == (i - from) + leading_digits(
                chars@.subrange(i as int, to as int),
            ),
        decreases to - i,
    {
        assert(chars@.subrange(i as int, to as int).skip(1) =~= chars@.subrange(i + 1, to as int));
        i = i + 1;
    }
    i
}

/// The number that the digits of `chars[a..p]` followed by those of `chars[p + 1..to]`
/// write, when every character of the second run is a digit.
fn parse_split_digits(chars: &Vec<char>, a: usize, p: usize, to: usize) -> (r: Option<i64>)
    requires
        a <= p < to <= chars.len(),
        to - a <= 18,
        all_digits(chars@.subrange(a as int, p as int)),
    ensures
        r is Some <==> all_digits(chars@.subrange(p + 1, to as int)),
        r is Some ==> r->Some_0 == digits_value(
            chars@.subrange(a as int, p as int) + chars@.subrange(p + 1, to as int),
        ),
        r is Some ==> 0 <= r->Some_0 < 1_000_000_000_000_000_000,
{
    let ghost head = chars@.subrange(a as int, p as int);
    let mut acc: i64 = match parse_digits(chars, a, p) {
        Some(v) => v,
        None => {
            return None;
        },
    };
    assert(head + chars@.subrange(p + 1, p + 1) =~= head);
    let mut j: usize = p + 1;
    while j < to
        invariant
            a <= p < j <= to <= chars.len(),
            to - a <= 18,
            head == chars@.subrange(a as int, p as int),
            all_digits(head),
            all_digits(chars@.subrange(p + 1, j as int)),
            acc == digits_value(head + chars@.subrange(p + 1, j as int)),
        decreases to - j,
    {
        let c = chars[j];
        if !is_ascii_digit(c) {
            assert(chars@.subrange(p + 1, to as int)[j - p - 1] == c);
            return None;
        }
        let ghost tail = chars@.subrange(p + 1, j + 1);
        let ghost prev = head + chars@.subrange(p + 1, j as int);
        let ghost next = head + tail;
        assert(next.drop_last() =~= prev);
        assert(all_digits(tail)) by {
            assert forall|i: int| 0 <= i < tail.len() implies is_digit(#[trigger] tail[i]) by {
                if i < tail.len() - 1 {
                    assert(tail[i] == chars@.subrange(p + 1, j as int)[i]);
                }
            }
        }
        assert(all_digits(next)) by {
            assert forall|i: int| 0 <= i < next.len() implies is_digit(#[trigger] next[i]) by {
                if i >= head.len() {
                    assert(next[i] == tail[i - head.len()]);
                }
            }
        }
        proof {
            lemma_digit_bound(next);
        }
        acc = acc * 10 + (c as u32 - '0' as u32) as i64;
        j = j + 1;
    }
    proof {
        let all = head + chars@.subrange(p + 1, to as int);
        assert(all_digits(all)) by {
            assert forall|i: int| 0 <= i < all.len() implies is_digit(#[trigger] all[i]) by {
                if i >= head.len() {
                    assert(all[i] == chars@.subrange(p + 1, to as int)[i - head.len()]);
                }
            }
        }
        lemma_digit_bound(all);
    }
    Some(acc)
}

/// Reads fixed-point text with an optional sign in `chars[from..to]`.
pub fn parse_point(chars: &Vec<char>, from: usize, to: usize) -> (r: Option<Decimal>)
    requires
        from <= to <= chars.len(),
        to - from <= 18,
    ensures
        opt_view(r) == point_value(chars@.subrange(from as int, to as int)),
        r is Some ==> bounded(r->Some_0@),
{
    let ghost s = chars@.subrange(from as int, to as int);
    let k = from + sign_at(chars, from, to);
    let ghost u = chars@.subrange(k as int, to as int);
    assert(magnitude(s) =~= u);
    let p = digit_run_end(chars, k, to);
    proof {
        lemma_leading_digits(u);
    }
    if p == to {
        if p == k {
            return None;
        }
        assert(point_digits(u) == u);
        return match parse_digits(chars, k, to) {
            Some(v) => {
                proof {
                    lemma_digit_bound(u);
                }
                Some(Decimal { mantissa: apply_sign(chars, from, to, v), exponent: 0 })
            },
            None => None,
        };
    }
    assert(u[p - k] == chars@[p as int]);
    if chars[p] != '.' || to - k < 2 {
        return None;
    }
    let ghost head = chars@.subrange(k as int, p as int);
    assert(all_digits(head)) by {
        assert forall|j: int| 0 <= j < head.len() implies is_digit(#[trigger] head[j]) by {
            assert(head[j] == u[j]);
        }
    }
    assert(u.take(p - k) =~= head);
    assert(u.skip(p - k + 1) =~= chars@.subrange(p + 1, to as int));
    match parse_split_digits(chars, k, p, to) {
        Some(v) => Some(
            Decimal { mantissa: apply_sign(chars, from, to, v), exponent: -((to - p - 1) as i32) },
        ),
        None => None,
    }
}

/// Reads compact text with an optional sign in `chars[from..to]`.
pub fn parse_compact(chars: &Vec<char>, from: usize, to: usize) -> (r: Option<Decimal>)
    requires
        from <= to <= chars.len(),
        to - from <= 18,
    ensures
        opt_view(r) == compact_value(chars@.subrange(from as int, to as int)),
        r is Some ==> bounded(r->Some_0@),
{
    let ghost s = chars@.subrange(from as int, to as int);
    let k = from + sign_at(chars, from, to);
    let ghost u = chars@.subrange(k as int, to as int);
    assert(magnitude(s) =~= u);
    let exp_written = to - k >= 2 && (chars[to - 2] == '+' || chars[to - 2] == '-')
        && is_ascii_digit(chars[to - 1]);
    assert(exp_written == has_exponent(u)) by {
        if to - k >= 2 {
            assert(u[u.len() - 2] == chars@[to - 2]);
            assert(u.last() == chars@[to - 1]);
        }
    }
    let d_end = if exp_written {
        to - 2
    } else {
        to
    };
    assert(compact_digits(u) =~= chars@.subrange(k as int, d_end as int));
    if d_end == k {
        return None;
    }
    match parse_digits(chars, k, d_end) {
        Some(v) => {
            proof {
                lemma_digit_bound(chars@.subrange(k as int, d_end as int));
            }
            let power: i32 = if exp_written {
                let e = (chars[to - 1] as u32 - '0' as u32) as i32;
                if chars[to - 2] == '-' {
                    -e
                } else {
                    e
                }
            } else {
                0
            };
            let m = apply_sign(chars, from, to, v);
            Some(Decimal { mantissa: m, exponent: power - (d_end - k) as i32 })
        },
        None => None,
    }
}

/// Reads a field that holds either fixed-point or compact text, in `chars[from..to]`.
pub fn parse_field(chars: &Vec<char>, from: usize, to: usize) -> (r: Option<Decimal>)
    requires
        from <= to <= chars.len(),
        to - from <= 18,
    ensures
        opt_view(r) == field_value(chars@.subrange(from as int, to as int)),
        r is Some ==> bounded(r->Some_0@),
{
    let ghost s = chars@.subrange(from as int, to as int);
    let k = from + sign_at(chars, from, to);
    let ghost u = chars@.subrange(k as int, to as int);
    assert(magnitude(s) =~= u);
    let p = digit_run_end(chars, k, to);
    let point = p < to && chars[p] == '.';
    assert(point == has_point(u)) by {
        if p < to {
            assert(u[p - k] == chars@[p as int]);
        }
    }
    if point {
        parse_point(chars, from, to)
    } else {
        parse_compact(chars, from, to)
    }
}

/// A value that the parsers of this module can give: a mantissa of at most
/// eighteen digits and an exponent from -27 to 9.
pub open spec fn bounded(v: (int, int)) -> bool {
    -1_000_000_000_000_000_000 < v.0 < 1_000_000_000_000_000_000 && -27 <= v.1 <= 9
}

/// `v.0 × 10^v.1` lies in [0, 1).
pub open spec fn below_one(v: (int, int)) -> bool {
    v.0 >= 0 && if v.1 >= 0 {
        v.0 == 0
    } else {
        v.0 < pow10((-v.1) as nat)
    }
}

/// `v.0 × 10^v.1` lies in [0, k].
pub open spec fn at_most(v: (int, int), k: int) -> bool {
    v.0 >= 0 && if v.1 >= 0 {
        v.0 * pow10(v.1 as nat) <= k
    } else {
        v.0 <= k * pow10((-v.1) as nat)
    }
}

/// Ten to the power `n`, for `n` up to 30.
pub fn pow10_i128(n: u32) -> (r: i128)
    requires
        n <= 30,
    ensures
        r == pow10(n as nat),
{
    proof {
        lemma_pow10_30();
    }
    let mut r: i128 = 1;
    let mut i: u32 = 0;
    while i < n
        invariant
            i <= n <= 30,
            r == pow10(i as nat),
            pow10(30) == 1_000_000_000_000_000_000_000_000_000_000,
        decreases n - i,
    {
        proof {
            lemma_pow10_monotone((i + 1) as nat, 30);
            assert(pow10((i + 1) as nat) == 10 * pow10(i as nat));
            assert(r * 10 <= 1_000_000_000_000_000_000_000_000_000_000);
            lemma_pow10_positive(i as nat);
        }
        r = r * 10;
        i = i + 1;
    }
    r
}

proof fn lemma_pow10_30()
    ensures
        pow10(30) == 1_000_000_000_000_000_000_000_000_000_000,
{
    reveal_with_fuel(pow10, 31);
}

impl Decimal {
    /// Whether the value lies in [0, 1).
    pub fn is_below_one(&self) -> (r: bool)
        requires
            bounded(self@),
        ensures
            r == below_one(self@),
    {
        if self.mantissa < 0 {
            false
        } else if self.exponent >= 0 {
            self.mantissa == 0
        } else {
            (self.mantissa as i128) < pow10_i128((-self.exponent) as u32)
        }
    }

    /// Whether the value lies in [0, k].
    pub fn is_at_most(&self, k: u16) -> (r: bool)
        requires
            bounded(self@),
        ensures
            r == at_most(self@, k as int),
    {
        if self.mantissa < 0 {
            false
        } else if self.exponent >= 0 {
            let p = pow10_i128(self.exponent as u32);
            proof {
                lemma_pow10_monotone(self.exponent as nat, 9);
                lemma_pow10_positive(self.exponent as nat);
                reveal_with_fuel(pow10, 10);
                assert(0 <= self.mantissa * p <= 1_000_000_000_000_000_000 * 1_000_000_000)
                    by (nonlinear_arith)
                    requires
                        0 <= self.mantissa < 1_000_000_000_000_000_000,
                        1 <= p <= 1_000_000_000,
                {
                }
            }
            self.mantissa as i128 * p <= k as i128
        } else {
            let p = pow10_i128((-self.exponent) as u32);
            proof {
                lemma_pow10_monotone((-self.exponent) as nat, 30);
                lemma_pow10_positive((-self.exponent) as nat);
                lemma_pow10_30();
                assert(0 <= k * p <= 100_000 * 1_000_000_000_000_000_000_000_000_000_000)
                    by (nonlinear_arith)
                    requires
                        0 <= k < 100_000,
                        1 <= p <= 1_000_000_000_000_000_000_000_000_000_000,
                {
                }
            }
            (self.mantissa as i128) <= k as i128 * p
        }
    }
}

} // verus!
