//! Characters, digit strings, trimming and line splitting, over `Seq<char>`.
use vstd::prelude::*;
use vstd::std_specs::iter::IteratorSpec;

verus! {

/// An ASCII decimal digit.
pub open spec fn is_digit(c: char) -> bool {
    '0' as u32 <= c as u32 && c as u32 <= '9' as u32
}

/// The value of a digit character.
pub open spec fn digit_value(c: char) -> int {
    c as u32 - '0' as u32
}

/// A blank character, as `char::is_whitespace` and `str::trim` take it: the
/// characters with the Unicode White_Space property.
pub open spec fn is_space(c: char) -> bool {
    let u = c as u32;
    (0x09 <= u <= 0x0D) || u == 0x20 || u == 0x85 || u == 0xA0 || u == 0x1680 || (0x2000 <= u
        <= 0x200A) || u == 0x2028 || u == 0x2029 || u == 0x202F || u == 0x205F || u == 0x3000
}

/// Every character of `s` is a digit (vacuously true of the empty sequence).
pub open spec fn all_digits(s: Seq<char>) -> bool {
    forall|i: int| 0 <= i < s.len() ==> is_digit(#[trigger] s[i])
}

/// The number that the digit string `s` writes in base ten (0 for the empty string).
pub open spec fn digits_value(s: Seq<char>) -> int
    decreases s.len(),
{
    if s.len() == 0 {
        0
    } else {
        10 * digits_value(s.drop_last()) + digit_value(s.last())
    }
}

/// Ten to the power `n`.
pub open spec fn pow10(n: nat) -> int
    decreases n,
{
    if n == 0 {
        1
    } else {
        10 * pow10((n - 1) as nat)
    }
}

pub proof fn lemma_pow10_positive(n: nat)
    ensures
        pow10(n) >= 1,
    decreases n,
{
    if n > 0 {
        lemma_pow10_positive((n - 1) as nat);
    }
}

pub proof fn lemma_pow10_monotone(m: nat, n: nat)
    requires
        m <= n,
    ensures
        pow10(m) <= pow10(n),
    decreases n,
{
    if m < n {
        lemma_pow10_monotone(m, (n - 1) as nat);
        lemma_pow10_positive((n - 1) as nat);
    }
}

pub proof fn lemma_pow10_18()
    ensures
        pow10(18) == 1_000_000_000_000_000_000,
{
    reveal_with_fuel(pow10, 19);
}

/// A digit string of length `n` writes a number below `10^n`.
pub proof fn lemma_digits_value_bound(s: Seq<char>)
    requires
        all_digits(s),
    ensures
        0 <= digits_value(s) < pow10(s.len()),
    decreases s.len(),
{
    if s.len() > 0 {
        let t = s.drop_last();
        assert(all_digits(t)) by {
            assert forall|i: int| 0 <= i < t.len() implies is_digit(#[trigger] t[i]) by {
                assert(t[i] == s[i]);
            }
        }
        lemma_digits_value_bound(t);
        assert(is_digit(s[s.len() - 1]));
    }
}

/// Strips blanks from the front of `s`.
pub open spec fn trim_start(s: Seq<char>) -> Seq<char>
    decreases s.len(),
{
    if s.len() > 0 && is_space(s[0]) {
        trim_start(s.skip(1))
    } else {
        s
    }
}

/// Strips blanks from the back of `s`.
pub open spec fn trim_end(s: Seq<char>) -> Seq<char>
    decreases s.len(),
{
    if s.len() > 0 && is_space(s.last()) {
        trim_end(s.drop_last())
    } else {
        s
    }
}

/// `s` without blanks at either end.
pub open spec fn trim(s: Seq<char>) -> Seq<char> {
    trim_end(trim_start(s))
}

/// The characters of `s`, in order.
pub fn chars_of(s: &str) -> (r: Vec<char>)
    ensures
        r@ == s@,
{
    let mut r: Vec<char> = Vec::new();
    for c in it: s.chars()
        invariant
            r@ == it.seq().take(it.index() as int),
            it.seq() == s@,
    {
        r.push(c);
    }
    r
}

/// The bounds of `chars[from..to]` once blanks are stripped from both ends.
pub fn trim_bounds(chars: &Vec<char>, from: usize, to: usize) -> (r: (usize, usize))
    requires
        from <= to <= chars.len(),
    ensures
        from <= r.0 <= r.1 <= to,
        chars@.subrange(r.0 as int, r.1 as int) == trim(chars@.subrange(from as int, to as int)),
{
    let mut a: usize = from;
    while a < to && is_blank(chars[a])
        invariant
            from <= a <= to <= chars.len(),
            trim_start(chars@.subrange(from as int, to as int)) == trim_start(
                chars@.subrange(a as int, to as int),
            ),
        decreases to - a,
    {
        assert(chars@.subrange(a as int, to as int).skip(1) =~= chars@.subrange(
            a + 1,
            to as int,
        ));
        a = a + 1;
    }
    let mut b: usize = to;
    while b > a && is_blank(chars[b - 1])
        invariant
            from <= a <= b <= to <= chars.len(),
            trim_end(chars@.subrange(a as int, to as int)) == trim_end(
                chars@.subrange(a as int, b as int),
            ),
        decreases b - a,
    {
        assert(chars@.subrange(a as int, b as int).drop_last() =~= chars@.subrange(
            a as int,
            b - 1,
        ));
        b = b - 1;
    }
    (a, b)
}

/// Whether `c` is a blank character.
pub fn is_blank(c: char) -> (r: bool)
    ensures
        r == is_space(c),
{
    let u = c as u32;
    (0x09 <= u && u <= 0x0D) || u == 0x20 || u == 0x85 || u == 0xA0 || u == 0x1680 || (0x2000 <= u
        && u <= 0x200A) || u == 0x2028 || u == 0x2029 || u == 0x202F || u == 0x205F || u == 0x3000
}

/// Whether `c` is an ASCII decimal digit.
pub fn is_ascii_digit(c: char) -> (r: bool)
    ensures
        r == is_digit(c),
{
    '0' <= c && c <= '9'
}

/// Index of the first line feed of `s` at or after `from`, or the length of `s` when there is none.
pub open spec fn line_end(s: Seq<char>, from: int) -> int
    decreases s.len() - from,
{
    if from < 0 || from >= s.len() {
        s.len() as int
    } else if s[from] == '\n' {
        from
    } else {
        line_end(s, from + 1)
    }
}

pub proof fn lemma_line_end(s: Seq<char>, from: int)
    requires
        0 <= from <= s.len(),
    ensures
        from <= line_end(s, from) <= s.len(),
        line_end(s, from) < s.len() ==> s[line_end(s, from)] == '\n',
        forall|j: int| from <= j < line_end(s, from) ==> s[j] != '\n',
    decreases s.len() - from,
{
    if from < s.len() && s[from] != '\n' {
        lemma_line_end(s, from + 1);
    }
}

/// The first line feed at or after `from` is at `e`, where none stands in
/// `from..e` and `e` is a line feed or the end of `s`.
pub proof fn lemma_line_end_at(s: Seq<char>, from: int, e: int)
    requires
        0 <= from <= e <= s.len(),
        forall|j: int| from <= j < e ==> s[j] != '\n',
        e == s.len() || s[e] == '\n',
    ensures
        line_end(s, from) == e,
    decreases e - from,
{
    if from < e {
        lemma_line_end_at(s, from + 1, e);
    }
}

/// The line of `s` that starts at `from`: up to its line feed, without a carriage
/// return that stands just before that line feed.
pub open spec fn line_at(s: Seq<char>, from: int) -> Seq<char> {
    let e = line_end(s, from);
    if e < s.len() && e > from && s[e - 1] == '\r' {
        s.subrange(from, e - 1)
    } else {
        s.subrange(from, e)
    }
}

/// The lines of `s` from position `from` on.
pub open spec fn lines_from(s: Seq<char>, from: int) -> Seq<Seq<char>>
    decreases s.len() + 1 - from,
{
    if from < 0 || from >= s.len() {
        Seq::empty()
    } else {
        proof {
            lemma_line_end(s, from);
        }
        seq![line_at(s, from)].add(lines_from(s, line_end(s, from) + 1))
    }
}

/// The lines of `s`, as `str::lines` splits them: at each line feed, with a
/// carriage return before it dropped, and no empty line after a final line feed.
pub open spec fn text_lines(s: Seq<char>) -> Seq<Seq<char>> {
    lines_from(s, 0)
}

/// The bounds of each line of `chars`, in order.
pub fn split_lines(chars: &Vec<char>) -> (r: Vec<(usize, usize)>)
    ensures
        r.len() == text_lines(chars@).len(),
        forall|i: int| #![trigger r[i]] 0 <= i < r.len() ==> r[i].0 <= r[i].1 <= chars.len(),
        forall|i: int|
            #![trigger r[i]] 0 <= i < r.len() ==> chars@.subrange(r[i].0 as int, r[i].1 as int) == text_lines(
                chars@,
            )[i],
{
    let ghost s = chars@;
    let ghost all = text_lines(s);
    let mut r: Vec<(usize, usize)> = Vec::new();
    let mut pos: usize = 0;
    while pos < chars.len()
        invariant
            s == chars@,
            all == text_lines(s),
            0 <= pos <= s.len(),
            r.len() <= all.len(),
            lines_from(s, pos as int) == all.skip(r.len() as int),
            forall|i: int| #![trigger r[i]] 0 <= i < r.len() ==> r[i].0 <= r[i].1 <= s.len(),
            forall|i: int|
                #![trigger r[i]] 0 <= i < r.len() ==> s.subrange(r[i].0 as int, r[i].1 as int) == all[i],
        decreases s.len() - pos,
    {
        proof {
            lemma_line_end(s, pos as int);
        }
        let mut e: usize = pos;
        while e < chars.len() && chars[e] != '\n'
            invariant
                s == chars@,
                pos <= e <= s.len(),
                pos < s.len(),
                line_end(s, pos as int) == line_end(s, e as int),
            decreases s.len() - e,
        {
            e = e + 1;
        }
        let line = if e < chars.len() && e > pos && chars[e - 1] == '\r' {
            (pos, e - 1)
        } else {
            (pos, e)
        };
        proof {
            let k = r.len() as int;
            let rest = lines_from(s, e + 1);
            assert(lines_from(s, pos as int) == seq![line_at(s, pos as int)].add(rest));
            assert(all.skip(k).len() > 0);
            assert(all.skip(k)[0] == all[k]);
            assert(all.skip(k).skip(1) =~= all.skip(k + 1));
            assert(seq![line_at(s, pos as int)].add(rest).skip(1) =~= rest);
        }
        r.push(line);
        if e < chars.len() {
            pos = e + 1;
        } else {
            pos = e;
        }
    }
    proof {
        assert(all.skip(r.len() as int).len() == 0);
    }
    r
}

/// Relies on `String::push`: appends one character to the string.
#[verifier::external_body]
fn push_char(s: &mut String, c: char)
    ensures
        final(s)@ == old(s)@.push(c),
{
    s.push(c);
}

/// The string made of `chars[from..to]`.
pub fn string_of(chars: &Vec<char>, from: usize, to: usize) -> (r: String)
    requires
        from <= to <= chars.len(),
    ensures
        r@ == chars@.subrange(from as int, to as int),
{
    let mut r = String::new();
    let mut i: usize = from;
    while i < to
        invariant
            from <= i <= to <= chars.len(),
            r@ == chars@.subrange(from as int, i as int),
        decreases to - i,
    {
        push_char(&mut r, chars[i]);
        assert(chars@.subrange(from as int, i + 1) =~= chars@.subrange(from as int, i as int).push(
            chars@[i as int],
        ));
        i = i + 1;
    }
    r
}

} // verus!
