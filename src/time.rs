//! Instants in UTC, counted in nanoseconds, on the proleptic Gregorian calendar.
use chrono::Datelike;
use vstd::prelude::*;

verus! {

/// Nanoseconds in a day.
pub const NANOS_PER_DAY: i64 = 86_400_000_000_000;

/// The day number of 1970-01-01, counting 0001-01-01 as day 1.
pub const UNIX_EPOCH_DAY: i32 = 719_163;

/// An instant in UTC: nanoseconds since 1970-01-01T00:00:00Z.
#[derive(Clone, Copy, Debug, PartialEq, Eq, Structural, Hash)]
pub struct Timestamp {
    pub nanos: i64,
}

/// A leap year of the Gregorian calendar.
pub open spec fn is_leap_year(y: int) -> bool {
    (y % 4 == 0 && y % 100 != 0) || y % 400 == 0
}

/// The number of days in year `y`.
pub open spec fn days_in_year(y: int) -> int {
    if is_leap_year(y) {
        366
    } else {
        365
    }
}

/// The day number of day `ordinal` of year `y`, counting 0001-01-01 as day 1.
pub open spec fn days_from_ce(y: int, ordinal: int) -> int {
    365 * (y - 1) + (y - 1) / 4 - (y - 1) / 100 + (y - 1) / 400 + ordinal
}

/// The instant, in nanoseconds since 1970-01-01T00:00:00Z, at which day `ordinal`
/// of year `y` begins.
pub open spec fn day_start_nanos(y: int, ordinal: int) -> int {
    (days_from_ce(y, ordinal) - UNIX_EPOCH_DAY) * NANOS_PER_DAY
}

/// The instant at which year `y` begins.
pub open spec fn year_start_nanos(y: int) -> int {
    day_start_nanos(y, 1)
}

/// The instant `n` falls within calendar year `y`.
pub open spec fn in_year(n: int, y: int) -> bool {
    year_start_nanos(y) <= n < year_start_nanos(y + 1)
}

/// Relies on chrono's `NaiveDate::from_yo_opt`, which accepts a day of the year from
/// 1 to the length of the year, and on `Datelike::num_days_from_ce`, which numbers
/// days with 0001-01-01 as day 1.
#[verifier::external_body]
fn day_number(year: i32, ordinal: u32) -> (r: Option<i32>)
    requires
        1 <= year <= 9999,
    ensures
        r is Some <==> 1 <= ordinal <= days_in_year(year as int),
        r is Some ==> r->Some_0 == days_from_ce(year as int, ordinal as int),
{
    match chrono::NaiveDate::from_yo_opt(year, ordinal) {
        Some(d) => Some(d.num_days_from_ce()),
        None => None,
    }
}

/// Relies on chrono's `DateTime::from_timestamp_nanos` and `Datelike::year`: the
/// calendar year, in UTC, of an instant given in nanoseconds since the Unix epoch.
#[verifier::external_body]
fn year_of(nanos: i64) -> (r: i32)
    ensures
        in_year(nanos as int, r as int),
{
    chrono::DateTime::from_timestamp_nanos(nanos).year()
}

impl Timestamp {
    /// The instant `nanos_of_day` after the start of day `ordinal` of `year`; `None`
    /// where that day is not in the calendar, where `nanos_of_day` is not within a
    /// day, or where the instant lies outside the range of `i64` nanoseconds.
    pub fn from_ordinal_date(year: i32, ordinal: u32, nanos_of_day: i64) -> (r: Option<Timestamp>)
        ensures
            r is Some <==> {
                &&& 1 <= year <= 9999
                &&& 1 <= ordinal <= days_in_year(year as int)
                &&& 0 <= nanos_of_day < NANOS_PER_DAY
                &&& i64::MIN <= day_start_nanos(year as int, ordinal as int) + nanos_of_day
                    <= i64::MAX
            },
            r is Some ==> r->Some_0.nanos == day_start_nanos(year as int, ordinal as int)
                + nanos_of_day,
    {
        if year < 1 || year > 9999 || nanos_of_day < 0 || nanos_of_day >= NANOS_PER_DAY {
            return None;
        }
        let day = match day_number(year, ordinal) {
            Some(d) => d,
            None => {
                return None;
            },
        };
        let days = day as i128 - UNIX_EPOCH_DAY as i128;
        assert(-1_000_000_000 <= days <= 1_000_000_000);
        assert(-100_000_000_000_000_000_000_000 <= days * 86_400_000_000_000
            <= 100_000_000_000_000_000_000_000) by (nonlinear_arith)
            requires
                -1_000_000_000 <= days <= 1_000_000_000,
        {
        }
        let total: i128 = days * (NANOS_PER_DAY as i128) + nanos_of_day as i128;
        if total < i64::MIN as i128 || total > i64::MAX as i128 {
            return None;
        }
        Some(Timestamp { nanos: total as i64 })
    }

    /// Nanoseconds from `earlier` to this instant (negative where `earlier` is later).
    pub fn nanos_since(&self, earlier: Timestamp) -> (r: i128)
        ensures
            r == self.nanos - earlier.nanos,
    {
        self.nanos as i128 - earlier.nanos as i128
    }

    /// The instant at which the calendar year of this instant began, in nanoseconds
    /// since the Unix epoch (it may precede the range of `Timestamp`).
    pub fn year_start(&self) -> (r: i128)
        ensures
            exists|y: int| in_year(self.nanos as int, y) && r == year_start_nanos(y),
    {
        let y = year_of(self.nanos);
        proof {
            lemma_year_range(self.nanos as int, y as int);
        }
        let day = match day_number(y, 1) {
            Some(d) => d,
            None => vstd::pervasive::unreached(),
        };
        let days = day as i128 - UNIX_EPOCH_DAY as i128;
        assert(-1_000_000_000 <= days <= 1_000_000_000);
        days * (NANOS_PER_DAY as i128)
    }
}

/// Each year begins later than the one before it.
proof fn lemma_year_start_increasing(y: int, z: int)
    requires
        y < z,
    ensures
        year_start_nanos(y) < year_start_nanos(z),
    decreases z - y,
{
    assert(days_from_ce(z, 1) > days_from_ce(z - 1, 1));
    if y < z - 1 {
        lemma_year_start_increasing(y, z - 1);
    }
}

/// An instant falls in one calendar year only.
pub proof fn lemma_year_unique(n: int, y: int, z: int)
    requires
        in_year(n, y),
        in_year(n, z),
    ensures
        y == z,
{
    if y < z {
        if y + 1 < z {
            lemma_year_start_increasing(y + 1, z);
        }
    } else if z + 1 < y {
        lemma_year_start_increasing(z + 1, y);
    }
}

/// An instant within the range of `i64` nanoseconds falls in a year from 1 to 9999.
proof fn lemma_year_range(n: int, y: int)
    requires
        i64::MIN <= n <= i64::MAX,
        in_year(n, y),
    ensures
        1 <= y <= 9999,
{
    assert(1 <= y) by (nonlinear_arith)
        requires
            year_start_nanos(y + 1) > n,
            n >= i64::MIN,
            year_start_nanos(y + 1) == (365 * y + y / 4 - y / 100 + y / 400 + 1 - 719_163)
                * 86_400_000_000_000,
    {
    }
    assert(y <= 9999) by (nonlinear_arith)
        requires
            year_start_nanos(y) <= n,
            n <= i64::MAX,
            year_start_nanos(y) == (365 * (y - 1) + (y - 1) / 4 - (y - 1) / 100 + (y - 1) / 400
                + 1 - 719_163) * 86_400_000_000_000,
    {
    }
}

} // verus!
