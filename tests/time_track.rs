use orbit::body::Body;
use orbit::decimal::Decimal;
use orbit::satellite::Satellite;
use orbit::time::{Timestamp, NANOS_PER_DAY};
use orbit::tle::{Satellite as ElementSatellite, TLE};
use orbit::track::{epoch_offset, time_steps, TrackError};

const ISS: &str = "ISS\n1 25544U 98067A   06040.85138889  .00012260  00000-0  \
                   86027-4 0  3194\n2 25544  51.6448 122.3522 0008835 257.3473 \
                   251.7436 15.74622749413094";

fn at(nanos: i64) -> Timestamp {
    Timestamp { nanos }
}

fn chrono_nanos(text: &str) -> i64 {
    chrono::DateTime::parse_from_rfc3339(text)
        .unwrap()
        .timestamp_nanos_opt()
        .unwrap()
}

#[test]
fn ordinal_dates_match_the_calendar() {
    let t = Timestamp::from_ordinal_date(2006, 40, 73_560_000_096_000).unwrap();
    assert_eq!(t.nanos, 1_139_516_760_000_096_000);
    assert_eq!(t.nanos, chrono_nanos("2006-02-09T20:26:00.000096Z"));
    let t = Timestamp::from_ordinal_date(1970, 1, 0).unwrap();
    assert_eq!(t.nanos, 0);
    let t = Timestamp::from_ordinal_date(1969, 365, 0).unwrap();
    assert_eq!(t.nanos, -NANOS_PER_DAY);
    let t = Timestamp::from_ordinal_date(2000, 366, 0).unwrap();
    assert_eq!(t.nanos, chrono_nanos("2000-12-31T00:00:00Z"));
}

#[test]
fn impossible_ordinal_dates_are_refused() {
    assert_eq!(Timestamp::from_ordinal_date(2015, 366, 0), None);
    assert!(Timestamp::from_ordinal_date(2016, 366, 0).is_some());
    assert_eq!(Timestamp::from_ordinal_date(1900, 366, 0), None);
    assert_eq!(Timestamp::from_ordinal_date(2015, 0, 0), None);
    assert_eq!(Timestamp::from_ordinal_date(2015, 1, NANOS_PER_DAY), None);
    assert_eq!(Timestamp::from_ordinal_date(2015, 1, -1), None);
    assert_eq!(Timestamp::from_ordinal_date(0, 1, 0), None);
    assert_eq!(Timestamp::from_ordinal_date(2300, 1, 0), None);
}

#[test]
fn year_start_of_a_query_time() {
    let t = at(chrono_nanos("2015-05-04T15:46:25Z"));
    assert_eq!(t.year_start(), 1_420_070_400_000_000_000);
    assert_eq!(at(0).year_start(), 0);
    assert_eq!(at(-1).year_start(), -365 * NANOS_PER_DAY as i128);
    assert_eq!(at(i64::MIN).year_start(), chrono_nanos("1678-01-01T00:00:00Z") as i128 - 365 * NANOS_PER_DAY as i128);
}

#[test]
fn nanos_between_instants() {
    assert_eq!(at(5).nanos_since(at(12)), -7);
    assert_eq!(at(i64::MAX).nanos_since(at(i64::MIN)), u64::MAX as i128);
}

#[test]
fn steps_cover_the_range_inclusive() {
    let r = time_steps(at(0), at(10), 3).unwrap();
    assert_eq!(r, vec![at(0), at(3), at(6), at(9)]);
    let r = time_steps(at(0), at(9), 3).unwrap();
    assert_eq!(r, vec![at(0), at(3), at(6), at(9)]);
    let r = time_steps(at(7), at(7), 300).unwrap();
    assert_eq!(r, vec![at(7)]);
}

#[test]
fn steps_are_increasing_and_evenly_spaced() {
    let start = chrono_nanos("2015-05-04T15:46:25Z");
    let step = 300 * 1_000_000_000;
    let r = time_steps(at(start), at(start + 3600 * 1_000_000_000), step).unwrap();
    assert_eq!(r.len(), 13);
    for w in r.windows(2) {
        assert!(w[0].nanos < w[1].nanos);
        assert_eq!(w[1].nanos - w[0].nanos, step);
    }
}

#[test]
fn bad_ranges_are_refused() {
    assert_eq!(time_steps(at(10), at(0), 3), Err(TrackError::InvalidTimeRange));
    assert_eq!(time_steps(at(0), at(10), 0), Err(TrackError::InvalidTimeRange));
    assert_eq!(time_steps(at(0), at(10), -5), Err(TrackError::InvalidTimeRange));
}

#[test]
fn steps_near_the_end_of_time() {
    let r = time_steps(at(i64::MAX - 4), at(i64::MAX), 2).unwrap();
    assert_eq!(r, vec![at(i64::MAX - 4), at(i64::MAX - 2), at(i64::MAX)]);
}

#[test]
fn earth_constants() {
    let e = Body::earth();
    assert_eq!(e.mu, Decimal { mantissa: 398600, exponent: 0 });
    assert_eq!(e.radius, Decimal { mantissa: 637814, exponent: -2 });
    assert_eq!(e.j2, Decimal { mantissa: 108263, exponent: -8 });
    assert_eq!(e.lambda, Decimal { mantissa: 99281, exponent: -3 });
    assert_eq!(e.we, Decimal { mantissa: 36098564735, exponent: -8 });
}

#[test]
fn satellite_reads_its_element_set() {
    let tle = TLE::new(&ISS.to_string()).unwrap();
    let s: ElementSatellite = Satellite::new(Body::earth(), tle.clone());
    assert_eq!(*s.body(), Body::earth());
    assert_eq!(s.mean_motion(), tle.mean_motion);
    assert_eq!(s.eccentricity(), tle.eccentricity);
    assert_eq!(s.inclination(), tle.inclination);
    assert_eq!(s.right_ascension(), tle.right_ascension);
    assert_eq!(s.perigree(), tle.perigree);
    assert_eq!(s.mean_anomaly(), tle.mean_anomaly);
    assert_eq!(s.mean_motion_d(), tle.mean_motion_d);
    assert_eq!(s.timestamp(), tle.timestamp);
}

#[test]
fn epoch_offset_counts_from_the_start_of_the_year() {
    let start = at(chrono_nanos("2015-05-04T15:46:25Z"));
    let molniya_epoch = at(1_429_362_752_475_168_000);
    assert_eq!(epoch_offset(molniya_epoch, start), 107 * NANOS_PER_DAY as i128 + 47_552_475_168_000);
    let iss_epoch = at(1_139_516_760_000_096_000);
    assert_eq!(epoch_offset(iss_epoch, start), -280_553_639_999_904_000);
}
