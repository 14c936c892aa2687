use orbit::decimal::{parse_compact, parse_field, parse_integer, parse_point, Decimal};
use orbit::tle::{line_checksum, parse_file, Classification, DeserializationError, TLE};

const DATA: &str = "MOLNIYA 1-81\n1 21426U 91043A   15108.55037587 -.00000207  \
                    00000-0 -31134-2 0  9992\n2 21426  63.2890 290.2925 7228326 \
                    283.8438  15.2252  2.00627254174658";

const ISS: &str = "ISS\n1 25544U 98067A   06040.85138889  .00012260  00000-0  \
                   86027-4 0  3194\n2 25544  51.6448 122.3522 0008835 257.3473 \
                   251.7436 15.74622749413094";

const HA_DATA: &str = "MOLNIYA 3-41\n1 21706U 91065A   15110.48613875  .00000860  \
                       00000-0  43336-1 0  9991\n2 21706  63.7252 112.9752 6936161 \
                       280.1528 136.8490  2.04341486173495";

fn dec(mantissa: i64, exponent: i32) -> Decimal {
    Decimal { mantissa, exponent }
}

fn chars(s: &str) -> Vec<char> {
    s.chars().collect()
}

fn field(s: &str) -> Option<Decimal> {
    let c = chars(s);
    parse_field(&c, 0, c.len())
}

#[test]
fn test_deserialize_tle() {
    let t = TLE::new(&DATA.to_string());
    assert!(t.is_ok() && t.unwrap().is_valid());
}

#[test]
fn test_fix_string() {
    assert_eq!(field("-31134-2"), Some(dec(-31134, -7)));
    assert_eq!(field("86027-4"), Some(dec(86027, -9)));
    assert_eq!(field("00000-0"), Some(dec(0, -5)));
    assert_eq!(field("00000+0"), Some(dec(0, -5)));
    assert_eq!(field("12345+3"), Some(dec(12345, -2)));
    assert_eq!(field("0008835"), Some(dec(8835, -7)));
    assert_eq!(field(".00012260"), Some(dec(12260, -8)));
    assert_eq!(field("-.00000207"), Some(dec(-207, -8)));
    assert_eq!(field(""), None);
    assert_eq!(field("-"), None);
    assert_eq!(field("12a45-3"), None);
    assert_eq!(field("."), None);
}

#[test]
fn test_serialize_tle() {
    let t = TLE::new(&DATA.to_string()).unwrap();
    assert_eq!(t.name, "MOLNIYA 1-81");
}

#[test]
fn iss_record_fields_match_the_text() {
    let t = TLE::new(&ISS.to_string()).unwrap();
    assert!(t.is_valid());
    assert_eq!(t.name, "ISS");
    assert_eq!(t.satellite_number, 25544);
    assert_eq!(t.classification, Classification::Unclassified);
    assert_eq!(t.id_launch_year, 98);
    assert_eq!(t.id_launch_number, 67);
    assert_eq!(t.id_launch_piece, "A");
    // 2006, day 40, .85138889 of a day: 2006-02-09T20:26:00.000096Z
    assert_eq!(t.timestamp.nanos, 1_139_516_760_000_096_000);
    assert_eq!(t.mean_motion_d, dec(24520, -8));
    assert_eq!(t.mean_motion_dd, dec(0, -5));
    assert_eq!(t.bstar, dec(86027, -9));
    assert_eq!(t.set_number, 319);
    assert_eq!(t.inclination, dec(516448, -4));
    assert_eq!(t.right_ascension, dec(1223522, -4));
    assert_eq!(t.eccentricity, dec(8835, -7));
    assert_eq!(t.perigree, dec(2573473, -4));
    assert_eq!(t.mean_anomaly, dec(2517436, -4));
    assert_eq!(t.mean_motion, dec(1574622749, -8));
    assert_eq!(t.revolution_number, 41309);
}

#[test]
fn molniya_record_reads_signed_fields() {
    let t = TLE::new(&DATA.to_string()).unwrap();
    assert_eq!(t.mean_motion_d, dec(-414, -8));
    assert_eq!(t.bstar, dec(-31134, -7));
    assert_eq!(t.eccentricity, dec(7228326, -7));
    assert_eq!(t.mean_motion, dec(200627254, -8));
    assert_eq!(t.timestamp.nanos, 1_429_362_752_475_168_000);
    assert_eq!(t.classification, Classification::Unclassified);
}

#[test]
fn wrong_check_digit_marks_record_invalid() {
    let bad = ISS.replace("3194\n", "3195\n");
    let t = TLE::new(&bad).unwrap();
    assert!(!t.is_valid());
    assert_eq!(t.set_number, 319);
}

#[test]
fn changed_digit_fails_the_check() {
    let line = "2 25544  51.6448 122.3522 0008835 257.3473 251.7436 15.74622749413094";
    assert!(line_checksum(line));
    let changed = line.replacen("51.6448", "51.6449", 1);
    assert!(!line_checksum(&changed));
    assert!(!line_checksum("1 25544U"));
    assert!(!line_checksum(""));
    // a digit of the satellite number
    assert!(!line_checksum(&line.replacen("2 25544", "2 35544", 1)));
}

#[test]
fn minus_signs_count_one_in_the_check() {
    assert!(line_checksum("--2"));
    assert!(line_checksum("1-2"));
    assert!(!line_checksum("1+2"));
    assert!(line_checksum("1+1"));
}

#[test]
fn check_digit_is_the_trailing_character() {
    assert!(line_checksum("11"));
    assert!(line_checksum("0"));
    assert!(!line_checksum("12"));
    let line = "2 25544  51.6448 122.3522 0008835 257.3473 251.7436 15.74622749413094";
    // the digits of the line and the added 1 sum to 219: the trailing digit is 9
    assert!(line_checksum(&format!("{}19", line)));
    assert!(!line_checksum(&format!("{}15", line)));
    assert!(!line_checksum(&format!("{}   ", line)));
}

#[test]
fn element_line_longer_than_69_characters_is_an_error() {
    let l1 = "1 25544U 98067A   06040.85138889  .00012260  00000-0  86027-4 0  3194";
    let l2 = "2 25544  51.6448 122.3522 0008835 257.3473 251.7436 15.74622749413094";
    assert!(TLE::new(&format!("ISS\n{}5\n{}", l1, l2)).is_err());
    assert!(TLE::new(&format!("ISS\n{}\n{} ", l1, l2)).is_err());
}

#[test]
fn changed_digit_in_a_record_makes_it_invalid() {
    let bad = ISS.replace("251.7436", "251.7437");
    let t = TLE::new(&bad).unwrap();
    assert!(!t.is_valid());
    let bad = ISS.replace("06040.85138889", "06041.85138889");
    let t = TLE::new(&bad).unwrap();
    assert!(!t.is_valid());
}

#[test]
fn record_text_reads_back_its_lines() {
    let name = "ISS (ZARYA)";
    let l1 = "1 25544U 98067A   06040.85138889  .00012260  00000-0  86027-4 0  3194";
    let l2 = "2 25544  51.6448 122.3522 0008835 257.3473 251.7436 15.74622749413094";
    let t = TLE::new(&format!("{}\n{}\n{}", name, l1, l2)).unwrap();
    assert!(t.is_valid());
    assert_eq!(t.name, name);
    assert_eq!(t.satellite_number, 25544);
    assert_eq!(t.inclination, dec(516448, -4));
    assert_eq!(t.right_ascension, dec(1223522, -4));
    assert_eq!(t.eccentricity, dec(8835, -7));
    assert_eq!(t.perigree, dec(2573473, -4));
    assert_eq!(t.mean_anomaly, dec(2517436, -4));
    assert_eq!(t.mean_motion, dec(1574622749, -8));
    assert_eq!(t.revolution_number, 41309);
}

#[test]
fn element_line_of_68_characters_is_an_error() {
    let l1 = "1 25544U 98067A   06040.85138889  .00012260  00000-0  86027-4 0  3194";
    let l2 = "2 25544  51.6448 122.3522 0008835 257.3473 251.7436 15.74622749413094";
    assert!(TLE::new(&format!("ISS\n{}\n{}", &l1[..68], l2)).is_err());
    assert!(TLE::new(&format!("ISS\n{}\n{}", l1, &l2[..68])).is_err());
}

#[test]
fn unicode_blanks_are_stripped_from_file_lines() {
    let text = format!("\u{a0}ISS\u{3000}\n{}", ISS.splitn(2, '\n').nth(1).unwrap());
    let all = parse_file(&text);
    assert_eq!(all.len(), 1);
    assert_eq!(all[0].name, "ISS");
}

#[test]
fn missing_lines_are_an_error() {
    let r = TLE::new(&"ISS\n1 25544U 98067A".to_string());
    assert!(matches!(r, Err(DeserializationError::ParseError(_))));
}

#[test]
fn short_element_line_is_an_error() {
    let r = TLE::new(&"ISS\n1 25544U 98067A   06040.85138889\n2 25544".to_string());
    assert!(r.is_err());
}

#[test]
fn malformed_number_is_an_error() {
    let bad = ISS.replace("51.6448", "51.6x48");
    assert!(TLE::new(&bad).is_err());
}

#[test]
fn eccentricity_one_or_more_is_an_error() {
    let bad = ISS.replace("0008835", "12345+3");
    assert!(TLE::new(&bad).is_err());
}

#[test]
fn inclination_above_180_is_an_error() {
    let bad = ISS.replace(" 51.6448", "181.0000");
    assert!(TLE::new(&bad).is_err());
}

#[test]
fn day_366_of_a_common_year_is_an_error() {
    let bad = ISS.replace("06040.85138889", "06366.85138889");
    assert!(TLE::new(&bad).is_err());
    let leap = ISS.replace("06040.85138889", "04366.85138889");
    assert!(TLE::new(&leap).is_ok());
}

#[test]
fn crlf_line_endings_are_accepted() {
    let text = ISS.replace('\n', "\r\n");
    let t = TLE::new(&text).unwrap();
    assert_eq!(t.name, "ISS");
    assert!(t.is_valid());
}

#[test]
fn file_with_several_records() {
    let text = format!("  {}  \n{}\nbroken\n1 x\n2 y\n{}\nleft over\n", ISS.replace('\n', "  \n"), HA_DATA, DATA);
    let all = parse_file(&text);
    assert_eq!(all.len(), 3);
    assert_eq!(all[0].name, "ISS");
    assert_eq!(all[1].name, "MOLNIYA 3-41");
    assert_eq!(all[2].name, "MOLNIYA 1-81");
    assert!(all.iter().all(|t| t.is_valid()));
}

#[test]
fn file_keeps_records_with_bad_check_digits() {
    let text = ISS.replace("3194\n", "3195\n");
    let all = parse_file(&text);
    assert_eq!(all.len(), 1);
    assert!(!all[0].is_valid());
}

#[test]
fn empty_file_has_no_records() {
    assert!(parse_file("").is_empty());
}

#[test]
fn number_notations() {
    let c = chars("+0042");
    assert_eq!(parse_integer(&c, 0, c.len()), Some(42));
    let c = chars("-7");
    assert_eq!(parse_integer(&c, 0, c.len()), Some(-7));
    let c = chars("4 2");
    assert_eq!(parse_integer(&c, 0, c.len()), None);
    let c = chars("15.74622749");
    assert_eq!(parse_point(&c, 0, c.len()), Some(dec(1574622749, -8)));
    let c = chars("7.");
    assert_eq!(parse_point(&c, 0, c.len()), Some(dec(7, 0)));
    let c = chars("1.2.3");
    assert_eq!(parse_point(&c, 0, c.len()), None);
    let c = chars("31134-2");
    assert_eq!(parse_compact(&c, 0, c.len()), Some(dec(31134, -7)));
}
