use neat::env::{Env, EnvError, Param};
use neat::fixed::SCALE;
use neat::text::{parse_count, parse_fixed};

#[test]
fn fixed_values_are_read_in_millionths() {
    assert_eq!(parse_fixed(b"1"), Some(SCALE));
    assert_eq!(parse_fixed(b"0.5"), Some(500000));
    assert_eq!(parse_fixed(b"-2.25"), Some(-2250000));
    assert_eq!(parse_fixed(b"+.001"), Some(1000));
    assert_eq!(parse_fixed(b"3."), Some(3 * SCALE));
    assert_eq!(parse_fixed(b"0.12345678"), Some(123456));
    assert_eq!(parse_fixed(b""), None);
    assert_eq!(parse_fixed(b"-"), None);
    assert_eq!(parse_fixed(b"."), None);
    assert_eq!(parse_fixed(b"1.2.3"), None);
    assert_eq!(parse_fixed(b"abc"), None);
    assert_eq!(parse_fixed(b"1000000000000"), Some(1000000000000 * SCALE));
    assert_eq!(parse_fixed(b"1000000000001"), None);
}

#[test]
fn counts_are_read_in_range() {
    assert_eq!(parse_count(b"150", 1000), Some(150));
    assert_eq!(parse_count(b"0", 10), Some(0));
    assert_eq!(parse_count(b"11", 10), None);
    assert_eq!(parse_count(b"", 10), None);
    assert_eq!(parse_count(b"1.5", 10), None);
    assert_eq!(parse_count(b"99999999999999999999", u64::MAX), None);
}

#[test]
fn parameters_are_looked_up_by_name() {
    assert_eq!(Param::lookup("compat_threshold"), Some(Param::CompatThreshold));
    assert_eq!(Param::lookup("pop_size"), Some(Param::PopSize));
    assert_eq!(Param::lookup("num_runs"), Some(Param::NumRuns));
    assert_eq!(Param::lookup("pop"), None);
}

#[test]
fn lines_set_parameters() {
    let mut env = Env::new();
    assert_eq!(env.apply("compat_threshold", Some("3.0")), Ok(true));
    assert_eq!(env.compat_threshold, 3 * SCALE);
    assert_eq!(env.apply("pop_size", Some("150")), Ok(true));
    assert_eq!(env.pop_size, 150);
    assert_eq!(env.apply("survival_thresh", Some("0.2")), Ok(true));
    assert_eq!(env.survival_thresh, 200000);
    assert_eq!(env.apply("unknown_key", Some("1")), Ok(false));
    assert_eq!(env.apply("dropoff_age", None), Err(EnvError::MissingValue));
    assert_eq!(env.apply("dropoff_age", Some("x")), Err(EnvError::BadValue(Param::DropoffAge)));
    assert_eq!(env.apply("newlink_tries", Some("4294967296")), Err(EnvError::BadValue(Param::NewlinkTries)));
    assert_eq!(env.dropoff_age, 0);
    assert_eq!(env.newlink_tries, 0);
}
