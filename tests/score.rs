use dungeoncrawl::score::{clock_strings, elapsed_clock, ScoreTracker, WithLeadingZeros};
use std::time::{Duration, SystemTime};

#[test]
fn score_starts_at_zero_and_counts_tens() {
    let mut s = ScoreTracker::new();
    assert_eq!(s.get_current_score(), 0);
    s.increase_score(3);
    assert_eq!(s.get_current_score(), 30);
    s.increase_score(-1);
    assert_eq!(s.get_current_score(), 20);
}

#[test]
fn leading_zero_below_nine() {
    assert_eq!(5u64.with_leading_zeros(), "05");
    assert_eq!(0u64.with_leading_zeros(), "00");
    assert_eq!(9u64.with_leading_zeros(), "9");
    assert_eq!(12u64.with_leading_zeros(), "12");
    assert_eq!(1234u64.with_leading_zeros(), "1234");
}

#[test]
fn clock_splits_minutes_and_seconds() {
    assert_eq!(clock_strings(125), (String::from("02"), String::from("05")));
    assert_eq!(clock_strings(3599), (String::from("59"), String::from("59")));
    assert_eq!(clock_strings(600), (String::from("10"), String::from("00")));
}

#[test]
fn elapsed_time_is_readable() {
    let s = ScoreTracker::new();
    let (m, sec) = s.get_time_elapsed().unwrap();
    assert_eq!(m, "00");
    assert!(sec == "00" || sec == "01");
}

#[test]
fn clock_error_passes_through() {
    let later = SystemTime::now() + Duration::from_secs(100);
    let err = SystemTime::now().duration_since(later).unwrap_err();
    let shown = format!("{:?}", err);
    let r = elapsed_clock(Err(err));
    assert_eq!(format!("{:?}", r.unwrap_err()), shown);
    assert_eq!(elapsed_clock(Ok(61)).unwrap(), (String::from("01"), String::from("01")));
}
