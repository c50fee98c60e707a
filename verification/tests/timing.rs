use clicky::timing::StopWatchReadout;
use std::time::Duration;

fn parts(r: &StopWatchReadout) -> (u128, u128, u128, u128) {
    (r.hours(), r.minutes(), r.seconds(), r.milliseconds())
}

#[test]
fn from_millis_splits_into_hours_minutes_seconds() {
    let r = StopWatchReadout::from_millis(3_723_004);
    assert_eq!(parts(&r), (1, 2, 3, 4));
    assert_eq!(r.to_milliseconds(), 3_723_004);
    let r = StopWatchReadout::from_millis(0);
    assert_eq!(parts(&r), (0, 0, 0, 0));
    let r = StopWatchReadout::from_millis(59_999);
    assert_eq!(parts(&r), (0, 0, 59, 999));
    let r = StopWatchReadout::from_millis(u128::MAX);
    assert_eq!(r.to_milliseconds(), u128::MAX);
}

#[test]
fn new_is_zero() {
    assert_eq!(parts(&StopWatchReadout::new()), (0, 0, 0, 0));
}

#[test]
fn from_duration_keeps_whole_milliseconds() {
    let r = StopWatchReadout::from_duration(Duration::new(3_723, 4_999_999));
    assert_eq!(parts(&r), (1, 2, 3, 4));
}

#[test]
fn add_and_sub_work_on_the_whole_span() {
    let a = StopWatchReadout::from_millis(3_599_999);
    let b = StopWatchReadout::from_millis(1);
    assert_eq!(parts(&(a + b)), (1, 0, 0, 0));
    assert_eq!(parts(&((a + b) - b)), parts(&a));
    assert_eq!(parts(&(b + a)), parts(&(a + b)));
    let c = StopWatchReadout::from_millis(90_061_001);
    assert_eq!(parts(&(c - c)), (0, 0, 0, 0));
}

#[test]
fn display_pads_to_two_digits() {
    let r = StopWatchReadout::from_millis(3_723_004);
    assert_eq!(r.to_display_string(), "01hrs:02min:03secs");
    let r = StopWatchReadout::from_millis(123 * 3_600_000 + 45 * 60_000 + 6_000);
    assert_eq!(r.to_display_string(), "123hrs:45min:06secs");
    assert_eq!(StopWatchReadout::new().to_display_string(), "00hrs:00min:00secs");
}

#[test]
fn from_parts_keeps_unnormalized_fields_that_fit() {
    let r = StopWatchReadout::from_parts(0, 75, 0, 0).unwrap();
    assert_eq!(parts(&r), (0, 75, 0, 0));
    assert_eq!(r.to_milliseconds(), 4_500_000);
    assert!(StopWatchReadout::from_parts(u128::MAX, 0, 0, 0).is_none());
    assert!(StopWatchReadout::from_parts(0, 0, 0, u128::MAX).is_some());
}
