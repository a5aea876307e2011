use std::str::FromStr;
use systems::cron::{CronError, CronSchedule, Schedule};

#[test]
fn test_parse_valid_all_wildcards() {
    let schedule = CronSchedule::from_str("* * * * *").unwrap();
    assert_eq!(schedule.minutes, 0x0FFF_FFFF_FFFF_FFFF);
    assert_eq!(schedule.hours, 0x00FF_FFFF);
    assert_eq!(schedule.days_of_month, 0xFFFF_FFFE);
    assert_eq!(schedule.months, 0x1FFE);
    assert_eq!(schedule.days_of_week, 0x7F);
}

#[test]
fn test_parse_specific_values() {
    let schedule = CronSchedule::from_str("5 9 15 2 3").unwrap();
    assert_eq!(schedule.minutes, 1 << 5);
    assert_eq!(schedule.hours, 1 << 9);
    assert_eq!(schedule.days_of_month, 1 << 15);
    assert_eq!(schedule.months, 1 << 2);
    assert_eq!(schedule.days_of_week, 1 << 3);
}

#[test]
fn test_parse_ranges() {
    let schedule = CronSchedule::from_str("1-5 * * * *").unwrap();
    assert_eq!(schedule.minutes, 0b111110);
}

#[test]
fn test_parse_steps() {
    let schedule = CronSchedule::from_str("*/15 * * * *").unwrap();
    assert_eq!(schedule.minutes, (1 << 0) | (1 << 15) | (1 << 30) | (1 << 45));
}

#[test]
fn test_parse_range_with_steps() {
    let schedule = CronSchedule::from_str("10-20/5 * * * *").unwrap();
    assert_eq!(schedule.minutes, (1 << 10) | (1 << 15) | (1 << 20));
}

#[test]
fn test_parse_lists() {
    let schedule = CronSchedule::from_str("1,5,10-12 * * * *").unwrap();
    assert_eq!(schedule.minutes, (1 << 1) | (1 << 5) | (1 << 10) | (1 << 11) | (1 << 12));
}

#[test]
fn test_sunday_normalization() {
    let sched0 = CronSchedule::from_str("* * * * 0").unwrap();
    let sched7 = CronSchedule::from_str("* * * * 7").unwrap();
    assert_eq!(sched0.days_of_week, 1 << 0);
    assert_eq!(sched7.days_of_week, 1 << 0);
}

#[test]
fn test_matches_basic() {
    let schedule = CronSchedule::from_str("0 12 * * *").unwrap();
    assert!(schedule.matches(0, 12, 1, 1, 1));
    assert!(!schedule.matches(1, 12, 1, 1, 1));
    assert!(!schedule.matches(0, 11, 1, 1, 1));
}

#[test]
fn test_matches_dom_dow_quirk() {
    let schedule = CronSchedule::from_str("* * 1 * 1").unwrap();
    assert!(schedule.matches(0, 0, 1, 1, 2));
    assert!(schedule.matches(0, 0, 2, 1, 1));
    assert!(schedule.matches(0, 0, 1, 1, 1));
    assert!(!schedule.matches(0, 0, 2, 1, 2));
}

#[test]
fn cron_test_errors() {
    assert_eq!(CronSchedule::from_str("* * * *").unwrap_err(), CronError::InvalidFormat);
    assert_eq!(CronSchedule::from_str("60 * * * *").unwrap_err(), CronError::ValueOutOfBounds);
    assert_eq!(CronSchedule::from_str("* 24 * * *").unwrap_err(), CronError::ValueOutOfBounds);
    assert_eq!(CronSchedule::from_str("* * 0 * *").unwrap_err(), CronError::ValueOutOfBounds);
    assert_eq!(CronSchedule::from_str("* * 32 * *").unwrap_err(), CronError::ValueOutOfBounds);
    assert_eq!(CronSchedule::from_str("* * * 13 *").unwrap_err(), CronError::ValueOutOfBounds);
    assert_eq!(CronSchedule::from_str("* * * * 8").unwrap_err(), CronError::ValueOutOfBounds);
    assert_eq!(CronSchedule::from_str("10-5 * * * *").unwrap_err(), CronError::InvalidRange);
    assert_eq!(CronSchedule::from_str("*/0 * * * *").unwrap_err(), CronError::InvalidStep);
    assert_eq!(CronSchedule::from_str("x * * * *").unwrap_err(), CronError::InvalidField);
}

#[test]
fn cron_whitespace_plus_sign_and_messages() {
    let s = CronSchedule::from_str("  +5\t9 15  2 3 ").unwrap();
    assert_eq!(s.minutes, 1 << 5);
    assert!(s.dom_restricted && s.dow_restricted);
    assert_eq!(CronSchedule::from_str("*/x * * * *").unwrap_err(), CronError::InvalidStep);
    assert_eq!(CronSchedule::from_str("1-x * * * *").unwrap_err(), CronError::InvalidField);
    assert_eq!(CronError::InvalidFormat.message(), "Invalid cron format (expected 5 fields)");
    assert_eq!(CronError::InvalidRange.message(), "Invalid range (start > end)");
}
