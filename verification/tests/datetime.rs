use systems::datetime::DateTime;

#[test]
fn test_valid_creation() {
    assert!(DateTime::new(2023, 10, 27, 12, 30, 45).is_some());
    assert!(DateTime::new(2023, 13, 27, 12, 30, 45).is_none());
    assert!(DateTime::new(2023, 2, 29, 12, 0, 0).is_none());
    assert!(DateTime::new(2024, 2, 29, 12, 0, 0).is_some());
}

#[test]
fn test_leap_years() {
    assert!(DateTime::is_leap_year(2000));
    assert!(!DateTime::is_leap_year(1900));
    assert!(DateTime::is_leap_year(2024));
    assert!(!DateTime::is_leap_year(2023));
}

#[test]
fn test_epoch_conversion_1970() {
    let dt = DateTime::from_timestamp(0);
    assert_eq!(dt.year, 1970);
    assert_eq!(dt.month, 1);
    assert_eq!(dt.day, 1);
    assert_eq!(dt.hour, 0);
    assert_eq!(dt.minute, 0);
    assert_eq!(dt.second, 0);
    assert_eq!(dt.to_timestamp(), 0);
}

#[test]
fn test_epoch_conversion_positive() {
    let ts = 1698409845;
    let dt = DateTime::from_timestamp(ts);
    assert_eq!(dt.year, 2023);
    assert_eq!(dt.month, 10);
    assert_eq!(dt.day, 27);
    assert_eq!(dt.hour, 12);
    assert_eq!(dt.minute, 30);
    assert_eq!(dt.second, 45);
    assert_eq!(dt.to_timestamp(), ts);
}

#[test]
fn test_epoch_conversion_negative() {
    let ts = -1;
    let dt = DateTime::from_timestamp(ts);
    assert_eq!(dt.year, 1969);
    assert_eq!(dt.month, 12);
    assert_eq!(dt.day, 31);
    assert_eq!(dt.hour, 23);
    assert_eq!(dt.minute, 59);
    assert_eq!(dt.second, 59);
    assert_eq!(dt.to_timestamp(), ts);
}

#[test]
fn test_iso8601_formatting() {
    let dt = DateTime::new(2023, 10, 27, 12, 30, 45).unwrap();
    assert_eq!(dt.to_iso8601(), "2023-10-27T12:30:45Z");
    assert_eq!(dt.to_iso8601(), "2023-10-27T12:30:45Z");
}

#[test]
fn datetime_round_trip_through_timestamp() {
    let dt = DateTime::new(1900, 2, 28, 23, 59, 59).unwrap();
    assert_eq!(DateTime::from_timestamp(dt.to_timestamp()), dt);
    let leap = DateTime::new(2000, 2, 29, 0, 0, 0).unwrap();
    assert_eq!(DateTime::from_timestamp(leap.to_timestamp()), leap);
}

#[test]
fn datetime_days_in_month_and_negative_year_format() {
    assert_eq!(DateTime::days_in_month(2023, 4), 30);
    assert_eq!(DateTime::days_in_month(2024, 2), 29);
    assert_eq!(DateTime::days_in_month(2023, 13), 0);
    let dt = DateTime::new(-5, 1, 2, 3, 4, 5).unwrap();
    assert_eq!(dt.to_iso8601(), "-005-01-02T03:04:05Z");
}

#[test]
fn test_now_is_after_2024() {
    let now = DateTime::now();
    assert!(now.year >= 2024);
    assert!(now.month >= 1 && now.month <= 12);
}
