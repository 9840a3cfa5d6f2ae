use rswatson::time::{parse_date, parse_time, ClockTime, Date, Timestamp};

#[test]
fn time_test_parse_time() {
    let time = parse_time("12:34:56").unwrap();
    assert_eq!(time, ClockTime::from_hms(12, 34, 56).unwrap());
}

#[test]
fn time_test_parse_time_invalid() {
    let time = parse_time("12:34:56:78");
    assert!(time.is_err());
}

#[test]
fn time_test_parse_date() {
    let date = parse_date("2021-01-01").unwrap();
    assert_eq!(date, Date::from_ymd(2021, 1, 1).unwrap());
}

#[test]
fn mod_test_parse_time() {
    let time = parse_time("12:34:56").unwrap();
    assert_eq!(time, ClockTime::from_hms(12, 34, 56).unwrap());
}

#[test]
fn mod_test_parse_time_invalid() {
    let time = parse_time("12:34:56:78");
    assert!(time.is_err());
}

#[test]
fn mod_test_parse_date() {
    let date = parse_date("2021-01-01").unwrap();
    assert_eq!(date, Date::from_ymd(2021, 1, 1).unwrap());
}

#[test]
fn test_parse_time_rejects_out_of_range() {
    assert!(parse_time("25:00:00").is_err());
    assert!(parse_time("12:60:00").is_err());
}

#[test]
fn test_parse_date_rejects_impossible_dates() {
    assert!(parse_date("2021-02-29").is_err());
    assert!(parse_date("2021-13-01").is_err());
    assert!(parse_date("2021/01/01").is_err());
}

#[test]
fn test_leap_year_dates() {
    assert!(Date::from_ymd(2024, 2, 29).is_ok());
    assert!(Date::from_ymd(2023, 2, 29).is_err());
    assert!(Date::from_ymd(2000, 2, 29).is_ok());
    assert!(Date::from_ymd(1900, 2, 29).is_err());
}

#[test]
fn test_day_numbers() {
    assert_eq!(Date::from_ymd(1970, 1, 1).unwrap().to_day_number(), 0);
    assert_eq!(Date::from_ymd(1970, 1, 2).unwrap().to_day_number(), 1);
    assert_eq!(Date::from_ymd(2024, 1, 1).unwrap().to_day_number(), 19723);
}

#[test]
fn test_timestamp_range() {
    assert!(Timestamp::from_secs(0).is_ok());
    assert!(Timestamp::from_secs(253402300799).is_ok());
    assert!(Timestamp::from_secs(253402300800).is_err());
    assert!(Timestamp::from_secs(-1).is_err());
}

#[test]
fn test_timestamp_fields_round_trip() {
    let ts = Timestamp::from_secs(1704099600).unwrap();
    let (date, clock) = ts.to_fields();
    assert_eq!(date, Date::from_ymd(2024, 1, 1).unwrap());
    assert_eq!(clock, ClockTime::from_hms(9, 0, 0).unwrap());
    let back = Timestamp::from_fields(&date, &clock).unwrap();
    assert_eq!(back, ts);
}
