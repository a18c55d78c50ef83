use ovh_parsing::calendar::Date;
use ovh_parsing::calendar::civil_from_days;
use ovh_parsing::calendar::date_of_timestamp;
use ovh_parsing::calendar::day_number_of_timestamp;
use ovh_parsing::calendar::days_from_civil;
use ovh_parsing::files::parse_i64;
use ovh_parsing::files::FileMetadata;
use chrono::Datelike;

#[test]
fn test_epoch_date() {
    let d = date_of_timestamp(0);
    assert_eq!((d.year, d.month, d.day), (1970, 1, 1));
    let d2 = date_of_timestamp(86399);
    assert_eq!((d2.year, d2.month, d2.day), (1970, 1, 1));
    let d3 = date_of_timestamp(86400);
    assert_eq!((d3.year, d3.month, d3.day), (1970, 1, 2));
}

#[test]
fn test_leap_day() {
    // 2020-02-29 00:00:00 UTC
    let d = date_of_timestamp(1582934400);
    assert_eq!((d.year, d.month, d.day), (2020, 2, 29));
    assert_eq!(days_from_civil(2020, 2, 29), 1582934400 / 86400);
}

#[test]
fn test_round_trip_against_chrono() {
    // sample the supported range with a step that walks through months,
    // days and leap years
    let mut ts: i64 = 0;
    while ts <= 4102444800 {
        let d = date_of_timestamp(ts);
        let expected = chrono::DateTime::from_timestamp(ts, 0).unwrap().date_naive();
        assert_eq!(d.year, expected.year() as i64);
        assert_eq!(d.month, expected.month() as i64);
        assert_eq!(d.day, expected.day() as i64);
        // and back: the date's day number starts the day holding ts
        assert_eq!(days_from_civil(d.year, d.month, d.day), ts / 86400);
        ts += 86400 * 7 + 12345;
    }
}

#[test]
fn test_civil_from_days_values() {
    let d = civil_from_days(19358);
    assert_eq!((d.year, d.month, d.day), (2023, 1, 1));
    let d2 = civil_from_days(0);
    assert_eq!((d2.year, d2.month, d2.day), (1970, 1, 1));
}

#[test]
fn test_day_number() {
    assert_eq!(day_number_of_timestamp(0), 0);
    assert_eq!(day_number_of_timestamp(86400 * 10 + 5), 10);
}

#[test]
fn test_bucket_timestamp() {
    let d = Date { year: 2021, month: 2, day: 1 };
    assert_eq!(ovh_parsing::aggregate::bucket_timestamp(&d), 1612137600);
}

#[test]
fn test_parse_i64_tokens() {
    assert_eq!(parse_i64("123"), Some(123));
    assert_eq!(parse_i64("+5"), Some(5));
    assert_eq!(parse_i64("-7"), Some(-7));
    assert_eq!(parse_i64("0"), Some(0));
    assert_eq!(parse_i64("9223372036854775807"), Some(i64::MAX));
    assert_eq!(parse_i64("9223372036854775808"), None);
    assert_eq!(parse_i64("-9223372036854775808"), Some(i64::MIN));
    assert_eq!(parse_i64("-9223372036854775809"), None);
    assert_eq!(parse_i64(""), None);
    assert_eq!(parse_i64("-"), None);
    assert_eq!(parse_i64("12a"), None);
    assert_eq!(parse_i64("a12"), None);
}

#[test]
fn test_path_to_file_metadata() {
    let fm = FileMetadata::path_to_file_metadata("data/map_1646365511.yaml")
        .expect("well-formed name");
    assert_eq!(fm.filepath, "data/map_1646365511.yaml");
    assert_eq!(fm.timestamp, 1646365511);

    // the directory part does not take part in the token split
    let fm2 = FileMetadata::path_to_file_metadata("some_dir/map.1000.yaml")
        .expect("well-formed name");
    assert_eq!(fm2.timestamp, 1000);

    // no separator in the base name: no descriptor
    assert!(FileMetadata::path_to_file_metadata("plainname").is_none());
    // second token not numeric: no descriptor
    assert!(FileMetadata::path_to_file_metadata("map_abc.yaml").is_none());
}
