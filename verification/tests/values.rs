use gtfs_events::model::{
    Date, Direction, Exception, Fixed, LocationType, Marshal, RouteType, Weekday,
};
use gtfs_events::text::{chars_of, contains_text, is_text};
use gtfs_events::value::{
    parse_bool, parse_date, parse_day, parse_decimal, parse_direction, parse_exception,
    parse_location_type, parse_marshal, parse_route_type, parse_time, parse_uint,
};

#[test]
fn parse_time_reads_hours_minutes_seconds() {
    assert_eq!(parse_time("09:30:00"), Some(34200));
    assert_eq!(parse_time("9:30:00"), Some(34200));
    assert_eq!(parse_time("09:60:00"), None);
}

#[test]
fn parse_time_keeps_hours_past_the_day() {
    assert_eq!(parse_time("25:00:01"), Some(90001));
    assert_eq!(parse_time("99:59:59"), Some(359999));
    assert_eq!(parse_time("00:00:00"), Some(0));
}

#[test]
fn parse_time_refuses_other_shapes() {
    assert_eq!(parse_time(""), None);
    assert_eq!(parse_time("09:30"), None);
    assert_eq!(parse_time("09:30:00:00"), None);
    assert_eq!(parse_time("093:00:00"), None);
    assert_eq!(parse_time("09:3:000"), None);
    assert_eq!(parse_time("09:30:60"), None);
    assert_eq!(parse_time("0a:30:00"), None);
    assert_eq!(parse_time("09-30-00"), None);
    assert_eq!(parse_time(":30:00"), None);
}

#[test]
fn parse_date_checks_only_the_shape() {
    assert_eq!(parse_date("20240229"), Some(Date { year: 2024, month: 2, day: 29 }));
    assert_eq!(parse_date("20241301"), None);
}

#[test]
fn parse_date_takes_any_day_up_to_31() {
    assert_eq!(parse_date("20230231"), Some(Date { year: 2023, month: 2, day: 31 }));
    assert_eq!(parse_date("20230200"), Some(Date { year: 2023, month: 2, day: 0 }));
    assert_eq!(parse_date("20230232"), None);
    assert_eq!(parse_date("20230001"), None);
    assert_eq!(parse_date("00001231"), Some(Date { year: 0, month: 12, day: 31 }));
}

#[test]
fn parse_date_wants_eight_digits() {
    assert_eq!(parse_date("2024011"), None);
    assert_eq!(parse_date("202401011"), None);
    assert_eq!(parse_date("2024-1-1"), None);
    assert_eq!(parse_date(""), None);
}

#[test]
fn parse_uint_reads_decimal_digits() {
    assert_eq!(parse_uint("0"), Some(0));
    assert_eq!(parse_uint("007"), Some(7));
    assert_eq!(parse_uint("12345"), Some(12345));
    assert_eq!(parse_uint("18446744073709551615"), Some(u64::MAX));
}

#[test]
fn parse_uint_refuses_what_is_no_number() {
    assert_eq!(parse_uint(""), None);
    assert_eq!(parse_uint("+5"), None);
    assert_eq!(parse_uint("-5"), None);
    assert_eq!(parse_uint("5 "), None);
    assert_eq!(parse_uint("1.5"), None);
    assert_eq!(parse_uint("18446744073709551616"), None);
    assert_eq!(parse_uint("99999999999999999999999"), None);
}

#[test]
fn parse_bool_reads_zero_and_one() {
    assert_eq!(parse_bool("0"), Some(false));
    assert_eq!(parse_bool("1"), Some(true));
    assert_eq!(parse_bool("2"), None);
    assert_eq!(parse_bool(""), None);
    assert_eq!(parse_bool("true"), None);
    assert_eq!(parse_bool("01"), None);
}

#[test]
fn parse_route_type_reads_the_eight_kinds() {
    assert_eq!(parse_route_type("0"), Some(RouteType::Tram));
    assert_eq!(parse_route_type("1"), Some(RouteType::Subway));
    assert_eq!(parse_route_type("2"), Some(RouteType::Rail));
    assert_eq!(parse_route_type("3"), Some(RouteType::Bus));
    assert_eq!(parse_route_type("4"), Some(RouteType::Ferry));
    assert_eq!(parse_route_type("5"), Some(RouteType::CableCar));
    assert_eq!(parse_route_type("6"), Some(RouteType::Gondola));
    assert_eq!(parse_route_type("7"), Some(RouteType::Funicular));
    assert_eq!(parse_route_type("8"), None);
    assert_eq!(parse_route_type(""), None);
}

#[test]
fn parse_direction_reads_the_two_ways() {
    assert_eq!(parse_direction("0"), Some(Direction::A));
    assert_eq!(parse_direction("1"), Some(Direction::B));
    assert_eq!(parse_direction("2"), None);
    assert_eq!(parse_direction(""), None);
}

#[test]
fn parse_marshal_reads_the_four_ways() {
    assert_eq!(parse_marshal("0"), Some(Marshal::Scheduled));
    assert_eq!(parse_marshal("1"), Some(Marshal::NoPickup));
    assert_eq!(parse_marshal("2"), Some(Marshal::PhoneAhead));
    assert_eq!(parse_marshal("3"), Some(Marshal::CoordinateWithDriver));
    assert_eq!(parse_marshal("4"), None);
}

#[test]
fn parse_exception_reads_added_and_removed() {
    assert_eq!(parse_exception("1"), Some(Exception::Added));
    assert_eq!(parse_exception("2"), Some(Exception::Removed));
    assert_eq!(parse_exception("0"), None);
    assert_eq!(parse_exception("3"), None);
}

#[test]
fn parse_location_type_takes_nothing_for_a_stop() {
    assert_eq!(parse_location_type(""), Some(LocationType::Stop));
    assert_eq!(parse_location_type("0"), Some(LocationType::Stop));
    assert_eq!(parse_location_type("1"), Some(LocationType::Station));
    assert_eq!(parse_location_type("2"), None);
}

#[test]
fn parse_decimal_counts_in_billionths() {
    assert_eq!(parse_decimal("51.5"), Some(Fixed { nano: 51_500_000_000 }));
    assert_eq!(parse_decimal("-0.12"), Some(Fixed { nano: -120_000_000 }));
    assert_eq!(parse_decimal("+7"), Some(Fixed { nano: 7_000_000_000 }));
    assert_eq!(parse_decimal("0"), Some(Fixed { nano: 0 }));
    assert_eq!(parse_decimal("-0"), Some(Fixed { nano: 0 }));
    assert_eq!(parse_decimal(".5"), Some(Fixed { nano: 500_000_000 }));
    assert_eq!(parse_decimal("5."), Some(Fixed { nano: 5_000_000_000 }));
    assert_eq!(parse_decimal("0.000000001"), Some(Fixed { nano: 1 }));
    assert_eq!(parse_decimal("151.123456789"), Some(Fixed { nano: 151_123_456_789 }));
}

#[test]
fn parse_decimal_drops_digits_past_the_ninth_place() {
    assert_eq!(parse_decimal("1.0000000019"), Some(Fixed { nano: 1_000_000_001 }));
    assert_eq!(parse_decimal("-1.9999999999"), Some(Fixed { nano: -1_999_999_999 }));
    assert_eq!(parse_decimal("1.000000001x"), None);
}

#[test]
fn parse_decimal_refuses_what_is_no_number() {
    assert_eq!(parse_decimal(""), None);
    assert_eq!(parse_decimal("."), None);
    assert_eq!(parse_decimal("-"), None);
    assert_eq!(parse_decimal("1.2.3"), None);
    assert_eq!(parse_decimal("1e5"), None);
    assert_eq!(parse_decimal("--1"), None);
    assert_eq!(parse_decimal(" 1"), None);
    assert_eq!(parse_decimal("abc"), None);
}

#[test]
fn parse_decimal_is_bounded_by_63_bits() {
    assert_eq!(parse_decimal("9223372036.854775807"), Some(Fixed { nano: i64::MAX }));
    assert_eq!(parse_decimal("-9223372036.854775807"), Some(Fixed { nano: -i64::MAX }));
    assert_eq!(parse_decimal("9223372036.854775808"), None);
    assert_eq!(parse_decimal("9223372037"), None);
    assert_eq!(parse_decimal("99999999999999999999999999"), None);
}

#[test]
fn parse_day_reads_weekday_and_date() {
    assert_eq!(
        parse_day("Mon 2024-01-01"),
        Some((Weekday::Monday, Date { year: 2024, month: 1, day: 1 }))
    );
    assert_eq!(
        parse_day("Sun 2023-12-31"),
        Some((Weekday::Sunday, Date { year: 2023, month: 12, day: 31 }))
    );
    assert_eq!(
        parse_day("Tue 2024-02-29"),
        Some((Weekday::Tuesday, Date { year: 2024, month: 2, day: 29 }))
    );
    assert_eq!(
        parse_day("Wed 2024-02-29"),
        Some((Weekday::Wednesday, Date { year: 2024, month: 2, day: 29 }))
    );
    assert_eq!(
        parse_day("Thu 2024-02-29"),
        Some((Weekday::Thursday, Date { year: 2024, month: 2, day: 29 }))
    );
    assert_eq!(
        parse_day("Fri 2024-02-29"),
        Some((Weekday::Friday, Date { year: 2024, month: 2, day: 29 }))
    );
    assert_eq!(
        parse_day("Sat 2024-02-29"),
        Some((Weekday::Saturday, Date { year: 2024, month: 2, day: 29 }))
    );
}

#[test]
fn parse_day_refuses_other_shapes() {
    assert_eq!(parse_day("2024-01-01"), None);
    assert_eq!(parse_day("Mon 2024-13-01"), None);
    assert_eq!(parse_day("Mon 2024-01-32"), None);
    assert_eq!(parse_day("mon 2024-01-01"), None);
    assert_eq!(parse_day("Monday 2024-01-01"), None);
    assert_eq!(parse_day("Mon 2024/01/01"), None);
    assert_eq!(parse_day("Mon-2024-01-01"), None);
    assert_eq!(parse_day(""), None);
}

#[test]
fn texts_compare_by_their_characters() {
    assert!(is_text("abc", "abc"));
    assert!(!is_text("abc", "abd"));
    assert!(!is_text("abc", "ab"));
    assert!(is_text("", ""));
    let list = vec![String::from("a"), String::from("b")];
    assert!(contains_text(&list, "b"));
    assert!(!contains_text(&list, "c"));
    assert_eq!(chars_of("héllo"), vec!['h', 'é', 'l', 'l', 'o']);
}
