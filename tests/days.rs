use sunfit::day::{normalize_days, series, Day};
use sunfit::error::{Error, Field};
use sunfit::time_value::{NumOrStr, MICROS_PER_HOUR, MICROS_PER_MINUTE};

fn text(s: &str) -> Option<NumOrStr> {
    Some(NumOrStr::Str(s.to_string()))
}

fn day(yday: u64, rise: Option<NumOrStr>, set: Option<NumOrStr>, noon: Option<NumOrStr>) -> Day {
    Day { y: 2024, m: 1, d: yday, yday, srise: rise, sset: set, solnoon: noon, daylen: None }
}

fn num(t: &Option<NumOrStr>) -> i64 {
    match t {
        Some(NumOrStr::Num(v)) => *v,
        other => panic!("not numeric: {:?}", other),
    }
}

#[test]
fn daylight_length_is_sunset_minus_sunrise() {
    let mut d = day(1, text("6:00"), text("18:00"), text("12:00"));
    assert_eq!(d.normalize(), Ok(()));
    assert_eq!(num(&d.srise), 6 * MICROS_PER_HOUR);
    assert_eq!(num(&d.sset), 18 * MICROS_PER_HOUR);
    assert_eq!(num(&d.solnoon), 12 * MICROS_PER_HOUR);
    assert_eq!(num(&d.daylen), 12 * MICROS_PER_HOUR);
    match d.daylen.as_ref().unwrap().as_str() {
        NumOrStr::Str(s) => assert_eq!(s, "12:0"),
        other => panic!("not text: {:?}", other),
    }
}

#[test]
fn normalize_mixes_text_and_numbers() {
    let rise = 7 * MICROS_PER_HOUR + 15 * MICROS_PER_MINUTE;
    let mut d = day(3, Some(NumOrStr::Num(rise)), text("16:45"), text("11:59"));
    assert_eq!(d.normalize(), Ok(()));
    assert_eq!(num(&d.daylen), 9 * MICROS_PER_HOUR + 30 * MICROS_PER_MINUTE);
    assert_eq!((d.y, d.m, d.d, d.yday), (2024, 1, 3, 3));
}

#[test]
fn missing_fields_are_reported_in_order() {
    let mut d = day(1, None, None, text("12:00"));
    assert_eq!(d.normalize(), Err(Error::MissingField(Field::Sunrise)));
    let mut d = day(1, text("6:00"), None, None);
    assert_eq!(d.normalize(), Err(Error::MissingField(Field::Sunset)));
    let mut d = day(1, text("6:00"), text("18:00"), None);
    assert_eq!(d.normalize(), Err(Error::MissingField(Field::SolarNoon)));
    assert!(matches!(d.srise, Some(NumOrStr::Str(_))));
    assert!(d.daylen.is_none());
}

#[test]
fn malformed_field_is_a_parse_error() {
    let mut d = day(1, text("6:00"), text("18h"), None);
    assert_eq!(d.normalize(), Err(Error::Parse));
}

#[test]
fn normalize_days_keeps_order() {
    let days = vec![
        day(1, text("7:00"), text("17:00"), text("12:00")),
        day(2, text("6:30"), text("17:30"), text("12:01")),
    ];
    let out = normalize_days(days).unwrap();
    assert_eq!(out.len(), 2);
    assert_eq!(num(&out[0].daylen), 10 * MICROS_PER_HOUR);
    assert_eq!(num(&out[1].daylen), 11 * MICROS_PER_HOUR);
    assert_eq!(out[1].yday, 2);
}

#[test]
fn normalize_days_stops_at_first_failure() {
    let days = vec![
        day(1, text("7:00"), text("17:00"), text("12:00")),
        day(2, text("x"), None, text("12:01")),
        day(3, None, None, None),
    ];
    assert_eq!(normalize_days(days).unwrap_err(), Error::Parse);
}

#[test]
fn series_pairs_values_with_days() {
    let days = vec![
        day(10, text("7:00"), text("17:00"), text("12:00")),
        day(11, text("6:30"), None, text("12:01")),
    ];
    let s = series(&days, Field::Sunrise).unwrap();
    assert_eq!(s, vec![(7 * MICROS_PER_HOUR, 10), (6 * MICROS_PER_HOUR + 30 * MICROS_PER_MINUTE, 11)]);
    assert_eq!(series(&days, Field::Sunset).unwrap_err(), Error::MissingField(Field::Sunset));
    assert_eq!(series(&days, Field::DayLength).unwrap_err(), Error::MissingField(Field::DayLength));
}
