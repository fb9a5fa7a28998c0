use sunfit::error::Error;
use sunfit::time_value::{NumOrStr, MAX_MICROS, MICROS_PER_HOUR, MICROS_PER_MINUTE};

fn text(s: &str) -> NumOrStr {
    NumOrStr::Str(s.to_string())
}

fn micros(t: &NumOrStr) -> i64 {
    match t.as_num() {
        Ok(NumOrStr::Num(v)) => v,
        other => panic!("not numeric: {:?}", other),
    }
}

fn shown(t: &NumOrStr) -> String {
    match t.as_str() {
        NumOrStr::Str(s) => s,
        other => panic!("not text: {:?}", other),
    }
}

#[test]
fn round_trip_half_hour() {
    let n = text("6:30").as_num().unwrap();
    assert_eq!(micros(&n), 6 * MICROS_PER_HOUR + 30 * MICROS_PER_MINUTE);
    assert_eq!(shown(&n), "6:30");
}

#[test]
fn round_trip_three_quarters() {
    let n = text("6:45").as_num().unwrap();
    assert_eq!(shown(&n), "6:45");
}

#[test]
fn round_trip_fifty_nine() {
    let n = text("6:59").as_num().unwrap();
    let hours = micros(&n) as f64 / MICROS_PER_HOUR as f64;
    assert!((hours - 6.9833).abs() < 1e-4);
    assert_eq!(shown(&n), "6:59");
}

#[test]
fn text_truncates_not_rounds() {
    // 6 h 59 min 59.9 s is shown as 6:59, not 7:0
    let v = 6 * MICROS_PER_HOUR + 59 * MICROS_PER_MINUTE + 59_900_000;
    assert_eq!(shown(&NumOrStr::Num(v)), "6:59");
    // 6.9833 h is 6 h 58.998 min
    let v = (6.9833f64 * MICROS_PER_HOUR as f64) as i64;
    assert_eq!(shown(&NumOrStr::Num(v)), "6:58");
}

#[test]
fn leading_zeros_are_dropped() {
    assert_eq!(shown(&text("6:05").as_num().unwrap()), "6:5");
    assert_eq!(shown(&text("06:00").as_num().unwrap()), "6:0");
}

#[test]
fn text_stays_text() {
    assert_eq!(shown(&text("anything")), "anything");
}

#[test]
fn number_stays_number() {
    assert_eq!(micros(&NumOrStr::Num(-5)), -5);
    assert_eq!(NumOrStr::Num(42).get_num(), Ok(42));
}

#[test]
fn negative_number_shows_zero() {
    assert_eq!(shown(&NumOrStr::Num(-MICROS_PER_HOUR)), "0:0");
}

#[test]
fn comma_separator_and_extra_fields() {
    assert_eq!(micros(&text("6,30")), 6 * MICROS_PER_HOUR + 30 * MICROS_PER_MINUTE);
    assert_eq!(micros(&text("6:30:15")), 6 * MICROS_PER_HOUR + 30 * MICROS_PER_MINUTE);
    assert_eq!(micros(&text("18:7,9")), 18 * MICROS_PER_HOUR + 7 * MICROS_PER_MINUTE);
}

#[test]
fn get_num_reads_text() {
    assert_eq!(text("12:00").get_num(), Ok(12 * MICROS_PER_HOUR));
}

#[test]
fn malformed_text_is_a_parse_error() {
    for s in [
        "630", "a:30", "6:b", "6:", ":30", "", " 6:30", "1e:0", "e1:0", "inf:0", "NaN:0", "6.5.1:0",
        "--1:0", "+:0", ".:0", "6:.", "6:3-0", "1e+:0", "1e1.5:0", ".e1:0",
    ] {
        assert!(matches!(text(s).as_num(), Err(Error::Parse)), "{}", s);
        assert_eq!(text(s).get_num(), Err(Error::Parse), "{}", s);
    }
}

#[test]
fn out_of_range_text_is_a_parse_error() {
    assert_eq!(text("1111111111:0").get_num(), Ok(1111111111 * MICROS_PER_HOUR));
    assert_eq!(text("1111111112:0").get_num(), Err(Error::Parse));
    assert_eq!(text("99999999999999999999999:0").get_num(), Err(Error::Parse));
    assert_eq!(text("0:66666666666").get_num(), Ok(66666666666 * MICROS_PER_MINUTE));
    assert_eq!(text("0:66666666667").get_num(), Err(Error::Parse));
    assert!(1111111111 * MICROS_PER_HOUR <= MAX_MICROS);
}

#[test]
fn to_text_matches_as_str() {
    assert_eq!(NumOrStr::Num(18 * MICROS_PER_HOUR + 7 * MICROS_PER_MINUTE).to_text(), "18:7");
    assert_eq!(text("6,05").to_text(), "6,05");
    assert_eq!(NumOrStr::Num(0).to_text(), "0:0");
}

#[test]
fn fractional_and_signed_parts() {
    assert_eq!(text("6.5:30").get_num(), Ok(7 * MICROS_PER_HOUR));
    assert_eq!(text("6:30.5").get_num(), Ok(6 * MICROS_PER_HOUR + 30 * MICROS_PER_MINUTE + MICROS_PER_MINUTE / 2));
    assert_eq!(text("-1:30").get_num(), Ok(-MICROS_PER_HOUR / 2));
    assert_eq!(text("+6:+30").get_num(), Ok(6 * MICROS_PER_HOUR + 30 * MICROS_PER_MINUTE));
    assert_eq!(text(".5:0").get_num(), Ok(MICROS_PER_HOUR / 2));
    assert_eq!(text("7.:0").get_num(), Ok(7 * MICROS_PER_HOUR));
    assert_eq!(text("0:-1.5").get_num(), Ok(-MICROS_PER_MINUTE * 3 / 2));
}

#[test]
fn fraction_is_read_to_nine_places_and_truncated() {
    // 0.123456789 h is 444444440.4 us
    assert_eq!(text("0.123456789:0").get_num(), Ok(444_444_440));
    assert_eq!(text("0.1234567899:0").get_num(), Ok(444_444_440));
    assert_eq!(text("-0.123456789:0").get_num(), Ok(-444_444_440));
    // a ten-millionth of a minute is 6 us
    assert_eq!(text("0:0.0000001").get_num(), Ok(6));
    assert_eq!(text("0:0.00000001").get_num(), Ok(0));
}

#[test]
fn sum_out_of_range_is_a_parse_error() {
    assert_eq!(text("1111111111:66666666666").get_num(), Err(Error::Parse));
    assert_eq!(
        text("1111111111:-66666666666").get_num(),
        Ok(1111111111 * MICROS_PER_HOUR - 66666666666 * MICROS_PER_MINUTE)
    );
}

#[test]
fn exponent_notation() {
    assert_eq!(text("6e0:30").get_num(), Ok(6 * MICROS_PER_HOUR + 30 * MICROS_PER_MINUTE));
    assert_eq!(text("1e1:0").get_num(), Ok(10 * MICROS_PER_HOUR));
    assert_eq!(text("2.5E-1:0").get_num(), Ok(MICROS_PER_HOUR / 4));
    assert_eq!(text("0.06e+2:3E1").get_num(), Ok(6 * MICROS_PER_HOUR + 30 * MICROS_PER_MINUTE));
    assert_eq!(text("-1e0:0").get_num(), Ok(-MICROS_PER_HOUR));
    assert_eq!(text("600e-2:0").get_num(), Ok(6 * MICROS_PER_HOUR));
    assert_eq!(text("1e-20:0").get_num(), Ok(0));
    assert_eq!(text("0e99999999999999999999999999999999999999999:0").get_num(), Ok(0));
    assert_eq!(text("1e-99999999999999999999999999999999999999999:0").get_num(), Ok(0));
    assert_eq!(text("1e99999999999999999999999999999999999999999:0").get_num(), Err(Error::Parse));
    assert_eq!(text("1e20:0").get_num(), Err(Error::Parse));
    assert_eq!(text("1.111111111e9:0").get_num(), Ok(1111111111 * MICROS_PER_HOUR));
}
