use sunfit::day::{normalize_days, Day};
use sunfit::error::{Error, Field};
use sunfit::fit::{fit_series, track, SineFitter};
use sunfit::report::{assemble, normalize_and_assemble};
use sunfit::time_value::{NumOrStr, MICROS_PER_HOUR};

fn hours(h: f64) -> i64 {
    (h * MICROS_PER_HOUR as f64).round() as i64
}

fn as_hours(v: i64) -> f64 {
    v as f64 / MICROS_PER_HOUR as f64
}

#[test]
fn extrema_of_four_samples() {
    let data = vec![(hours(5.9), 1), (hours(6.1), 100), (hours(5.8), 182), (hours(6.3), 300)];
    let t = track(&data);
    assert_eq!(t.min, hours(5.8));
    assert_eq!(t.min_day, 182);
    assert_eq!(t.max, hours(6.3));
    assert_eq!(t.max_day, 300);
    assert_eq!(t.get_midline(), hours(6.05));
}

#[test]
fn update_one_by_one_matches_track() {
    let data = vec![(3, 1), (-2, 2), (7, 3), (7, 4), (-2, 5)];
    let mut t = SineFitter::new();
    assert!(!t.seen);
    for &(v, d) in &data {
        t.update(v, d);
    }
    let u = track(&data);
    assert_eq!((t.min, t.min_day, t.max, t.max_day), (u.min, u.min_day, u.max, u.max_day));
    // first occurrence wins on ties
    assert_eq!((t.min, t.min_day, t.max, t.max_day), (-2, 2, 7, 3));
}

#[test]
fn midline_rounds_down() {
    let t = track(&vec![(-3, 1), (0, 2)]);
    assert_eq!(t.get_midline(), -2);
    assert_eq!(t.get_amplitude(), 1);
    let t = track(&vec![(3, 1), (0, 2)]);
    assert_eq!(t.get_midline(), 1);
    let t = track(&vec![(i64::MIN, 1), (i64::MAX, 2)]);
    assert_eq!(t.get_midline(), -1);
    assert_eq!(t.get_amplitude(), i64::MAX);
}

#[test]
fn fit_agrees_with_extrema() {
    let data = vec![(hours(5.9), 1), (hours(6.1), 100), (hours(5.8), 182), (hours(6.3), 300)];
    let t = track(&data);
    let f = fit_series(&data, 1);
    assert_eq!(f.amplitude, (t.max - t.min) / 2);
    assert_eq!(f.midline, t.get_midline());
    assert_eq!(f.amplitude, hours(0.25));
    assert_eq!(f.midline, hours(6.05));
}

#[test]
fn empty_series_fit() {
    let f = fit_series(&vec![], 1);
    assert_eq!((f.amplitude, f.midline, f.shift_num), (0, 0, 0));
    assert_eq!(f.harmonic, 1);
    assert_eq!(f.shift_den, 2);
    let w = 2.0 * std::f64::consts::PI * f.harmonic as f64 / 365.0;
    assert!((w - 2.0 * std::f64::consts::PI / 365.0).abs() < 1e-15);
    assert!(w > 0.0);
    let f = fit_series(&vec![], 2);
    assert_eq!((f.amplitude, f.midline, f.shift_num, f.harmonic, f.shift_den), (0, 0, 0, 2, 4));
}

#[test]
fn empty_series_fit_ignores_given_extrema() {
    let t = track(&vec![(hours(5.0), 1), (hours(7.0), 2)]);
    let f = t.fit(&vec![], 1);
    assert_eq!((f.amplitude, f.midline, f.shift_num, f.harmonic, f.shift_den), (0, 0, 0, 1, 2));
}

#[test]
fn synthetic_year_recovers_amplitude_and_midline() {
    let data: Vec<(i64, u64)> = (1..=365u64)
        .map(|d| (hours(6.0 + (2.0 * std::f64::consts::PI * d as f64 / 365.0).sin()), d))
        .collect();
    let f = fit_series(&data, 1);
    assert!((as_hours(f.amplitude) - 1.0).abs() < 1e-4);
    assert!((as_hours(f.midline) - 6.0).abs() < 1e-6);
    assert_eq!(f.harmonic, 1);
}

#[test]
fn crossing_in_second_half_climbing_steeply() {
    // midline 12 h is met on day 200, rising 2 h over 199 days
    let data = vec![(hours(10.0), 1), (hours(12.0), 200), (hours(14.0), 300)];
    let f = fit_series(&data, 1);
    assert_eq!((f.shift_num, f.shift_den), (-35, 2));
}

#[test]
fn crossing_in_second_half_falling() {
    let data = vec![(hours(14.0), 1), (hours(12.0), 250), (hours(10.0), 300)];
    let f = fit_series(&data, 1);
    assert_eq!((f.shift_num, f.shift_den), (-135, 2));
}

#[test]
fn crossing_in_first_half_semiannual() {
    let data = vec![(hours(10.0), 1), (hours(12.0), 100), (hours(14.0), 300)];
    let f = fit_series(&data, 2);
    assert_eq!((f.shift_num, f.shift_den), (-400, 4));
}

#[test]
fn crossing_rising_gently_keeps_sign() {
    // rises 0.5 h over 99 days: positive, but under 0.01 h a day
    let data = vec![(hours(11.5), 1), (hours(12.0), 100), (hours(12.5), 200)];
    let f = fit_series(&data, 1);
    assert_eq!((f.shift_num, f.shift_den), (200, 2));
    let data = vec![(hours(11.5), 100), (hours(12.0), 200), (hours(12.5), 300)];
    let f = fit_series(&data, 1);
    assert_eq!((f.shift_num, f.shift_den), (2 * 200 - 365, 2));
}

#[test]
fn crossing_at_first_sample() {
    let data = vec![(hours(12.0), 190), (hours(14.0), 191), (hours(10.0), 192)];
    let f = fit_series(&data, 1);
    assert_eq!((f.shift_num, f.shift_den), (365 - 2 * 190, 2));
}

#[test]
fn fit_from_separate_tracker() {
    let data = vec![(hours(14.0), 1), (hours(12.0), 250), (hours(10.0), 300)];
    let t = track(&data);
    let f = t.fit(&data, 1);
    assert_eq!((f.shift_num, f.amplitude, f.midline), (-135, hours(2.0), hours(12.0)));
}

fn text(s: &str) -> Option<NumOrStr> {
    Some(NumOrStr::Str(s.to_string()))
}

fn raw_days() -> Vec<Day> {
    vec![
        Day { y: 2024, m: 1, d: 1, yday: 1, srise: text("7:00"), sset: text("17:00"), solnoon: text("12:00"), daylen: None },
        Day { y: 2024, m: 4, d: 9, yday: 100, srise: text("6:00"), sset: text("19:00"), solnoon: text("12:30"), daylen: None },
        Day { y: 2024, m: 7, d: 18, yday: 200, srise: text("5:00"), sset: text("21:00"), solnoon: text("13:00"), daylen: None },
    ]
}

#[test]
fn assemble_four_series() {
    let days = normalize_days(raw_days()).unwrap();
    let reports = assemble(&days).unwrap();
    let fields: Vec<Field> = reports.iter().map(|r| r.field).collect();
    assert_eq!(fields, vec![Field::Sunrise, Field::Sunset, Field::SolarNoon, Field::DayLength]);
    let harmonics: Vec<u32> = reports.iter().map(|r| r.fitment.harmonic).collect();
    assert_eq!(harmonics, vec![1, 1, 2, 1]);
    let len = &reports[3];
    assert_eq!(len.samples, vec![(hours(10.0), 1), (hours(13.0), 100), (hours(16.0), 200)]);
    assert_eq!((len.extrema.min, len.extrema.min_day), (hours(10.0), 1));
    assert_eq!((len.extrema.max, len.extrema.max_day), (hours(16.0), 200));
    assert_eq!(len.fitment.amplitude, hours(3.0));
    assert_eq!(len.fitment.midline, hours(13.0));
    assert_eq!(reports[2].fitment.shift_den, 4);
}

#[test]
fn assemble_needs_daylight_length() {
    let days = raw_days();
    assert_eq!(assemble(&days).unwrap_err(), Error::MissingField(Field::DayLength));
}

#[test]
fn normalize_and_assemble_end_to_end() {
    let (days, reports) = normalize_and_assemble(raw_days()).unwrap();
    assert_eq!(days.len(), 3);
    assert_eq!(reports.len(), 4);
    assert_eq!(reports[0].samples, vec![(hours(7.0), 1), (hours(6.0), 100), (hours(5.0), 200)]);
    assert_eq!(reports[0].fitment.midline, hours(6.0));
    assert_eq!(reports[0].fitment.amplitude, hours(1.0));
    // sunrise falls through 6:00 on day 100, 1 h over 99 days
    assert_eq!((reports[0].fitment.shift_num, reports[0].fitment.shift_den), (200, 2));
}

#[test]
fn normalize_and_assemble_reports_bad_day() {
    let mut days = raw_days();
    days[1].sset = None;
    assert_eq!(normalize_and_assemble(days).unwrap_err(), Error::MissingField(Field::Sunset));
}
