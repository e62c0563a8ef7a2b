use excel_json::double::Double;
use excel_json::epoch::{excel_time_to_unix_time, unix_to_iso};

fn serial(x: f64) -> Double {
    Double { bits: x.to_bits() }
}

#[test]
fn excel_time_to_unix_time_test() {
    let excel_time = serial(45496.0);
    let expect_unix_time = 1721692800;
    assert_eq!(excel_time_to_unix_time(excel_time), expect_unix_time);
}

#[test]
fn valid_unix_to_iso() {
    let unix_time: i64 = 1721692800;
    let expect_string = "2024-07-23T00:00:00+00:00";
    assert_eq!(unix_to_iso(unix_time), expect_string);
}

#[test]
fn serial_epoch_is_unix_zero() {
    assert_eq!(excel_time_to_unix_time(serial(25569.0)), 0);
}

#[test]
fn serial_fraction_rounds_to_nearest_second() {
    assert_eq!(excel_time_to_unix_time(serial(25569.25)), 21600);
    assert_eq!(excel_time_to_unix_time(serial(25569.5)), 43200);
    // 1.4 s and 1.6 s past the epoch
    assert_eq!(excel_time_to_unix_time(serial(25569.0 + 1.4 / 86400.0)), 1);
    assert_eq!(excel_time_to_unix_time(serial(25569.0 + 1.6 / 86400.0)), 2);
}

#[test]
fn serial_before_day_zero_floors_down() {
    // floor(-1.5) = -2, fraction 0.5 of a day
    assert_eq!(excel_time_to_unix_time(serial(-1.5)), (-2 - 25569) * 86400 + 43200);
    assert_eq!(excel_time_to_unix_time(serial(0.0)), -2209161600);
}

#[test]
fn serial_tiny_values_are_day_zero() {
    assert_eq!(excel_time_to_unix_time(serial(1e-300)), -2209161600);
    assert_eq!(excel_time_to_unix_time(serial(-1e-300)), -2209161600);
    assert_eq!(excel_time_to_unix_time(Double { bits: 1 }), -2209161600);
}

#[test]
fn serial_out_of_range_saturates() {
    assert_eq!(excel_time_to_unix_time(serial(1e300)), i64::MAX);
    assert_eq!(excel_time_to_unix_time(serial(-1e300)), i64::MIN);
    assert_eq!(excel_time_to_unix_time(serial(f64::INFINITY)), i64::MAX);
    assert_eq!(excel_time_to_unix_time(serial(f64::NEG_INFINITY)), i64::MIN);
    assert_eq!(excel_time_to_unix_time(serial(f64::NAN)), -2209161600);
}

#[test]
fn unix_to_iso_of_zero_and_invalid() {
    assert_eq!(unix_to_iso(0), "1970-01-01T00:00:00+00:00");
    assert_eq!(unix_to_iso(i64::MAX), "Invalid");
}
