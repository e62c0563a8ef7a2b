use excel_json::double::Double;
use excel_json::value::{cell_to_json, float_to_json, JsonValue, RawCell};

fn d(x: f64) -> Double {
    Double { bits: x.to_bits() }
}

#[test]
fn whole_floats_become_integers() {
    assert_eq!(float_to_json(d(42.0)), JsonValue::Int(42));
    assert_eq!(float_to_json(d(-7.0)), JsonValue::Int(-7));
    assert_eq!(float_to_json(d(-0.0)), JsonValue::Int(0));
    assert_eq!(float_to_json(d(4503599627370496.0)), JsonValue::Int(4503599627370496));
    assert_eq!(float_to_json(d(-9223372036854775808.0)), JsonValue::Int(i64::MIN));
}

#[test]
fn other_floats_keep_their_bits() {
    assert_eq!(float_to_json(d(3.5)), JsonValue::Float(d(3.5)));
    assert_eq!(float_to_json(d(0.1)), JsonValue::Float(d(0.1)));
    assert_eq!(float_to_json(d(-2.25)), JsonValue::Float(d(-2.25)));
    assert_eq!(float_to_json(Double { bits: 1 }), JsonValue::Float(Double { bits: 1 }));
}

#[test]
fn whole_floats_past_i64_stay_floats() {
    assert_eq!(float_to_json(d(9223372036854775808.0)), JsonValue::Float(d(9223372036854775808.0)));
    assert_eq!(float_to_json(d(1e300)), JsonValue::Float(d(1e300)));
}

#[test]
fn non_finite_floats_are_null() {
    assert_eq!(float_to_json(d(f64::NAN)), JsonValue::Null);
    assert_eq!(float_to_json(d(f64::INFINITY)), JsonValue::Null);
}

#[test]
fn each_cell_kind_coerces() {
    assert_eq!(cell_to_json(&RawCell::Empty, false), JsonValue::Null);
    assert_eq!(cell_to_json(&RawCell::Bool(true), false), JsonValue::Bool(true));
    assert_eq!(cell_to_json(&RawCell::Int(-3), false), JsonValue::Int(-3));
    assert_eq!(cell_to_json(&RawCell::Float(d(2.0)), false), JsonValue::Int(2));
    assert_eq!(cell_to_json(&RawCell::Float(d(2.5)), false), JsonValue::Float(d(2.5)));
    assert_eq!(cell_to_json(&RawCell::Str("hi".to_string()), false), JsonValue::Str("hi".to_string()));
    assert_eq!(cell_to_json(&RawCell::Other, true), JsonValue::Null);
}

#[test]
fn date_cells_as_timestamp_or_iso() {
    let cell = RawCell::DateTime(d(45496.0));
    assert_eq!(cell_to_json(&cell, false), JsonValue::Int(1721692800));
    assert_eq!(
        cell_to_json(&cell, true),
        JsonValue::Str("2024-07-23T00:00:00+00:00".to_string())
    );
}
