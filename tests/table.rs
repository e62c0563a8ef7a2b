use excel_json::double::Double;
use excel_json::record::Record;
use excel_json::source::csv_to_json;
use excel_json::table::{csv_records, project_cells, project_fields, sheet_records};
use excel_json::value::{JsonValue, RawCell};

fn entries(r: &Record) -> Vec<(String, JsonValue)> {
    (0..r.len()).map(|i| {
        let (k, v) = r.entry(i);
        (k.clone(), v.clone())
    }).collect()
}

fn strings(xs: &[&str]) -> Vec<String> {
    xs.iter().map(|s| s.to_string()).collect()
}

fn float(x: f64) -> RawCell {
    RawCell::Float(Double { bits: x.to_bits() })
}

#[test]
fn short_row_has_only_overlapping_keys() {
    let headers = strings(&["a", "b", "c"]);
    let rec = project_cells(&headers, &vec![RawCell::Int(1)], false);
    assert_eq!(entries(&rec), vec![("a".to_string(), JsonValue::Int(1))]);
}

#[test]
fn long_row_drops_extra_cells() {
    let headers = strings(&["a"]);
    let rec = project_cells(&headers, &vec![RawCell::Int(1), RawCell::Int(2)], false);
    assert_eq!(entries(&rec), vec![("a".to_string(), JsonValue::Int(1))]);
}

#[test]
fn duplicate_header_overwrites_in_place() {
    let headers = strings(&["x", "y", "x"]);
    let row = vec![RawCell::Int(1), RawCell::Int(2), RawCell::Int(3)];
    let rec = project_cells(&headers, &row, false);
    assert_eq!(
        entries(&rec),
        vec![("x".to_string(), JsonValue::Int(3)), ("y".to_string(), JsonValue::Int(2))]
    );
}

#[test]
fn sheet_without_header_has_no_records() {
    let rows = vec![vec![RawCell::Int(1)], vec![RawCell::Int(2)]];
    assert_eq!(sheet_records(None, rows, false).len(), 0);
}

#[test]
fn sheet_records_skip_the_header_row() {
    let headers = strings(&["n", "f"]);
    let rows = vec![
        vec![RawCell::Str("n".to_string()), RawCell::Str("f".to_string())],
        vec![RawCell::Int(1), float(1.5)],
        vec![RawCell::Int(2), float(2.0)],
        vec![RawCell::Int(3)],
    ];
    let recs = sheet_records(Some(headers), rows, false);
    assert_eq!(recs.len(), 3);
    assert_eq!(
        entries(&recs[1]),
        vec![("n".to_string(), JsonValue::Int(2)), ("f".to_string(), JsonValue::Int(2))]
    );
    assert_eq!(entries(&recs[2]), vec![("n".to_string(), JsonValue::Int(3))]);
    assert_eq!(sheet_records(Some(strings(&["n"])), vec![], false).len(), 0);
}

#[test]
fn parallel_order_matches_sequential() {
    let headers = strings(&["i", "s"]);
    let mut rows = vec![vec![RawCell::Str("i".to_string())]];
    for i in 0..2000 {
        rows.push(vec![RawCell::Int(i), RawCell::Str(format!("row{}", i))]);
    }
    let sequential: Vec<Vec<(String, JsonValue)>> =
        rows[1..].iter().map(|r| entries(&project_cells(&headers, r, false))).collect();
    let parallel: Vec<Vec<(String, JsonValue)>> =
        sheet_records(Some(headers.clone()), rows, false).iter().map(entries).collect();
    assert_eq!(parallel, sequential);
}

#[test]
fn csv_fields_are_inferred() {
    let headers = strings(&["a", "b", "c", "d"]);
    let rec = project_fields(&headers, &strings(&["TRUE", "12", "1.5", "x.y.z"]));
    assert_eq!(
        entries(&rec),
        vec![
            ("a".to_string(), JsonValue::Bool(true)),
            ("b".to_string(), JsonValue::Int(12)),
            ("c".to_string(), JsonValue::FloatText("1.5".to_string())),
            ("d".to_string(), JsonValue::Str("x.y.z".to_string())),
        ]
    );
}

#[test]
fn csv_records_skip_unparsed() {
    let headers = strings(&["a"]);
    let records = vec![None, Some(strings(&["1"])), None, Some(strings(&["2"]))];
    let recs = csv_records(headers, records);
    assert_eq!(recs.len(), 2);
    assert_eq!(entries(&recs[1]), vec![("a".to_string(), JsonValue::Int(2))]);
    assert_eq!(csv_records(strings(&["a"]), vec![None, None]).len(), 0);
}

#[test]
fn test_csv_to_json() {
    let csv_data = b"name,age,score,active\nalice,30,1.5,true\nbob,41,2.0,FALSE\n";
    let recs = csv_to_json(csv_data);
    assert_eq!(recs.len(), 2);
    assert_eq!(
        entries(&recs[0]),
        vec![
            ("name".to_string(), JsonValue::Str("alice".to_string())),
            ("age".to_string(), JsonValue::Int(30)),
            ("score".to_string(), JsonValue::FloatText("1.5".to_string())),
            ("active".to_string(), JsonValue::Bool(true)),
        ]
    );
}

#[test]
fn csv_with_only_malformed_records_is_empty() {
    let csv_data = b"a,b\n1\n1,2,3\n";
    assert_eq!(csv_to_json(csv_data).len(), 0);
}

#[test]
fn csv_with_only_header_is_empty() {
    assert_eq!(csv_to_json(b"a,b\n").len(), 0);
    assert_eq!(csv_to_json(b"").len(), 0);
}
