use excel_json::double::Double;
use excel_json::record::Record;
use calamine::{Reader, Xlsx};
use excel_json::source::{all_excel_to_json, excel_to_json, sheet_to_json, ConvertError, Workbook};
use excel_json::value::JsonValue;
use std::io::{Cursor, Write};

const MAIN_NS: &str = "http://schemas.openxmlformats.org/spreadsheetml/2006/main";
const REL_NS: &str = "http://schemas.openxmlformats.org/officeDocument/2006/relationships";
const PKG_NS: &str = "http://schemas.openxmlformats.org/package/2006/relationships";

fn inline(cell: &str, text: &str) -> String {
    format!("<c r=\"{}\" t=\"inlineStr\"><is><t>{}</t></is></c>", cell, text)
}

fn sheet(rows: &[String]) -> String {
    format!("<worksheet xmlns=\"{}\"><sheetData>{}</sheetData></worksheet>", MAIN_NS, rows.concat())
}

/// Three sheets: "Items" with a header and two rows, "Empty" with a header
/// only, and "Lost" whose part is missing from the package.
fn workbook_bytes() -> Vec<u8> {
    let items = sheet(&[
        format!("<row r=\"1\">{}{}{}</row>", inline("A1", "name"), inline("B1", "qty"), inline("C1", "ok")),
        format!(
            "<row r=\"2\">{}<c r=\"B2\"><v>3</v></c><c r=\"C2\" t=\"b\"><v>1</v></c></row>",
            inline("A2", "pen")
        ),
        format!("<row r=\"3\">{}<c r=\"B3\"><v>2.5</v></c></row>", inline("A3", "ink")),
    ]);
    let empty = sheet(&[format!("<row r=\"1\">{}</row>", inline("A1", "only"))]);
    let workbook = format!(
        "<workbook xmlns=\"{}\" xmlns:r=\"{}\"><sheets>\
         <sheet name=\"Items\" sheetId=\"1\" r:id=\"rId1\"/>\
         <sheet name=\"Empty\" sheetId=\"2\" r:id=\"rId2\"/>\
         <sheet name=\"Lost\" sheetId=\"3\" r:id=\"rId3\"/>\
         </sheets></workbook>",
        MAIN_NS, REL_NS
    );
    let rel = |id: &str, target: &str| {
        format!(
            "<Relationship Id=\"{}\" Type=\"{}/worksheet\" Target=\"{}\"/>",
            id, REL_NS, target
        )
    };
    let rels = format!(
        "<Relationships xmlns=\"{}\">{}{}{}</Relationships>",
        PKG_NS,
        rel("rId1", "worksheets/sheet1.xml"),
        rel("rId2", "worksheets/sheet2.xml"),
        rel("rId3", "worksheets/sheet3.xml")
    );
    let mut zip = zip::ZipWriter::new(Cursor::new(Vec::new()));
    let parts = [
        ("xl/workbook.xml", workbook),
        ("xl/_rels/workbook.xml.rels", rels),
        ("xl/worksheets/sheet1.xml", items),
        ("xl/worksheets/sheet2.xml", empty),
    ];
    for (name, body) in parts.iter() {
        zip.start_file(*name, zip::write::SimpleFileOptions::default()).unwrap();
        zip.write_all(body.as_bytes()).unwrap();
    }
    zip.finish().unwrap().into_inner()
}

fn open() -> Workbook {
    Xlsx::new(Cursor::new(workbook_bytes())).unwrap()
}

fn entries(r: &Record) -> Vec<(String, JsonValue)> {
    (0..r.len()).map(|i| {
        let (k, v) = r.entry(i);
        (k.clone(), v.clone())
    }).collect()
}

fn key(k: &str, v: JsonValue) -> (String, JsonValue) {
    (k.to_string(), v)
}

#[test]
fn excel_read() {
    let records = excel_to_json(&mut open(), 0, true).unwrap();
    assert_eq!(records.len(), 2);
    assert_eq!(
        entries(&records[0]),
        vec![
            key("name", JsonValue::Str("pen".to_string())),
            key("qty", JsonValue::Int(3)),
            key("ok", JsonValue::Bool(true)),
        ]
    );
    assert_eq!(
        entries(&records[1]),
        vec![
            key("name", JsonValue::Str("ink".to_string())),
            key("qty", JsonValue::Float(Double { bits: 2.5f64.to_bits() })),
            key("ok", JsonValue::Null),
        ]
    );
}

#[test]
fn every_sheet_in_order_bad_ones_empty() {
    let sheets = all_excel_to_json(&mut open(), false);
    let counts: Vec<usize> = sheets.iter().map(|s| s.len()).collect();
    assert_eq!(counts, vec![2, 0, 0]);
}

#[test]
fn workbook_index_past_the_end_is_refused() {
    let mut workbook = open();
    assert!(excel_to_json(&mut workbook, 2, false).is_ok());
    assert_eq!(
        excel_to_json(&mut workbook, 3, false).err(),
        Some(ConvertError::SheetIndexOutOfRange { index: 3, count: 3 })
    );
}

#[test]
fn missing_sheet_name_has_no_records() {
    let mut workbook = open();
    assert_eq!(sheet_to_json(&mut workbook, "Nowhere", false).len(), 0);
    assert_eq!(sheet_to_json(&mut workbook, "Items", false).len(), 2);
}

#[test]
fn table_of_each_sheet_matches_single_sheet_call() {
    let mut workbook = open();
    let all = all_excel_to_json(&mut workbook, true);
    for (i, table) in all.iter().enumerate() {
        let single = excel_to_json(&mut workbook, i, true).unwrap();
        let a: Vec<_> = table.iter().map(entries).collect();
        let b: Vec<_> = single.iter().map(entries).collect();
        assert_eq!(a, b);
    }
}
