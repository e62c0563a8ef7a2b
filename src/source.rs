//! The entry points: workbooks read through calamine, CSV text through csv.
use crate::double::Double;
use crate::record::{key_set, Entry, Record};
use crate::table::{distinct_headers_pair_by_position, short_rows_keep_overlapping_keys, cells_json, csv_json, csv_records, field_lists, names, record_views, sheet_records, zip_record};
use crate::value::{cell_json, JsonView, RawCell, RawCellView};
use calamine::{Data, Range, Reader, Xlsx};
use std::io::Cursor;
use vstd::prelude::*;

verus! {

#[verifier::external_type_specification]
#[verifier::external_body]
#[verifier::reject_recursive_types(RS)]
pub struct ExXlsx<RS>(Xlsx<RS>);

#[verifier::external_type_specification]
#[verifier::external_body]
#[verifier::reject_recursive_types(T)]
pub struct ExCursor<T>(Cursor<T>);

#[verifier::external_type_specification]
#[verifier::external_body]
#[verifier::reject_recursive_types(T)]
pub struct ExRange<T>(Range<T>);

#[verifier::external_type_specification]
#[verifier::external_body]
pub struct ExData(Data);

/// A workbook opened from bytes held in memory.
pub type Workbook = Xlsx<Cursor<Vec<u8>>>;

/// Why a workbook conversion could not run.
#[derive(Clone, Copy, Debug, PartialEq, Eq, Structural)]
pub enum ConvertError {
    /// A sheet index at or past the number of sheets.
    SheetIndexOutOfRange { index: usize, count: usize },
}

/// The sheet names of a workbook, in file order.
pub uninterp spec fn book_sheet_names(workbook: Workbook) -> Seq<Seq<char>>;

/// What calamine reads for the sheet so named in a workbook: `Some` of the
/// texts of its first row and its grid of cells, or `Some(None)` where the
/// sheet cannot be found or read; `None` where the read does not return
/// (calamine panics on a reversed `dimension` reference and on cells whose
/// rows are out of order).
pub uninterp spec fn book_sheet(workbook: Workbook, name: Seq<char>) -> Option<
    Option<(Seq<Seq<char>>, Seq<Seq<RawCellView>>)>,
>;

/// Calamine's read of the sheet so named returns.
pub open spec fn sheet_reads(workbook: Workbook, name: Seq<char>) -> bool {
    book_sheet(workbook, name) is Some
}

/// Two states of a workbook from which every read gives the same.
pub open spec fn same_book(a: Workbook, b: Workbook) -> bool {
    &&& book_sheet_names(a) == book_sheet_names(b)
    &&& forall|n: Seq<char>| #[trigger] book_sheet(a, n) == book_sheet(b, n)
}

/// The cells of a range, row by row, each as the cell of the same kind.
pub uninterp spec fn range_grid(range: Range<Data>) -> Seq<Seq<RawCellView>>;

/// The texts of the first row of a range.
pub uninterp spec fn range_header_texts(range: Range<Data>) -> Seq<Seq<char>>;

/// Relies on calamine's `Reader::sheet_names`: the sheet names in file order.
#[verifier::external_body]
fn workbook_sheet_names(workbook: &Workbook) -> (r: Vec<String>)
    ensures
        names(r@) == book_sheet_names(*workbook),
{
    workbook.sheet_names()
}

/// Relies on calamine's `Reader::worksheet_range`, which reads the sheet
/// from the workbook's archive and changes nothing that a later read sees.
#[verifier::external_body]
fn worksheet_range(workbook: &mut Workbook, name: &str) -> (r: Option<Range<Data>>)
    requires
        sheet_reads(*old(workbook), name@),
    ensures
        same_book(*final(workbook), *old(workbook)),
        match r {
            None => book_sheet(*old(workbook), name@) == Some(
                None::<(Seq<Seq<char>>, Seq<Seq<RawCellView>>)>,
            ),
            Some(range) => book_sheet(*old(workbook), name@) == Some(
                Some((range_header_texts(range), range_grid(range))),
            ),
        },
{
    workbook.worksheet_range(name).ok()
}

/// Relies on calamine's `Range::headers`: the first row as text, `None`
/// for an empty range.
#[verifier::external_body]
fn range_headers(range: &Range<Data>) -> (r: Option<Vec<String>>)
    ensures
        r is Some <==> range_grid(*range).len() > 0,
        r is Some ==> names(r->Some_0@) == range_header_texts(*range),
{
    range.headers()
}

/// Relies on calamine's `Range::get_size`: the height and width, every row
/// of the range being as wide as the range.
#[verifier::external_body]
fn range_size(range: &Range<Data>) -> (r: (usize, usize))
    ensures
        r.0 == range_grid(*range).len(),
        forall|i: int| 0 <= i < r.0 ==> (#[trigger] range_grid(*range)[i]).len() == r.1,
{
    range.get_size()
}

/// Relies on calamine's `Range::get`, which returns `None` outside the
/// range, and on `ExcelDateTime::as_f64` for the serial number of a date.
/// Each variant of `Data` maps to the cell of the same kind.
#[verifier::external_body]
fn range_cell(range: &Range<Data>, row: usize, col: usize) -> (r: RawCell)
    ensures
        row < range_grid(*range).len() && col < range_grid(*range)[row as int].len() ==> r@
            == range_grid(*range)[row as int][col as int],
{
    match range.get((row, col)) {
        None | Some(Data::Empty) => RawCell::Empty,
        Some(Data::Bool(b)) => RawCell::Bool(*b),
        Some(Data::Int(i)) => RawCell::Int(*i),
        Some(Data::Float(f)) => RawCell::Float(Double { bits: f.to_bits() }),
        Some(Data::String(s)) => RawCell::Str(s.clone()),
        Some(Data::DateTime(dt)) => RawCell::DateTime(Double { bits: dt.as_f64().to_bits() }),
        Some(_) => RawCell::Other,
    }
}

/// The CSV header and records that the `csv` crate reads from some bytes,
/// each record `None` where it did not parse; `None` where the header did not.
pub uninterp spec fn csv_table_of(data: Seq<u8>) -> Option<(Seq<Seq<char>>, Seq<Option<Seq<Seq<char>>>>)>;

/// Relies on the `csv` crate's `Reader::headers` and `Reader::records`, with
/// its default settings: a header row, then each record or its error.
#[verifier::external_body]
fn read_csv(data: &[u8]) -> (r: Option<(Vec<String>, Vec<Option<Vec<String>>>)>)
    ensures
        match r {
            None => csv_table_of(data@) is None,
            Some(t) => csv_table_of(data@) == Some((names(t.0@), field_lists(t.1@))),
        },
{
    let mut reader = csv::Reader::from_reader(data);
    let headers: Vec<String> = reader.headers().ok()?.iter().map(String::from).collect();
    let records = reader.records().map(|r| r.ok().map(|rec| rec.iter().map(String::from).collect())).collect();
    Some((headers, records))
}

/// The records of a CSV text: none where its header cannot be read; else one
/// per record that parsed, in order, with its fields' inferred values.
pub fn csv_to_json(csv_data: &[u8]) -> (r: Vec<Record>)
    ensures
        record_views(r@) == match csv_table_of(csv_data@) {
            None => Seq::empty(),
            Some(t) => csv_json(t.0, t.1),
        },
        forall|i: int| 0 <= i < r.len() ==> (#[trigger] r[i]).wf(),
{
    match read_csv(csv_data) {
        None => {
            let r: Vec<Record> = Vec::new();
            assert(record_views(r@) =~= Seq::empty());
            r
        },
        Some((headers, records)) => csv_records(headers, records),
    }
}

/// The name of the sheet at `index`, or the error for an index past the end.
pub fn select_sheet(sheet_names: &Vec<String>, index: usize) -> (r: Result<&String, ConvertError>)
    ensures
        index < sheet_names.len() <==> r is Ok,
        r is Ok ==> r->Ok_0 == sheet_names[index as int],
        r is Err ==> r->Err_0 == (ConvertError::SheetIndexOutOfRange {
            index,
            count: sheet_names.len(),
        }),
{
    if index >= sheet_names.len() {
        Err(ConvertError::SheetIndexOutOfRange { index, count: sheet_names.len() })
    } else {
        Ok(&sheet_names[index])
    }
}

pub open spec fn cell_views(row: Seq<RawCell>) -> Seq<RawCellView> {
    row.map_values(|c: RawCell| c@)
}

/// The records of a grid of cells under the texts of its first row: none
/// for an empty grid; else one per row after the first, in row order.
pub open spec fn grid_json(
    headers: Seq<Seq<char>>,
    grid: Seq<Seq<RawCellView>>,
    is_iso8601: bool,
) -> Seq<Seq<Entry>> {
    if grid.len() == 0 {
        Seq::empty()
    } else {
        grid.drop_first().map_values(
            |row: Seq<RawCellView>|
                zip_record(headers, row.map_values(|c: RawCellView| cell_json(c, is_iso8601))),
        )
    }
}

/// The records of the sheet so named in a workbook: none where the sheet
/// cannot be read or is empty.
pub open spec fn book_sheet_json(workbook: Workbook, name: Seq<char>, is_iso8601: bool) -> Seq<
    Seq<Entry>,
> {
    match book_sheet(workbook, name) {
        Some(Some(sheet)) => grid_json(sheet.0, sheet.1, is_iso8601),
        _ => Seq::empty(),
    }
}

/// All rows of a range, as cells.
fn range_rows(range: &Range<Data>) -> (r: Vec<Vec<RawCell>>)
    ensures
        r.len() == range_grid(*range).len(),
        forall|i: int| 0 <= i < r.len() ==> cell_views((#[trigger] r[i])@) == range_grid(*range)[i],
{
    let ghost grid = range_grid(*range);
    let (height, width) = range_size(range);
    let mut rows: Vec<Vec<RawCell>> = Vec::new();
    let mut i: usize = 0;
    while i < height
        invariant
            i <= height,
            height == grid.len(),
            grid == range_grid(*range),
            forall|k: int| 0 <= k < height ==> (#[trigger] grid[k]).len() == width,
            rows.len() == i,
            forall|k: int| 0 <= k < i ==> cell_views((#[trigger] rows[k])@) == grid[k],
        decreases height - i,
    {
        let mut row: Vec<RawCell> = Vec::new();
        let mut j: usize = 0;
        while j < width
            invariant
                j <= width,
                i < height,
                height == grid.len(),
                grid == range_grid(*range),
                grid[i as int].len() == width,
                row.len() == j,
                forall|k: int| 0 <= k < j ==> (#[trigger] row[k])@ == grid[i as int][k],
            decreases width - j,
        {
            row.push(range_cell(range, i, j));
            j = j + 1;
        }
        assert(cell_views(row@) =~= grid[i as int]);
        rows.push(row);
        i = i + 1;
    }
    rows
}

/// In a sheet whose header texts are distinct, the record of data row `k`
/// holds, at each position of the overlap, that header with the JSON value
/// of the row's cell below it: a float cell that is whole and fits in `i64`
/// gives that integer, and any other finite float keeps its bits. A row
/// shorter than the header row has exactly the keys of the headers it fills.
pub proof fn sheet_records_pair_headers_with_cells(
    headers: Seq<Seq<char>>,
    grid: Seq<Seq<RawCellView>>,
    is_iso8601: bool,
    k: int,
)
    requires
        headers.no_duplicates(),
        1 <= k < grid.len(),
    ensures
        ({
            let rec = grid_json(headers, grid, is_iso8601)[k - 1];
            let row = grid[k];
            &&& rec.len() == if headers.len() < row.len() {
                headers.len() as int
            } else {
                row.len() as int
            }
            &&& forall|j: int|
                0 <= j < rec.len() ==> #[trigger] rec[j] == (headers[j], cell_json(row[j], is_iso8601))
            &&& forall|j: int|
                0 <= j < rec.len() ==> match #[trigger] row[j] {
                    RawCellView::Float(x) => (x.whole() && i64::MIN <= x.floor() <= i64::MAX
                        ==> rec[j].1 == JsonView::Int(x.floor() as i64)) && (x.finite() && !(
                    x.whole() && i64::MIN <= x.floor() <= i64::MAX) ==> rec[j].1 == JsonView::Float(
                        x.bits,
                    )),
                    _ => true,
                }
            &&& row.len() <= headers.len() ==> key_set(rec) == headers.take(row.len() as int).to_set()
        }),
{
    let row = grid[k];
    let values = row.map_values(|c: RawCellView| cell_json(c, is_iso8601));
    assert(grid.drop_first()[k - 1] == row);
    assert(grid_json(headers, grid, is_iso8601)[k - 1] == crate::table::zip_record(headers, values));
    distinct_headers_pair_by_position(headers, values);
    if row.len() <= headers.len() {
        short_rows_keep_overlapping_keys(headers, values);
    }
}

/// The records of the sheet named `sheet_name`: none where the sheet cannot
/// be read or has no header row; else one per row after the header.
pub fn sheet_to_json(workbook: &mut Workbook, sheet_name: &str, is_iso8601: bool) -> (r: Vec<Record>)
    requires
        sheet_reads(*old(workbook), sheet_name@),
    ensures
        same_book(*final(workbook), *old(workbook)),
        record_views(r@) == book_sheet_json(*old(workbook), sheet_name@, is_iso8601),
        forall|i: int| 0 <= i < r.len() ==> (#[trigger] r[i]).wf(),
{
    match worksheet_range(workbook, sheet_name) {
        None => {
            let r: Vec<Record> = Vec::new();
            assert(record_views(r@) =~= Seq::empty());
            r
        },
        Some(range) => {
            let ghost grid = range_grid(range);
            let ghost texts = range_header_texts(range);
            let headers = range_headers(&range);
            let rows = range_rows(&range);
            let ghost all = rows@;
            let r = sheet_records(headers, rows, is_iso8601);
            proof {
                if all.len() > 0 {
                    assert forall|k: int| 0 <= k < all.len() implies cells_json(
                        (#[trigger] all[k])@,
                        is_iso8601,
                    ) == grid[k].map_values(|c: RawCellView| cell_json(c, is_iso8601)) by {
                        assert(cell_views(all[k]@) == grid[k]);
                        assert(cells_json(all[k]@, is_iso8601) =~= grid[k].map_values(
                            |c: RawCellView| cell_json(c, is_iso8601),
                        ));
                    }
                    assert(record_views(r@) =~= grid_json(texts, grid, is_iso8601));
                } else {
                    assert(record_views(r@) =~= grid_json(texts, grid, is_iso8601));
                }
            }
            r
        },
    }
}

/// The records of the sheet at `sheet_index` of a workbook.
pub fn excel_to_json(workbook: &mut Workbook, sheet_index: usize, is_iso8601: bool) -> (r: Result<
    Vec<Record>,
    ConvertError,
>)
    requires
        sheet_index < book_sheet_names(*old(workbook)).len() ==> sheet_reads(
            *old(workbook),
            book_sheet_names(*old(workbook))[sheet_index as int],
        ),
    ensures
        same_book(*final(workbook), *old(workbook)),
        r is Err <==> sheet_index >= book_sheet_names(*old(workbook)).len(),
        r is Err ==> r->Err_0 == (ConvertError::SheetIndexOutOfRange {
            index: sheet_index,
            count: book_sheet_names(*old(workbook)).len() as usize,
        }),
        r is Ok ==> record_views(r->Ok_0@) == book_sheet_json(
            *old(workbook),
            book_sheet_names(*old(workbook))[sheet_index as int],
            is_iso8601,
        ),
        r is Ok ==> forall|i: int| 0 <= i < r->Ok_0.len() ==> (#[trigger] r->Ok_0[i]).wf(),
{
    let sheet_names = workbook_sheet_names(workbook);
    let sheet_name = match select_sheet(&sheet_names, sheet_index) {
        Ok(name) => name,
        Err(e) => return Err(e),
    };
    Ok(sheet_to_json(workbook, sheet_name.as_str(), is_iso8601))
}

/// The records of every sheet of a workbook, one table per sheet in sheet
/// order; a sheet that cannot be read has no records.
pub fn all_excel_to_json(workbook: &mut Workbook, is_iso8601: bool) -> (r: Vec<Vec<Record>>)
    requires
        forall|i: int|
            0 <= i < book_sheet_names(*old(workbook)).len() ==> sheet_reads(
                *old(workbook),
                #[trigger] book_sheet_names(*old(workbook))[i],
            ),
    ensures
        same_book(*final(workbook), *old(workbook)),
        r.len() == book_sheet_names(*old(workbook)).len(),
        forall|i: int|
            0 <= i < r.len() ==> record_views((#[trigger] r[i])@) == book_sheet_json(
                *old(workbook),
                book_sheet_names(*old(workbook))[i],
                is_iso8601,
            ),
{
    let ghost start = *workbook;
    let sheet_names = workbook_sheet_names(workbook);
    let ghost sn = book_sheet_names(start);
    let mut sheets: Vec<Vec<Record>> = Vec::new();
    let mut i: usize = 0;
    while i < sheet_names.len()
        invariant
            i <= sheet_names.len(),
            start == *old(workbook),
            same_book(*workbook, start),
            forall|k: int| 0 <= k < sn.len() ==> sheet_reads(start, #[trigger] sn[k]),
            names(sheet_names@) == sn,
            sn == book_sheet_names(start),
            sheets.len() == i,
            forall|j: int|
                0 <= j < i ==> record_views((#[trigger] sheets[j])@) == book_sheet_json(
                    start,
                    sn[j],
                    is_iso8601,
                ),
        decreases sheet_names.len() - i,
    {
        assert(sheet_names[i as int]@ == sn[i as int]);
        assert(book_sheet(*workbook, sn[i as int]) == book_sheet(start, sn[i as int]));
        let ghost before = *workbook;
        let recs = sheet_to_json(workbook, sheet_names[i].as_str(), is_iso8601);
        assert(book_sheet_json(before, sn[i as int], is_iso8601) == book_sheet_json(start, sn[i as int], is_iso8601)) by {
            assert(book_sheet(before, sn[i as int]) == book_sheet(start, sn[i as int]));
        }
        assert forall|n: Seq<char>| #[trigger] book_sheet(*workbook, n) == book_sheet(start, n) by {
            assert(book_sheet(*workbook, n) == book_sheet(before, n));
            assert(book_sheet(before, n) == book_sheet(start, n));
        }
        sheets.push(recs);
        i = i + 1;
    }
    sheets
}

} // verus!
