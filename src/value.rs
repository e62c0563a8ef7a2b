//! Raw spreadsheet cells, JSON leaf values, and the coercion between them.
use crate::double::Double;
use crate::epoch::{excel_time_to_unix_time, iso_text_of, unix_time_of, unix_to_iso};
use vstd::prelude::*;

verus! {

/// A JSON leaf value.
#[derive(Clone, Debug, PartialEq)]
pub enum JsonValue {
    Null,
    Bool(bool),
    Int(i64),
    /// A finite binary64 number.
    Float(Double),
    Str(String),
    /// A numeral with exactly one dot, standing for the nearest binary64
    /// number; [`crate::infer::resolve_float_text`] settles it once read.
    FloatText(String),
}

/// The mathematical content of a [`JsonValue`].
pub enum JsonView {
    Null,
    Bool(bool),
    Int(i64),
    Float(u64),
    Str(Seq<char>),
    FloatText(Seq<char>),
}

impl View for JsonValue {
    type V = JsonView;

    open spec fn view(&self) -> JsonView {
        match self {
            JsonValue::Null => JsonView::Null,
            JsonValue::Bool(b) => JsonView::Bool(*b),
            JsonValue::Int(i) => JsonView::Int(*i),
            JsonValue::Float(x) => JsonView::Float(x.bits),
            JsonValue::Str(s) => JsonView::Str(s@),
            JsonValue::FloatText(s) => JsonView::FloatText(s@),
        }
    }
}

/// One cell of a spreadsheet as its reader typed it.
#[derive(Clone, Debug, PartialEq)]
pub enum RawCell {
    Empty,
    Bool(bool),
    Int(i64),
    Float(Double),
    Str(String),
    /// A date-time as a serial day number.
    DateTime(Double),
    /// Any content the coercion has no rule for.
    Other,
}

pub enum RawCellView {
    Empty,
    Bool(bool),
    Int(i64),
    Float(Double),
    Str(Seq<char>),
    DateTime(Double),
    Other,
}

impl View for RawCell {
    type V = RawCellView;

    open spec fn view(&self) -> RawCellView {
        match self {
            RawCell::Empty => RawCellView::Empty,
            RawCell::Bool(b) => RawCellView::Bool(*b),
            RawCell::Int(i) => RawCellView::Int(*i),
            RawCell::Float(x) => RawCellView::Float(*x),
            RawCell::Str(s) => RawCellView::Str(s@),
            RawCell::DateTime(x) => RawCellView::DateTime(*x),
            RawCell::Other => RawCellView::Other,
        }
    }
}

/// A float cell: the integer it equals when it is whole and fits in `i64`;
/// otherwise the number itself while it is finite; `null` for NaN and the
/// infinities, which JSON cannot hold.
pub open spec fn float_json(x: Double) -> JsonView {
    match x.whole_i64_spec() {
        Some(i) => JsonView::Int(i),
        None => if x.finite() {
            JsonView::Float(x.bits)
        } else {
            JsonView::Null
        },
    }
}

/// The JSON value of a cell.
pub open spec fn cell_json(cell: RawCellView, is_iso8601: bool) -> JsonView {
    match cell {
        RawCellView::Empty => JsonView::Null,
        RawCellView::Bool(b) => JsonView::Bool(b),
        RawCellView::Int(i) => JsonView::Int(i),
        RawCellView::Float(x) => float_json(x),
        RawCellView::Str(s) => JsonView::Str(s),
        RawCellView::DateTime(x) => if is_iso8601 {
            JsonView::Str(iso_text_of(unix_time_of(x)))
        } else {
            JsonView::Int(unix_time_of(x) as i64)
        },
        RawCellView::Other => JsonView::Null,
    }
}

pub fn float_to_json(x: Double) -> (r: JsonValue)
    ensures
        r@ == float_json(x),
{
    match x.whole_i64() {
        Some(i) => JsonValue::Int(i),
        None => if x.is_finite() {
            JsonValue::Float(x)
        } else {
            JsonValue::Null
        },
    }
}

/// Coerces one spreadsheet cell to its JSON value.
pub fn cell_to_json(cell: &RawCell, is_iso8601: bool) -> (r: JsonValue)
    ensures
        r@ == cell_json(cell@, is_iso8601),
{
    match cell {
        RawCell::Empty => JsonValue::Null,
        RawCell::Bool(b) => JsonValue::Bool(*b),
        RawCell::Int(i) => JsonValue::Int(*i),
        RawCell::Float(x) => float_to_json(*x),
        RawCell::Str(s) => JsonValue::Str(s.clone()),
        RawCell::DateTime(x) => {
            let time = excel_time_to_unix_time(*x);
            if is_iso8601 {
                JsonValue::Str(unix_to_iso(time))
            } else {
                JsonValue::Int(time)
            }
        },
        RawCell::Other => JsonValue::Null,
    }
}

/// A whole float cell whose integer fits in `i64` becomes exactly that
/// integer; any other finite float cell keeps its number bit for bit.
pub proof fn float_cells_keep_their_value(x: Double, is_iso8601: bool)
    ensures
        x.whole() && i64::MIN <= x.floor() <= i64::MAX ==> cell_json(
            RawCellView::Float(x),
            is_iso8601,
        ) == JsonView::Int(x.floor() as i64),
        x.finite() && !(x.whole() && i64::MIN <= x.floor() <= i64::MAX) ==> cell_json(
            RawCellView::Float(x),
            is_iso8601,
        ) == JsonView::Float(x.bits),
{
}

} // verus!
