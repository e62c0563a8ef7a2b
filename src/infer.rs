//! Type inference for the untyped text fields of a CSV table.
use crate::double::Double;
use crate::value::{JsonValue, JsonView};
use vstd::prelude::*;

verus! {


/// What `str::to_lowercase` makes of a text.
pub uninterp spec fn lower_of(s: Seq<char>) -> Seq<char>;

/// Relies on `str::to_lowercase`: the result depends on the characters alone.
#[verifier::external_body]
fn lowercase(s: &str) -> (r: String)
    ensures
        r@ == lower_of(s@),
{
    s.to_lowercase()
}

pub open spec fn is_digit(c: char) -> bool {
    '0' <= c <= '9'
}

/// The number that a non-empty run of decimal digits writes.
pub open spec fn digits_value(s: Seq<char>) -> int
    decreases s.len(),
{
    if s.len() == 0 {
        0
    } else {
        digits_value(s.drop_last()) * 10 + (s.last() as int - '0' as int)
    }
}

/// An optional `+` or `-` followed by one or more decimal digits whose value
/// lies in the range of `i64`, as the standard library reads an `i64`.
pub open spec fn decimal_i64(s: Seq<char>) -> Option<i64> {
    let negative = s.len() > 0 && s[0] == '-';
    let body = if s.len() > 0 && (s[0] == '-' || s[0] == '+') {
        s.skip(1)
    } else {
        s
    };
    let v = if negative {
        -digits_value(body)
    } else {
        digits_value(body)
    };
    if body.len() > 0 && (forall|i: int| 0 <= i < body.len() ==> is_digit(#[trigger] body[i]))
        && i64::MIN <= v <= i64::MAX {
        Some(v as i64)
    } else {
        None
    }
}

/// Relies on `<i64 as FromStr>::from_str`, documented to take an optional
/// sign followed by digits only, and to fail on anything else or on overflow.
#[verifier::external_body]
fn parse_i64(s: &str) -> (r: Option<i64>)
    ensures
        r == decimal_i64(s@),
{
    s.parse::<i64>().ok()
}

/// The number of `.` characters in a text.
pub open spec fn dot_count(s: Seq<char>) -> nat
    decreases s.len(),
{
    if s.len() == 0 {
        0
    } else {
        dot_count(s.drop_last()) + if s.last() == '.' {
            1nat
        } else {
            0nat
        }
    }
}

pub open spec fn min2(n: nat) -> nat {
    if n < 2 {
        n
    } else {
        2
    }
}

/// The number of dots in `s`, counted up to two.
fn dots_up_to_two(s: &str) -> (r: u8)
    ensures
        r as nat == min2(dot_count(s@)),
{
    let mut count: u8 = 0;
    for c in it: s.chars()
        invariant
            it.seq() == s@,
            count <= 2,
            count as nat == min2(dot_count(s@.take(it.index() as int))),
    {
        let ghost i = it.index() as int;
        assert(s@.take(i + 1).drop_last() =~= s@.take(i));
        assert(c == s@[i]);
        if c == '.' && count < 2 {
            count = count + 1;
        }
    }
    assert(s@.take(s@.len() as int) =~= s@);
    count
}

/// The JSON value inferred for a text field, given its lower-case form:
/// `true` or `false` in any case is a boolean; otherwise a text with no dot
/// is an integer where it reads as one, a text with one dot is a float
/// numeral, and anything else stays text.
pub open spec fn inferred(s: Seq<char>, lowered: Seq<char>) -> JsonView {
    if lowered == "true"@ {
        JsonView::Bool(true)
    } else if lowered == "false"@ {
        JsonView::Bool(false)
    } else if dot_count(s) == 0 {
        match decimal_i64(s) {
            Some(i) => JsonView::Int(i),
            None => JsonView::Str(s),
        }
    } else if dot_count(s) == 1 {
        JsonView::FloatText(s)
    } else {
        JsonView::Str(s)
    }
}

/// Infers the JSON value of `value`, whose lower-case form is `lowered`.
pub fn infer_with_lowercase(value: &str, lowered: &str) -> (r: JsonValue)
    ensures
        r@ == inferred(value@, lowered@),
{
    let low = lowered.to_owned();
    if low == String::from_str("true") {
        return JsonValue::Bool(true);
    }
    if low == String::from_str("false") {
        return JsonValue::Bool(false);
    }
    let dots = dots_up_to_two(value);
    if dots == 0 {
        match parse_i64(value) {
            Some(num) => JsonValue::Int(num),
            None => JsonValue::Str(value.to_owned()),
        }
    } else if dots == 1 {
        JsonValue::FloatText(value.to_owned())
    } else {
        JsonValue::Str(value.to_owned())
    }
}

/// Infers the JSON value of one CSV field.
pub fn transform_string(value: &str) -> (r: JsonValue)
    ensures
        r@ == inferred(value@, lower_of(value@)),
{
    let lowered = lowercase(value);
    infer_with_lowercase(value, lowered.as_str())
}

/// A float numeral as read to a binary64 number (`None` where it does not
/// read): the number where it is finite, else the numeral as text.
pub open spec fn resolved_float(text: Seq<char>, parsed: Option<Double>) -> JsonView {
    match parsed {
        Some(x) => if x.finite() {
            JsonView::Float(x.bits)
        } else {
            JsonView::Str(text)
        },
        None => JsonView::Str(text),
    }
}

/// Settles a float numeral once the host has read it as a binary64 number.
pub fn resolve_float_text(text: &str, parsed: Option<Double>) -> (r: JsonValue)
    ensures
        r@ == resolved_float(text@, parsed),
{
    match parsed {
        Some(x) => if x.is_finite() {
            JsonValue::Float(x)
        } else {
            JsonValue::Str(text.to_owned())
        },
        None => JsonValue::Str(text.to_owned()),
    }
}

} // verus!
