//! Row projection and the table drivers: a header row zipped with each data
//! row, rows fanned out in parallel and collected in their input order.
use crate::infer::{inferred, lower_of, transform_string};
use crate::record::{has_key, insert_entry, key_set, keys_unique, lemma_insert_entry, Entry, Record};
use crate::value::{cell_json, cell_to_json, JsonView, RawCell};
use rayon::iter::{IntoParallelIterator, ParallelIterator};
use vstd::prelude::*;

verus! {

pub open spec fn names(headers: Seq<String>) -> Seq<Seq<char>> {
    headers.map_values(|h: String| h@)
}

pub open spec fn cells_json(row: Seq<RawCell>, is_iso8601: bool) -> Seq<JsonView> {
    row.map_values(|c: RawCell| cell_json(c@, is_iso8601))
}

pub open spec fn fields_json(fields: Seq<Seq<char>>) -> Seq<JsonView> {
    fields.map_values(|f: Seq<char>| inferred(f, lower_of(f)))
}

/// The first `n` header/value pairs inserted in order.
pub open spec fn zip_prefix(headers: Seq<Seq<char>>, values: Seq<JsonView>, n: nat) -> Seq<Entry>
    decreases n,
{
    if n == 0 {
        Seq::empty()
    } else {
        insert_entry(
            zip_prefix(headers, values, (n - 1) as nat),
            headers[n - 1],
            values[n - 1],
        )
    }
}

pub open spec fn overlap(headers: Seq<Seq<char>>, values: Seq<JsonView>) -> nat {
    if headers.len() < values.len() {
        headers.len()
    } else {
        values.len()
    }
}

/// A row's record: headers and values paired by position up to the shorter
/// of the two, each pair inserted in order.
pub open spec fn zip_record(headers: Seq<Seq<char>>, values: Seq<JsonView>) -> Seq<Entry> {
    zip_prefix(headers, values, overlap(headers, values))
}

pub open spec fn record_views(rs: Seq<Record>) -> Seq<Seq<Entry>> {
    rs.map_values(|r: Record| r@)
}

/// The records of a sheet: none without a header; else one per row after
/// the first, in row order.
pub open spec fn sheet_json(
    headers: Option<Seq<Seq<char>>>,
    rows: Seq<Vec<RawCell>>,
    is_iso8601: bool,
) -> Seq<Seq<Entry>> {
    match headers {
        None => Seq::empty(),
        Some(h) => if rows.len() == 0 {
            Seq::empty()
        } else {
            rows.drop_first().map_values(|row: Vec<RawCell>| zip_record(h, cells_json(row@, is_iso8601)))
        },
    }
}

/// The records that parsed, in order.
pub open spec fn parsed_records(records: Seq<Option<Seq<Seq<char>>>>) -> Seq<Seq<Seq<char>>>
    decreases records.len(),
{
    if records.len() == 0 {
        Seq::empty()
    } else {
        let rest = parsed_records(records.drop_last());
        match records.last() {
            Some(r) => rest.push(r),
            None => rest,
        }
    }
}

/// The records of a CSV table: one per record that parsed, in order.
pub open spec fn csv_json(headers: Seq<Seq<char>>, records: Seq<Option<Seq<Seq<char>>>>) -> Seq<Seq<Entry>> {
    parsed_records(records).map_values(|f: Seq<Seq<char>>| zip_record(headers, fields_json(f)))
}

pub open spec fn field_lists(records: Seq<Option<Vec<String>>>) -> Seq<Option<Seq<Seq<char>>>> {
    records.map_values(
        |o: Option<Vec<String>>|
            match o {
                Some(v) => Some(names(v@)),
                None => None,
            },
    )
}

/// Relies on rayon: `into_par_iter().map(f).collect()` over a `Vec` calls `f`
/// on each item and collects the results in the items' order.
#[verifier::external_body]
fn par_map<T: Send, U: Send, F: Fn(T) -> U + Sync + Send>(items: Vec<T>, f: F) -> (r: Vec<U>)
    requires
        forall|i: int| 0 <= i < items.len() ==> f.requires((#[trigger] items[i],)),
    ensures
        r.len() == items.len(),
        forall|i: int| 0 <= i < items.len() ==> f.ensures((items[i],), #[trigger] r[i]),
{
    items.into_par_iter().map(f).collect()
}

/// Pairs the headers with a row's cells, coerced.
pub fn project_cells(headers: &Vec<String>, row: &Vec<RawCell>, is_iso8601: bool) -> (r: Record)
    ensures
        r.wf(),
        r@ == zip_record(names(headers@), cells_json(row@, is_iso8601)),
{
    let ghost hs = names(headers@);
    let ghost vs = cells_json(row@, is_iso8601);
    let n = if headers.len() < row.len() {
        headers.len()
    } else {
        row.len()
    };
    let mut rec = Record::new();
    let mut i: usize = 0;
    while i < n
        invariant
            i <= n,
            n == overlap(hs, vs),
            n <= headers.len(),
            n <= row.len(),
            hs == names(headers@),
            vs == cells_json(row@, is_iso8601),
            rec.wf(),
            rec@ == zip_prefix(hs, vs, i as nat),
        decreases n - i,
    {
        let v = cell_to_json(&row[i], is_iso8601);
        rec.insert(headers[i].clone(), v);
        i = i + 1;
    }
    rec
}

/// Pairs the headers with a CSV record's fields, inferred.
pub fn project_fields(headers: &Vec<String>, fields: &Vec<String>) -> (r: Record)
    ensures
        r.wf(),
        r@ == zip_record(names(headers@), fields_json(names(fields@))),
{
    let ghost hs = names(headers@);
    let ghost vs = fields_json(names(fields@));
    let n = if headers.len() < fields.len() {
        headers.len()
    } else {
        fields.len()
    };
    let mut rec = Record::new();
    let mut i: usize = 0;
    while i < n
        invariant
            i <= n,
            n == overlap(hs, vs),
            n <= headers.len(),
            n <= fields.len(),
            hs == names(headers@),
            vs == fields_json(names(fields@)),
            rec.wf(),
            rec@ == zip_prefix(hs, vs, i as nat),
        decreases n - i,
    {
        let v = transform_string(fields[i].as_str());
        rec.insert(headers[i].clone(), v);
        i = i + 1;
    }
    rec
}

/// The records of a sheet, given its header row (if it has one) and all its
/// rows, the header row first.
pub fn sheet_records(headers: Option<Vec<String>>, rows: Vec<Vec<RawCell>>, is_iso8601: bool) -> (r:
    Vec<Record>)
    ensures
        record_views(r@) == sheet_json(
            match headers {
                Some(h) => Some(names(h@)),
                None => None,
            },
            rows@,
            is_iso8601,
        ),
        forall|i: int| 0 <= i < r.len() ==> (#[trigger] r[i]).wf(),
        r.len() == match headers {
            Some(_) => if rows.len() == 0 {
                0
            } else {
                rows.len() - 1
            },
            None => 0,
        },
{
    let h = match headers {
        Some(h) => h,
        None => {
            let r: Vec<Record> = Vec::new();
            assert(record_views(r@) =~= Seq::empty());
            return r;
        },
    };
    if rows.len() == 0 {
        let r: Vec<Record> = Vec::new();
        assert(record_views(r@) =~= Seq::empty());
        return r;
    }
    let ghost all = rows@;
    let mut data = rows;
    data.remove(0);
    assert(data@ =~= all.drop_first());
    let ghost hs = names(h@);
    let project = |row: Vec<RawCell>| -> (rec: Record)
        ensures
            rec.wf(),
            rec@ == zip_record(names(h@), cells_json(row@, is_iso8601)),
        { project_cells(&h, &row, is_iso8601) };
    let ghost items = data@;
    let r = par_map(data, project);
    assert(record_views(r@) =~= items.map_values(
        |row: Vec<RawCell>| zip_record(hs, cells_json(row@, is_iso8601)),
    ));
    r
}

/// The parsed records of a CSV table, given its header and each record as
/// read (`None` where it did not parse).
pub fn csv_records(headers: Vec<String>, records: Vec<Option<Vec<String>>>) -> (r: Vec<Record>)
    ensures
        record_views(r@) == csv_json(names(headers@), field_lists(records@)),
        forall|i: int| 0 <= i < r.len() ==> (#[trigger] r[i]).wf(),
{
    let ghost recs = field_lists(records@);
    let mut good: Vec<Vec<String>> = Vec::new();
    let mut records = records;
    let ghost all = records@;
    let n = records.len();
    let mut i: usize = 0;
    while i < n
        invariant
            i <= n,
            n == all.len(),
            recs == field_lists(all),
            records@.len() == n,
            forall|j: int| i <= j < n ==> records@[j] == all[j],
            good@.map_values(|v: Vec<String>| names(v@)) == parsed_records(recs.take(i as int)),
        decreases n - i,
    {
        let mut taken: Option<Vec<String>> = None;
        records.set_and_swap(i, &mut taken);
        assert(recs.take(i + 1).drop_last() =~= recs.take(i as int));
        match taken {
            Some(fields) => {
                good.push(fields);
                assert(good@.map_values(|v: Vec<String>| names(v@)) =~= parsed_records(
                    recs.take(i as int),
                ).push(recs[i as int]->Some_0));
            },
            None => {},
        }
        i = i + 1;
    }
    assert(recs.take(n as int) =~= recs);
    let ghost hs = names(headers@);
    let project = |fields: Vec<String>| -> (rec: Record)
        ensures
            rec.wf(),
            rec@ == zip_record(names(headers@), fields_json(names(fields@))),
        { project_fields(&headers, &fields) };
    let ghost items = good@;
    let r = par_map(good, project);
    assert(record_views(r@) =~= csv_json(hs, recs));
    r
}

/// A row shorter than the header list gives a record whose keys are exactly
/// the headers of the positions it fills, with no key for the rest; with
/// distinct headers, one entry per field.
pub proof fn short_rows_keep_overlapping_keys(headers: Seq<Seq<char>>, values: Seq<JsonView>)
    requires
        values.len() <= headers.len(),
    ensures
        key_set(zip_record(headers, values)) == headers.take(values.len() as int).to_set(),
        keys_unique(zip_record(headers, values)),
        headers.no_duplicates() ==> zip_record(headers, values).len() == values.len(),
{
    lemma_zip_prefix(headers, values, values.len());
}

proof fn lemma_zip_prefix(headers: Seq<Seq<char>>, values: Seq<JsonView>, n: nat)
    requires
        n <= values.len(),
        n <= headers.len(),
    ensures
        key_set(zip_prefix(headers, values, n)) == headers.take(n as int).to_set(),
        keys_unique(zip_prefix(headers, values, n)),
        headers.no_duplicates() ==> zip_prefix(headers, values, n).len() == n,
    decreases n,
{
    if n == 0 {
        assert(key_set(Seq::<Entry>::empty()) =~= Set::empty());
        assert(headers.take(0).to_set() =~= Set::empty());
    } else {
        let m = (n - 1) as nat;
        lemma_zip_prefix(headers, values, m);
        let prev = zip_prefix(headers, values, m);
        lemma_insert_entry(prev, headers[m as int], values[m as int]);
        assert(headers.take(n as int) =~= headers.take(m as int).push(headers[m as int]));
        headers.take(m as int).lemma_push_to_set_commute(headers[m as int]);
        if headers.no_duplicates() {
            if has_key(prev, headers[m as int]) {
                assert(key_set(prev).contains(headers[m as int]));
                assert(headers.take(m as int).to_set().contains(headers[m as int]));
                let j = choose|j: int| 0 <= j < m && headers.take(m as int)[j] == headers[m as int];
                assert(headers[j] == headers[m as int]);
            }
        }
    }
}

/// With distinct headers, a row's record pairs each header of the overlap
/// with the value at the same position, in header order, and holds nothing else.
pub proof fn distinct_headers_pair_by_position(headers: Seq<Seq<char>>, values: Seq<JsonView>)
    requires
        headers.no_duplicates(),
    ensures
        zip_record(headers, values).len() == overlap(headers, values),
        forall|j: int|
            0 <= j < overlap(headers, values) ==> #[trigger] zip_record(headers, values)[j] == (
                headers[j],
                values[j],
            ),
{
    lemma_zip_prefix_positions(headers, values, overlap(headers, values));
}

proof fn lemma_zip_prefix_positions(headers: Seq<Seq<char>>, values: Seq<JsonView>, n: nat)
    requires
        headers.no_duplicates(),
        n <= headers.len(),
        n <= values.len(),
    ensures
        zip_prefix(headers, values, n).len() == n,
        forall|j: int| 0 <= j < n ==> #[trigger] zip_prefix(headers, values, n)[j] == (headers[j], values[j]),
    decreases n,
{
    if n > 0 {
        let m = (n - 1) as nat;
        lemma_zip_prefix_positions(headers, values, m);
        lemma_zip_prefix(headers, values, m);
        let prev = zip_prefix(headers, values, m);
        if has_key(prev, headers[m as int]) {
            assert(key_set(prev).contains(headers[m as int]));
            assert(headers.take(m as int).to_set().contains(headers[m as int]));
            let j = choose|j: int| 0 <= j < m && headers.take(m as int)[j] == headers[m as int];
            assert(headers[j] == headers[m as int]);
        }
        assert(zip_prefix(headers, values, n) == prev.push((headers[m as int], values[m as int])));
    }
}

/// A CSV table in which no record parsed has no records.
pub proof fn no_parsed_record_no_rows(headers: Seq<Seq<char>>, records: Seq<Option<Seq<Seq<char>>>>)
    requires
        forall|i: int| 0 <= i < records.len() ==> (#[trigger] records[i]) is None,
    ensures
        csv_json(headers, records).len() == 0,
    decreases records.len(),
{
    if records.len() > 0 {
        no_parsed_record_no_rows(headers, records.drop_last());
        assert(records.last() is None);
    }
}

} // verus!
