//! CSV tables, and the differences between two of them by the values of key columns.
use vstd::prelude::*;

use crate::csv_archive::{read_csv_bytes, Wrapping};
use crate::csv_text::{read_headers, read_records};
use crate::text::{copy_texts, holds_text, join, last_position_of, quote, same_text, to_decimal};

verus! {

use crate::csv_archive::{unwrapped, wrapping_of, zstd_decoded};
use crate::csv_text::{csv_headers, csv_records, record_result, record_results};
use crate::csv_key_diff_extract::{names_of, selection_of, SelectionModel};
use crate::diff_laws::{
    change_is_readable, change_is_shown, is_readable, last_line_shows, report_is_read_back,
    selection_in, values_are_literals, values_on_one_line,
};
use crate::text::{
    decimal, joined, last_place, lines, quoted, text_rows, text_rows_push, texts, texts_push,
};
use crate::literals::{is_literal_of, literal_goes_on};
use crate::text_laws::{both_on_one_line, decimal_digits, each_on_one_line, joined_on_one_line};

/// A CSV table: where it comes from, the names of its columns, and its rows.
#[derive(Debug, Clone, PartialEq, Eq)]
pub struct CsvData {
    pub path: String,
    pub headers: Vec<String>,
    pub rows: Vec<Vec<String>>,
}

/// What a [`CsvData`] says.
#[verifier::ext_equal]
pub struct CsvModel {
    pub path: Seq<char>,
    pub headers: Seq<Seq<char>>,
    pub rows: Seq<Seq<Seq<char>>>,
}

impl View for CsvData {
    type V = CsvModel;

    open spec fn view(&self) -> CsvModel {
        CsvModel {
            path: self.path@,
            headers: texts(self.headers@),
            rows: text_rows(self.rows@),
        }
    }
}

/// The columns that only one of two tables has.
#[derive(Debug, Clone, PartialEq, Eq)]
pub struct HeaderDiff {
    pub only_left: Vec<String>,
    pub only_right: Vec<String>,
}

/// The names of the key columns with their values.
#[derive(Debug, Clone, PartialEq, Eq, PartialOrd, Ord, Hash)]
pub struct KeyValue(pub Vec<(String, String)>);

impl View for KeyValue {
    type V = Seq<(Seq<char>, Seq<char>)>;

    open spec fn view(&self) -> Seq<(Seq<char>, Seq<char>)> {
        Seq::new(self.0@.len(), |i: int| (self.0@[i].0@, self.0@[i].1@))
    }
}

/// A column in which two rows differ; `None` where a row has no value.
#[derive(Debug, Clone, PartialEq, Eq)]
pub struct ColumnChange {
    pub column: String,
    pub left: Option<String>,
    pub right: Option<String>,
}

/// What a [`ColumnChange`] says.
#[verifier::ext_equal]
pub struct ColumnModel {
    pub column: Seq<char>,
    pub left: Option<Seq<char>>,
    pub right: Option<Seq<char>>,
}

/// What a text that may be missing says.
pub open spec fn option_text(text: Option<String>) -> Option<Seq<char>> {
    match text {
        Some(text) => Some(text@),
        None => None,
    }
}

impl View for ColumnChange {
    type V = ColumnModel;

    open spec fn view(&self) -> ColumnModel {
        ColumnModel {
            column: self.column@,
            left: option_text(self.left),
            right: option_text(self.right),
        }
    }
}

/// What a list of column changes says.
pub open spec fn column_models(columns: Seq<ColumnChange>) -> Seq<ColumnModel> {
    Seq::new(columns.len(), |i: int| columns[i]@)
}

/// How a row differs.
#[derive(Debug, Clone, Copy, PartialEq, Eq, Structural)]
pub enum RowChangeKind {
    OnlyLeft,
    OnlyRight,
    Modified,
}

/// A row that differs: its key, which of the rows with that key it is, and how it differs.
#[derive(Debug, Clone, PartialEq, Eq)]
pub struct RowChange {
    pub key: KeyValue,
    pub occurrence: usize,
    pub kind: RowChangeKind,
    pub columns: Vec<ColumnChange>,
}

/// What a [`RowChange`] says.
#[verifier::ext_equal]
pub struct RowModel {
    pub key: Seq<(Seq<char>, Seq<char>)>,
    pub occurrence: nat,
    pub kind: RowChangeKind,
    pub columns: Seq<ColumnModel>,
}

impl View for RowChange {
    type V = RowModel;

    open spec fn view(&self) -> RowModel {
        RowModel {
            key: self.key@,
            occurrence: self.occurrence as nat,
            kind: self.kind,
            columns: column_models(self.columns@),
        }
    }
}

/// What a list of row changes says.
pub open spec fn row_models(changes: Seq<RowChange>) -> Seq<RowModel> {
    Seq::new(changes.len(), |i: int| changes[i]@)
}

/// The differences between two tables.
#[derive(Debug, Clone, PartialEq, Eq)]
pub struct DiffReport {
    pub left_path: String,
    pub right_path: String,
    pub key_columns: Vec<String>,
    pub missing_key_columns_left: Vec<String>,
    pub missing_key_columns_right: Vec<String>,
    pub header_diff: HeaderDiff,
    pub row_changes: Vec<RowChange>,
}

/// What a [`DiffReport`] says.
#[verifier::ext_equal]
pub struct ReportModel {
    pub left_path: Seq<char>,
    pub right_path: Seq<char>,
    pub key_columns: Seq<Seq<char>>,
    pub missing_left: Seq<Seq<char>>,
    pub missing_right: Seq<Seq<char>>,
    pub only_left: Seq<Seq<char>>,
    pub only_right: Seq<Seq<char>>,
    pub changes: Seq<RowModel>,
}

impl View for DiffReport {
    type V = ReportModel;

    open spec fn view(&self) -> ReportModel {
        ReportModel {
            left_path: self.left_path@,
            right_path: self.right_path@,
            key_columns: texts(self.key_columns@),
            missing_left: texts(self.missing_key_columns_left@),
            missing_right: texts(self.missing_key_columns_right@),
            only_left: texts(self.header_diff.only_left@),
            only_right: texts(self.header_diff.only_right@),
            changes: row_models(self.row_changes@),
        }
    }
}

/// Whether the report tells of a difference.
pub open spec fn differs(report: ReportModel) -> bool {
    ||| report.missing_left.len() > 0
    ||| report.missing_right.len() > 0
    ||| report.only_left.len() > 0
    ||| report.only_right.len() > 0
    ||| report.changes.len() > 0
}

impl DiffReport {
    pub fn has_differences(&self) -> (has: bool)
        ensures
            has == differs(self@),
    {
        self.missing_key_columns_left.len() > 0 || self.missing_key_columns_right.len() > 0
            || self.header_diff.only_left.len() > 0 || self.header_diff.only_right.len() > 0
            || self.row_changes.len() > 0
    }
}

/// The rows among the records up to the first that cannot be read, which gives its message.
pub open spec fn rows_of(records: Seq<Result<Seq<Seq<char>>, Seq<char>>>) -> Result<
    Seq<Seq<Seq<char>>>,
    Seq<char>,
>
    decreases records.len(),
{
    if records.len() == 0 {
        Ok(Seq::empty())
    } else {
        match rows_of(records.drop_last()) {
            Err(message) => Err(message),
            Ok(rows) => match records.last() {
                Err(message) => Err(message),
                Ok(row) => Ok(rows.push(row)),
            },
        }
    }
}

proof fn rows_of_stops(records: Seq<Result<Seq<Seq<char>>, Seq<char>>>, count: int)
    requires
        0 <= count <= records.len(),
        rows_of(records.take(count)) is Err,
    ensures
        rows_of(records) == rows_of(records.take(count)),
    decreases records.len() - count,
{
    if count < records.len() {
        assert(records.take(count + 1).drop_last() == records.take(count));
        rows_of_stops(records, count + 1);
    } else {
        assert(records.take(count) == records);
    }
}

/// The table in CSV text, or why it cannot be read.
pub open spec fn table_in(path: Seq<char>, bytes: Seq<u8>) -> Result<CsvModel, Seq<char>> {
    table_from(path, csv_headers(bytes), csv_records(bytes))
}

/// The table with the header record and the records, or why one cannot be read.
pub open spec fn table_from(
    path: Seq<char>,
    headers: Result<Seq<Seq<char>>, Seq<char>>,
    records: Seq<Result<Seq<Seq<char>>, Seq<char>>>,
) -> Result<CsvModel, Seq<char>> {
    match headers {
        Err(message) => Err(message),
        Ok(headers) => match rows_of(records) {
            Err(message) => Err(message),
            Ok(rows) => Ok(CsvModel { path, headers, rows }),
        },
    }
}

/// The table of the file with the path, name and bytes, or why it cannot be read.
pub open spec fn csv_of(path: Seq<char>, file_name: Seq<char>, bytes: Seq<u8>) -> Result<
    CsvModel,
    Seq<char>,
> {
    csv_in(path, wrapping_of(file_name), bytes)
}

/// The table that is wrapped in the bytes, or why it cannot be read.
pub open spec fn csv_in(path: Seq<char>, wrapping: Wrapping, bytes: Seq<u8>) -> Result<
    CsvModel,
    Seq<char>,
> {
    match unwrapped(path, wrapping, bytes) {
        Err(message) => Err(message),
        Ok(csv) => table_in(path, csv),
    }
}

/// What a table that may not be readable says.
pub open spec fn csv_result(result: Result<CsvData, String>) -> Result<CsvModel, Seq<char>> {
    match result {
        Ok(csv) => Ok(csv@),
        Err(message) => Err(message@),
    }
}

/// Every row has a value for every column.
pub open spec fn is_rectangular(csv: CsvModel) -> bool {
    forall|i: int| 0 <= i < csv.rows.len() ==> (#[trigger] csv.rows[i]).len() == csv.headers.len()
}

/// Makes a table of a header record and records.
pub fn make_table(
    path: &str,
    headers: Result<Vec<String>, String>,
    records: Vec<Result<Vec<String>, String>>,
) -> (result: Result<CsvData, String>)
    ensures
        csv_result(result) == table_from(
            path@,
            record_result(headers),
            record_results(records@),
        ),
{
    let names = match headers {
        Ok(names) => names,
        Err(message) => {
            return Err(message);
        },
    };
    let ghost all = record_results(records@);
    let mut rows: Vec<Vec<String>> = Vec::new();
    assert(text_rows(rows@) == Seq::<Seq<Seq<char>>>::empty());
    for i in 0..records.len()
        invariant
            record_result(headers) is Ok,
            all == record_results(records@),
            rows_of(all.take(i as int)) == Ok::<Seq<Seq<Seq<char>>>, Seq<char>>(text_rows(rows@)),
    {
        let ghost upto = all.take(i + 1);
        assert(upto.drop_last() == all.take(i as int));
        assert(upto.last() == record_result(records@[i as int]));
        match &records[i] {
            Ok(row) => {
                let copy = copy_texts(row);
                proof {
                    text_rows_push(rows@, copy);
                }
                rows.push(copy);
            },
            Err(message) => {
                proof {
                    rows_of_stops(all, i + 1);
                }
                return Err(message.clone());
            },
        }
    }
    assert(all.take(all.len() as int) == all);
    Ok(CsvData { path: path.to_owned(), headers: names, rows })
}

/// Reads the table of a file: `path` is shown in messages, `file_name` tells how the bytes are
/// wrapped. A compressed archive holds the table that the archive in it holds.
pub fn read_csv(path: &str, file_name: &str, bytes: Vec<u8>) -> (result: Result<CsvData, String>)
    ensures
        csv_result(result) == csv_of(path@, file_name@, bytes@),
        wrapping_of(file_name@) == Wrapping::TarZst ==> (zstd_decoded(bytes@) matches Ok(data)
            ==> csv_result(result) == csv_in(path@, Wrapping::Tar, data)),
        result matches Ok(csv) ==> is_rectangular(csv@),
{
    let csv_bytes = match read_csv_bytes(path, file_name, bytes) {
        Ok(csv_bytes) => csv_bytes,
        Err(message) => {
            return Err(message);
        },
    };
    let headers = read_headers(&csv_bytes);
    let records = read_records(&csv_bytes);
    proof {
        if csv_headers(csv_bytes@) is Ok {
            let width = csv_headers(csv_bytes@)->Ok_0.len();
            let all = record_results(records@);
            assert forall|i: int| 0 <= i < all.len() && #[trigger] all[i] is Ok implies all[i]->Ok_0.len()
                == width by {
                assert(records@[i] is Ok);
            }
            rows_keep_width(all, width);
        }
    }
    make_table(path, headers, records)
}

proof fn rows_keep_width(records: Seq<Result<Seq<Seq<char>>, Seq<char>>>, width: nat)
    requires
        forall|i: int|
            0 <= i < records.len() && #[trigger] records[i] is Ok ==> records[i]->Ok_0.len()
                == width,
    ensures
        rows_of(records) matches Ok(rows) ==> forall|i: int|
            0 <= i < rows.len() ==> (#[trigger] rows[i]).len() == width,
    decreases records.len(),
{
    if records.len() > 0 {
        let rest = records.drop_last();
        assert forall|i: int| 0 <= i < rest.len() && #[trigger] rest[i] is Ok implies rest[i]->Ok_0.len()
            == width by {
            assert(records[i] is Ok);
        }
        rows_keep_width(rest, width);
        assert(records[records.len() - 1] is Ok ==> records.last()->Ok_0.len() == width);
    }
}

/// The value of the row in the column; where columns share a name, in the last of them.
pub open spec fn value_in(
    headers: Seq<Seq<char>>,
    row: Seq<Seq<char>>,
    name: Seq<char>,
) -> Option<Seq<char>> {
    match last_place(headers, name) {
        Some(place) => if place < row.len() {
            Some(row[place])
        } else {
            None
        },
        None => None,
    }
}

fn find_value(headers: &Vec<String>, row: &Vec<String>, name: &str) -> (value: Option<String>)
    ensures
        option_text(value) == value_in(texts(headers@), texts(row@), name@),
{
    match last_position_of(headers, name) {
        Some(place) => {
            if place < row.len() {
                Some(row[place].clone())
            } else {
                None
            }
        },
        None => None,
    }
}

/// The key of the row: the names of the key columns with the row's values, empty where it has
/// none.
pub open spec fn key_of(
    headers: Seq<Seq<char>>,
    row: Seq<Seq<char>>,
    key_columns: Seq<Seq<char>>,
) -> Seq<(Seq<char>, Seq<char>)> {
    Seq::new(
        key_columns.len(),
        |i: int|
            (
                key_columns[i],
                match value_in(headers, row, key_columns[i]) {
                    Some(value) => value,
                    None => Seq::empty(),
                },
            ),
    )
}

/// The key of the row.
pub fn extract_key(headers: &Vec<String>, row: &Vec<String>, key_columns: &Vec<String>) -> (key: KeyValue)
    ensures
        key@ == key_of(texts(headers@), texts(row@), texts(key_columns@)),
{
    let mut entries: Vec<(String, String)> = Vec::new();
    let ghost names = texts(key_columns@);
    for i in 0..key_columns.len()
        invariant
            names == texts(key_columns@),
            entries@.len() == i,
            forall|k: int|
                0 <= k < i ==> ((#[trigger] entries@[k]).0@, entries@[k].1@) == key_of(
                    texts(headers@),
                    texts(row@),
                    names,
                )[k],
    {
        let value = match find_value(headers, row, key_columns[i].as_str()) {
            Some(value) => value,
            None => String::new(),
        };
        assert(names[i as int] == key_columns@[i as int]@);
        entries.push((key_columns[i].clone(), value));
    }
    let key = KeyValue(entries);
    assert(key@ == key_of(texts(headers@), texts(row@), names));
    key
}

/// A copy of the key.
pub fn copy_key(key: &KeyValue) -> (copy: KeyValue)
    ensures
        copy@ == key@,
{
    let mut entries: Vec<(String, String)> = Vec::new();
    for i in 0..key.0.len()
        invariant
            entries@.len() == i,
            forall|k: int|
                0 <= k < i ==> ((#[trigger] entries@[k]).0@, entries@[k].1@) == key@[k],
    {
        let entry = &key.0[i];
        entries.push((entry.0.clone(), entry.1.clone()));
    }
    let copy = KeyValue(entries);
    assert(copy@ == key@);
    copy
}

/// Whether two keys are the same.
pub fn same_key(left: &KeyValue, right: &KeyValue) -> (same: bool)
    ensures
        same == (left@ == right@),
{
    if left.0.len() != right.0.len() {
        assert(left@.len() != right@.len());
        return false;
    }
    for i in 0..left.0.len()
        invariant
            left.0@.len() == right.0@.len(),
            forall|k: int| 0 <= k < i ==> left@[k] == right@[k],
    {
        let a = &left.0[i];
        let b = &right.0[i];
        if a.0 != b.0 || a.1 != b.1 {
            assert(left@[i as int] != right@[i as int]);
            return false;
        }
    }
    assert(left@ == right@);
    true
}

/// The items of the list, each only where it first occurs.
pub open spec fn distinct<T>(list: Seq<T>) -> Seq<T>
    decreases list.len(),
{
    if list.len() == 0 {
        list
    } else {
        let before = distinct(list.drop_last());
        if before.contains(list.last()) {
            before
        } else {
            before.push(list.last())
        }
    }
}

/// The names of the columns of both tables, each once.
pub fn merged_columns(left: &Vec<String>, right: &Vec<String>) -> (columns: Vec<String>)
    ensures
        texts(columns@) == distinct(texts(left@) + texts(right@)),
{
    let ghost all = texts(left@) + texts(right@);
    let mut columns: Vec<String> = Vec::new();
    for i in 0..left.len()
        invariant
            all == texts(left@) + texts(right@),
            texts(columns@) == distinct(all.take(i as int)),
    {
        assert(all.take(i + 1).drop_last() == all.take(i as int));
        if !holds_text(&columns, left[i].as_str()) {
            let name = left[i].clone();
            proof {
                texts_push(columns@, name);
            }
            columns.push(name);
        }
    }
    for i in 0..right.len()
        invariant
            all == texts(left@) + texts(right@),
            texts(columns@) == distinct(all.take(left@.len() + i)),
    {
        assert(all.take(left@.len() + i + 1).drop_last() == all.take(left@.len() + i));
        if !holds_text(&columns, right[i].as_str()) {
            let name = right[i].clone();
            proof {
                texts_push(columns@, name);
            }
            columns.push(name);
        }
    }
    assert(all.take(all.len() as int) == all);
    columns
}

/// What a list of keys says.
pub open spec fn key_models(keys: Seq<KeyValue>) -> Seq<Seq<(Seq<char>, Seq<char>)>> {
    Seq::new(keys.len(), |i: int| keys[i]@)
}

/// The keys of the rows.
pub open spec fn keys_of(csv: CsvModel, key_columns: Seq<Seq<char>>) -> Seq<
    Seq<(Seq<char>, Seq<char>)>,
> {
    Seq::new(csv.rows.len(), |i: int| key_of(csv.headers, csv.rows[i], key_columns))
}

/// The keys of the rows.
pub fn row_keys(csv: &CsvData, key_columns: &Vec<String>) -> (keys: Vec<KeyValue>)
    ensures
        key_models(keys@) == keys_of(csv@, texts(key_columns@)),
{
    let mut keys: Vec<KeyValue> = Vec::new();
    for i in 0..csv.rows.len()
        invariant
            keys@.len() == i,
            forall|k: int|
                0 <= k < i ==> (#[trigger] keys@[k])@ == keys_of(csv@, texts(key_columns@))[k],
    {
        let key = extract_key(&csv.headers, &csv.rows[i], key_columns);
        assert(csv@.rows[i as int] == texts(csv.rows@[i as int]@));
        keys.push(key);
    }
    assert(key_models(keys@) == keys_of(csv@, texts(key_columns@)));
    keys
}

fn holds_key(keys: &Vec<KeyValue>, wanted: &KeyValue) -> (holds: bool)
    ensures
        holds == key_models(keys@).contains(wanted@),
{
    for i in 0..keys.len()
        invariant
            forall|k: int| 0 <= k < i ==> (#[trigger] key_models(keys@)[k]) != wanted@,
    {
        assert(key_models(keys@)[i as int] == keys@[i as int]@);
        if same_key(&keys[i], wanted) {
            return true;
        }
    }
    false
}

/// The keys of the rows of both tables, each once.
pub fn merged_key_order(left_keys: &Vec<KeyValue>, right_keys: &Vec<KeyValue>) -> (ordered: Vec<
    KeyValue,
>)
    ensures
        key_models(ordered@) == distinct(key_models(left_keys@) + key_models(right_keys@)),
{
    let ghost all = key_models(left_keys@) + key_models(right_keys@);
    let mut ordered: Vec<KeyValue> = Vec::new();
    assert(key_models(ordered@) == distinct(all.take(0)));
    for i in 0..left_keys.len()
        invariant
            all == key_models(left_keys@) + key_models(right_keys@),
            key_models(ordered@) == distinct(all.take(i as int)),
    {
        assert(all.take(i + 1).drop_last() == all.take(i as int));
        if !holds_key(&ordered, &left_keys[i]) {
            let key = copy_key(&left_keys[i]);
            let ghost before = ordered@;
            ordered.push(key);
            assert(key_models(ordered@) == key_models(before).push(key@));
        }
    }
    for i in 0..right_keys.len()
        invariant
            all == key_models(left_keys@) + key_models(right_keys@),
            key_models(ordered@) == distinct(all.take(left_keys@.len() + i)),
    {
        assert(all.take(left_keys@.len() + i + 1).drop_last() == all.take(left_keys@.len() + i));
        if !holds_key(&ordered, &right_keys[i]) {
            let key = copy_key(&right_keys[i]);
            let ghost before = ordered@;
            ordered.push(key);
            assert(key_models(ordered@) == key_models(before).push(key@));
        }
    }
    assert(all.take(all.len() as int) == all);
    ordered
}

/// The places at which the key stands.
pub open spec fn places_of_key<K>(keys: Seq<K>, key: K) -> Seq<int>
    decreases keys.len(),
{
    if keys.len() == 0 {
        Seq::empty()
    } else {
        let before = places_of_key(keys.drop_last(), key);
        if keys.last() == key {
            before.push(keys.len() - 1)
        } else {
            before
        }
    }
}

/// Every place is one of the list.
pub proof fn places_of_key_in_range<K>(keys: Seq<K>, key: K)
    ensures
        forall|i: int|
            0 <= i < places_of_key(keys, key).len() ==> 0 <= #[trigger] places_of_key(keys, key)[i]
                < keys.len() && keys[places_of_key(keys, key)[i]] == key,
        places_of_key(keys, key).len() <= keys.len(),
    decreases keys.len(),
{
    if keys.len() > 0 {
        places_of_key_in_range(keys.drop_last(), key);
        let rest = keys.drop_last();
        let places = places_of_key(keys, key);
        assert forall|i: int| 0 <= i < places.len() implies 0 <= #[trigger] places[i] < keys.len()
            && keys[places[i]] == key by {
            if i < places_of_key(rest, key).len() {
                assert(places[i] == places_of_key(rest, key)[i]);
                assert(rest[places[i]] == keys[places[i]]);
            }
        }
    }
}

/// The rows of the table with the key, in order.
pub open spec fn group_of(
    csv: CsvModel,
    key_columns: Seq<Seq<char>>,
    key: Seq<(Seq<char>, Seq<char>)>,
) -> Seq<Seq<Seq<char>>> {
    let places = places_of_key(keys_of(csv, key_columns), key);
    Seq::new(places.len(), |i: int| csv.rows[places[i]])
}

/// The places of the rows with the key.
fn group_rows(keys: &Vec<KeyValue>, key: &KeyValue) -> (places: Vec<usize>)
    ensures
        places@.len() == places_of_key(key_models(keys@), key@).len(),
        forall|i: int|
            0 <= i < places@.len() ==> #[trigger] places@[i] == places_of_key(
                key_models(keys@),
                key@,
            )[i],
        forall|i: int| 0 <= i < places@.len() ==> #[trigger] places@[i] < keys@.len(),
{
    let ghost all = key_models(keys@);
    let mut places: Vec<usize> = Vec::new();
    for i in 0..keys.len()
        invariant
            all == key_models(keys@),
            places@.len() == places_of_key(all.take(i as int), key@).len(),
            forall|k: int|
                0 <= k < places@.len() ==> #[trigger] places@[k] == places_of_key(
                    all.take(i as int),
                    key@,
                )[k],
            forall|k: int| 0 <= k < places@.len() ==> #[trigger] places@[k] < keys@.len(),
    {
        assert(all.take(i + 1).drop_last() == all.take(i as int));
        assert(all.take(i + 1).last() == keys@[i as int]@);
        if same_key(&keys[i], key) {
            places.push(i);
        }
    }
    assert(all.take(all.len() as int) == all);
    places
}

/// The columns in which the rows differ, in the order of `columns`.
pub open spec fn changes_in(
    left: CsvModel,
    right: CsvModel,
    left_row: Seq<Seq<char>>,
    right_row: Seq<Seq<char>>,
    columns: Seq<Seq<char>>,
) -> Seq<ColumnModel>
    decreases columns.len(),
{
    if columns.len() == 0 {
        Seq::empty()
    } else {
        let before = changes_in(left, right, left_row, right_row, columns.drop_last());
        let column = columns.last();
        let left_value = value_in(left.headers, left_row, column);
        let right_value = value_in(right.headers, right_row, column);
        if left_value != right_value {
            before.push(ColumnModel { column, left: left_value, right: right_value })
        } else {
            before
        }
    }
}

fn same_option(left: &Option<String>, right: &Option<String>) -> (same: bool)
    ensures
        same == (option_text(*left) == option_text(*right)),
{
    match (left, right) {
        (Some(left), Some(right)) => same_text(left.as_str(), right.as_str()),
        (None, None) => true,
        _ => false,
    }
}

/// The columns in which the rows differ.
pub fn compare_columns(
    left: &CsvData,
    right: &CsvData,
    left_row: &Vec<String>,
    right_row: &Vec<String>,
    all_columns: &Vec<String>,
) -> (changes: Vec<ColumnChange>)
    ensures
        column_models(changes@) == changes_in(
            left@,
            right@,
            texts(left_row@),
            texts(right_row@),
            texts(all_columns@),
        ),
{
    let ghost names = texts(all_columns@);
    let mut changes: Vec<ColumnChange> = Vec::new();
    assert(column_models(changes@) == Seq::<ColumnModel>::empty());
    for i in 0..all_columns.len()
        invariant
            names == texts(all_columns@),
            column_models(changes@) == changes_in(
                left@,
                right@,
                texts(left_row@),
                texts(right_row@),
                names.take(i as int),
            ),
    {
        assert(names.take(i + 1).drop_last() == names.take(i as int));
        let name = all_columns[i].as_str();
        let left_value = find_value(&left.headers, left_row, name);
        let right_value = find_value(&right.headers, right_row, name);
        if !same_option(&left_value, &right_value) {
            let change = ColumnChange {
                column: all_columns[i].clone(),
                left: left_value,
                right: right_value,
            };
            let ghost before = changes@;
            changes.push(change);
            assert(column_models(changes@) == column_models(before).push(change@));
        }
    }
    assert(names.take(names.len() as int) == names);
    changes
}

/// The values of a row that only one table has, in the order of `columns`.
pub open spec fn snapshot_of(
    csv: CsvModel,
    row: Seq<Seq<char>>,
    columns: Seq<Seq<char>>,
    is_left: bool,
) -> Seq<ColumnModel>
    decreases columns.len(),
{
    if columns.len() == 0 {
        Seq::empty()
    } else {
        let before = snapshot_of(csv, row, columns.drop_last(), is_left);
        match value_in(csv.headers, row, columns.last()) {
            None => before,
            Some(value) => before.push(
                ColumnModel {
                    column: columns.last(),
                    left: if is_left {
                        Some(value)
                    } else {
                        None
                    },
                    right: if is_left {
                        None
                    } else {
                        Some(value)
                    },
                },
            ),
        }
    }
}

/// The values of a row that only one table has.
pub fn row_snapshot(csv: &CsvData, row: &Vec<String>, all_columns: &Vec<String>, is_left: bool) -> (snapshot: Vec<
    ColumnChange,
>)
    ensures
        column_models(snapshot@) == snapshot_of(
            csv@,
            texts(row@),
            texts(all_columns@),
            is_left,
        ),
{
    let ghost names = texts(all_columns@);
    let mut snapshot: Vec<ColumnChange> = Vec::new();
    assert(column_models(snapshot@) == Seq::<ColumnModel>::empty());
    for i in 0..all_columns.len()
        invariant
            names == texts(all_columns@),
            column_models(snapshot@) == snapshot_of(
                csv@,
                texts(row@),
                names.take(i as int),
                is_left,
            ),
    {
        assert(names.take(i + 1).drop_last() == names.take(i as int));
        if let Some(value) = find_value(&csv.headers, row, all_columns[i].as_str()) {
            let change = if is_left {
                ColumnChange { column: all_columns[i].clone(), left: Some(value), right: None }
            } else {
                ColumnChange { column: all_columns[i].clone(), left: None, right: Some(value) }
            };
            let ghost before = snapshot@;
            snapshot.push(change);
            assert(column_models(snapshot@) == column_models(before).push(change@));
        }
    }
    assert(names.take(names.len() as int) == names);
    snapshot
}

/// How the rows at one place of two groups differ, if they do.
pub open spec fn change_at(
    left: CsvModel,
    right: CsvModel,
    key_columns: Seq<Seq<char>>,
    key: Seq<(Seq<char>, Seq<char>)>,
    occurrence: int,
) -> Option<RowModel> {
    let left_rows = group_of(left, key_columns, key);
    let right_rows = group_of(right, key_columns, key);
    let columns = distinct(left.headers + right.headers);
    if occurrence < left_rows.len() && occurrence < right_rows.len() {
        let changes = changes_in(
            left,
            right,
            left_rows[occurrence],
            right_rows[occurrence],
            columns,
        );
        if changes.len() > 0 {
            Some(
                RowModel {
                    key,
                    occurrence: occurrence as nat,
                    kind: RowChangeKind::Modified,
                    columns: changes,
                },
            )
        } else {
            None
        }
    } else if occurrence < left_rows.len() {
        Some(
            RowModel {
                key,
                occurrence: occurrence as nat,
                kind: RowChangeKind::OnlyLeft,
                columns: snapshot_of(left, left_rows[occurrence], columns, true),
            },
        )
    } else if occurrence < right_rows.len() {
        Some(
            RowModel {
                key,
                occurrence: occurrence as nat,
                kind: RowChangeKind::OnlyRight,
                columns: snapshot_of(right, right_rows[occurrence], columns, false),
            },
        )
    } else {
        None
    }
}

/// The list with one item more, if there is one.
pub open spec fn with_option<T>(list: Seq<T>, item: Option<T>) -> Seq<T> {
    match item {
        Some(item) => list.push(item),
        None => list,
    }
}

/// How the first `count` rows with the key differ.
pub open spec fn changes_of_key(
    left: CsvModel,
    right: CsvModel,
    key_columns: Seq<Seq<char>>,
    key: Seq<(Seq<char>, Seq<char>)>,
    count: int,
) -> Seq<RowModel>
    decreases count,
{
    if count <= 0 {
        Seq::empty()
    } else {
        with_option(
            changes_of_key(left, right, key_columns, key, count - 1),
            change_at(left, right, key_columns, key, count - 1),
        )
    }
}

/// How many rows with the key the table that has more of them has.
pub open spec fn occurrences(
    left: CsvModel,
    right: CsvModel,
    key_columns: Seq<Seq<char>>,
    key: Seq<(Seq<char>, Seq<char>)>,
) -> int {
    let in_left = group_of(left, key_columns, key).len();
    let in_right = group_of(right, key_columns, key).len();
    if in_left > in_right {
        in_left as int
    } else {
        in_right as int
    }
}

/// How the rows with the keys differ, key by key.
pub open spec fn changes_of_keys(
    left: CsvModel,
    right: CsvModel,
    key_columns: Seq<Seq<char>>,
    keys: Seq<Seq<(Seq<char>, Seq<char>)>>,
) -> Seq<RowModel>
    decreases keys.len(),
{
    if keys.len() == 0 {
        Seq::empty()
    } else {
        changes_of_keys(left, right, key_columns, keys.drop_last()) + changes_of_key(
            left,
            right,
            key_columns,
            keys.last(),
            occurrences(left, right, key_columns, keys.last()),
        )
    }
}

/// The keys of both tables, each once, in the order in which they first occur.
pub open spec fn key_order(
    left: CsvModel,
    right: CsvModel,
    key_columns: Seq<Seq<char>>,
) -> Seq<Seq<(Seq<char>, Seq<char>)>> {
    distinct(keys_of(left, key_columns) + keys_of(right, key_columns))
}

/// How the rows of the tables differ.
pub open spec fn row_changes_of(
    left: CsvModel,
    right: CsvModel,
    key_columns: Seq<Seq<char>>,
) -> Seq<RowModel> {
    changes_of_keys(left, right, key_columns, key_order(left, right, key_columns))
}

/// How the rows of the tables differ.
pub fn diff_rows(left: &CsvData, right: &CsvData, key_columns: &Vec<String>) -> (changes: Vec<
    RowChange,
>)
    ensures
        row_models(changes@) == row_changes_of(left@, right@, texts(key_columns@)),
        forall|i: int| 0 <= i < changes@.len() ==> (#[trigger] changes@[i]).occurrence < usize::MAX,
{
    let all_columns = merged_columns(&left.headers, &right.headers);
    let left_keys = row_keys(left, key_columns);
    let right_keys = row_keys(right, key_columns);
    let order = merged_key_order(&left_keys, &right_keys);
    let ghost names = texts(key_columns@);
    let ghost keys = key_models(order@);
    let mut changes: Vec<RowChange> = Vec::new();
    assert(row_models(changes@) == Seq::<RowModel>::empty());
    for i in 0..order.len()
        invariant
            names == texts(key_columns@),
            keys == key_models(order@),
            texts(all_columns@) == distinct(left@.headers + right@.headers),
            key_models(left_keys@) == keys_of(left@, names),
            key_models(right_keys@) == keys_of(right@, names),
            row_models(changes@) == changes_of_keys(left@, right@, names, keys.take(i as int)),
            forall|i: int|
                0 <= i < changes@.len() ==> (#[trigger] changes@[i]).occurrence < usize::MAX,
    {
        let key = &order[i];
        assert(keys.take(i + 1).drop_last() == keys.take(i as int));
        assert(keys.take(i + 1).last() == key@);
        let left_places = group_rows(&left_keys, key);
        let right_places = group_rows(&right_keys, key);
        let ghost left_rows = group_of(left@, names, key@);
        let ghost right_rows = group_of(right@, names, key@);
        assert(key_models(left_keys@).len() == left@.rows.len());
        assert(key_models(right_keys@).len() == right@.rows.len());
        let count: usize = if left_places.len() > right_places.len() {
            left_places.len()
        } else {
            right_places.len()
        };
        let ghost start = row_models(changes@);
        assert(start + changes_of_key(left@, right@, names, key@, 0) == start);
        for occurrence in 0..count
            invariant
                names == texts(key_columns@),
                texts(all_columns@) == distinct(left@.headers + right@.headers),
                left_rows == group_of(left@, names, key@),
                right_rows == group_of(right@, names, key@),
                left_places@.len() == left_rows.len(),
                right_places@.len() == right_rows.len(),
                forall|k: int|
                    0 <= k < left_places@.len() ==> (#[trigger] left_places@[k])
                        < left.rows@.len() && texts(left.rows@[left_places@[k] as int]@)
                        == left_rows[k],
                forall|k: int|
                    0 <= k < right_places@.len() ==> (#[trigger] right_places@[k])
                        < right.rows@.len() && texts(right.rows@[right_places@[k] as int]@)
                        == right_rows[k],
                count <= left_places@.len() || count <= right_places@.len(),
                count <= usize::MAX,
                row_models(changes@) == start + changes_of_key(
                    left@,
                    right@,
                    names,
                    key@,
                    occurrence as int,
                ),
                forall|i: int|
                    0 <= i < changes@.len() ==> (#[trigger] changes@[i]).occurrence < usize::MAX,
        {
            let ghost before = changes@;
            let ghost wanted = change_at(left@, right@, names, key@, occurrence as int);
            if occurrence < left_places.len() && occurrence < right_places.len() {
                let columns = compare_columns(
                    left,
                    right,
                    &left.rows[left_places[occurrence]],
                    &right.rows[right_places[occurrence]],
                    &all_columns,
                );
                assert(column_models(columns@).len() == columns@.len());
                if columns.len() > 0 {
                    let change = RowChange {
                        key: copy_key(key),
                        occurrence,
                        kind: RowChangeKind::Modified,
                        columns,
                    };
                    assert(wanted == Some(change@));
                    changes.push(change);
                }
            } else if occurrence < left_places.len() {
                let columns = row_snapshot(
                    left,
                    &left.rows[left_places[occurrence]],
                    &all_columns,
                    true,
                );
                let change = RowChange {
                    key: copy_key(key),
                    occurrence,
                    kind: RowChangeKind::OnlyLeft,
                    columns,
                };
                assert(wanted == Some(change@));
                changes.push(change);
            } else if occurrence < right_places.len() {
                let columns = row_snapshot(
                    right,
                    &right.rows[right_places[occurrence]],
                    &all_columns,
                    false,
                );
                let change = RowChange {
                    key: copy_key(key),
                    occurrence,
                    kind: RowChangeKind::OnlyRight,
                    columns,
                };
                assert(wanted == Some(change@));
                changes.push(change);
            }
            assert(row_models(changes@) == with_option(row_models(before), wanted));
            assert(with_option(
                start + changes_of_key(left@, right@, names, key@, occurrence as int),
                wanted,
            ) == start + with_option(
                changes_of_key(left@, right@, names, key@, occurrence as int),
                wanted,
            ));
        }
    }
    assert(keys.take(keys.len() as int) == keys);
    changes
}

/// The names of the list that are not among `others`, in order.
pub open spec fn names_without(names: Seq<Seq<char>>, others: Seq<Seq<char>>) -> Seq<Seq<char>>
    decreases names.len(),
{
    if names.len() == 0 {
        names
    } else {
        let before = names_without(names.drop_last(), others);
        if others.contains(names.last()) {
            before
        } else {
            before.push(names.last())
        }
    }
}

fn select_without(names: &Vec<String>, others: &Vec<String>) -> (selected: Vec<String>)
    ensures
        texts(selected@) == names_without(texts(names@), texts(others@)),
{
    let ghost all = texts(names@);
    let mut selected: Vec<String> = Vec::new();
    assert(all.take(0) == Seq::<Seq<char>>::empty());
    for i in 0..names.len()
        invariant
            all == texts(names@),
            texts(selected@) == names_without(all.take(i as int), texts(others@)),
    {
        assert(all.take(i + 1).drop_last() == all.take(i as int));
        if !holds_text(others, names[i].as_str()) {
            let name = names[i].clone();
            proof {
                texts_push(selected@, name);
            }
            selected.push(name);
        }
    }
    assert(all.take(all.len() as int) == all);
    selected
}

/// The differences between two tables. The rows are only compared where both tables have all
/// the key columns.
pub open spec fn report_of(
    left: CsvModel,
    right: CsvModel,
    key_columns: Seq<Seq<char>>,
) -> ReportModel {
    let missing_left = names_without(key_columns, left.headers);
    let missing_right = names_without(key_columns, right.headers);
    ReportModel {
        left_path: left.path,
        right_path: right.path,
        key_columns,
        missing_left,
        missing_right,
        only_left: names_without(left.headers, right.headers),
        only_right: names_without(right.headers, left.headers),
        changes: if missing_left.len() == 0 && missing_right.len() == 0 {
            row_changes_of(left, right, key_columns)
        } else {
            Seq::empty()
        },
    }
}

/// The differences between the tables.
pub fn diff_csv(left: &CsvData, right: &CsvData, key_columns: &Vec<String>) -> (report: DiffReport)
    ensures
        report@ == report_of(left@, right@, texts(key_columns@)),
        can_be_rendered(report),
{
    let missing_key_columns_left = select_without(key_columns, &left.headers);
    let missing_key_columns_right = select_without(key_columns, &right.headers);
    let header_diff = HeaderDiff {
        only_left: select_without(&left.headers, &right.headers),
        only_right: select_without(&right.headers, &left.headers),
    };
    assert(texts(missing_key_columns_left@).len() == missing_key_columns_left@.len());
    assert(texts(missing_key_columns_right@).len() == missing_key_columns_right@.len());
    let row_changes = if missing_key_columns_left.len() == 0 && missing_key_columns_right.len()
        == 0 {
        diff_rows(left, right, key_columns)
    } else {
        Vec::new()
    };
    let report = DiffReport {
        left_path: left.path.clone(),
        right_path: right.path.clone(),
        key_columns: copy_texts(key_columns),
        missing_key_columns_left,
        missing_key_columns_right,
        header_diff,
        row_changes,
    };
    assert(report@.changes == report_of(left@, right@, texts(key_columns@)).changes);
    report
}

/// The numbers of the rows, counted from one, fit.
pub open spec fn can_be_rendered(report: DiffReport) -> bool {
    forall|i: int|
        0 <= i < report.row_changes@.len() ==> (#[trigger] report.row_changes@[i]).occurrence
            < usize::MAX
}

/// The key as it is shown: each name with its value between quotes.
pub open spec fn key_text(key: Seq<(Seq<char>, Seq<char>)>) -> Seq<char> {
    joined(Seq::new(key.len(), |i: int| key[i].0 + "="@ + quoted(key[i].1)), ", "@)
}

impl KeyValue {
    /// The key as it is shown.
    pub fn to_text(&self) -> (text: String)
        ensures
            text@ == key_text(self@),
            values_are_literals(self@),
            each_on_one_line(names_of(self@)) ==> !text@.contains('\n'),
    {
        let mut parts: Vec<String> = Vec::new();
        proof {
            reveal_strlit("=");
            reveal_strlit(", ");
        }
        for i in 0..self.0.len()
            invariant
                parts@.len() == i,
                !"="@.contains('\n'),
                forall|k: int|
                    0 <= k < i ==> is_literal_of(quoted((#[trigger] self@[k]).1), self@[k].1),
                each_on_one_line(names_of(self@)) ==> forall|k: int|
                    0 <= k < i ==> !(#[trigger] parts@[k])@.contains('\n'),
                forall|k: int|
                    0 <= k < i ==> (#[trigger] parts@[k])@ == self@[k].0 + "="@ + quoted(
                        self@[k].1,
                    ),
        {
            let entry = &self.0[i];
            let mut part = entry.0.clone();
            part.append("=");
            let value = quote(entry.1.as_str());
            part.append(value.as_str());
            assert(self@[i as int] == (entry.0@, entry.1@));
            proof {
                if each_on_one_line(names_of(self@)) {
                    assert(!names_of(self@)[i as int].contains('\n'));
                    both_on_one_line(entry.0@, "="@);
                    both_on_one_line(entry.0@ + "="@, value@);
                }
            }
            parts.push(part);
        }
        proof {
            if each_on_one_line(names_of(self@)) {
                assert forall|k: int| 0 <= k < texts(parts@).len() implies !(#[trigger] texts(
                    parts@,
                )[k]).contains('\n') by {
                    assert(!parts@[k]@.contains('\n'));
                }
                joined_on_one_line(texts(parts@), ", "@);
            }
        }
        assert(texts(parts@) == Seq::new(
            self@.len(),
            |i: int| self@[i].0 + "="@ + quoted(self@[i].1),
        ));
        join(&parts, ", ")
    }
}

/// The value of a cell as it is shown.
pub open spec fn cell_text(value: Option<Seq<char>>) -> Seq<char> {
    match value {
        Some(value) => quoted(value),
        None => "<missing>"@,
    }
}

/// The value of a cell as it is shown.
pub fn render_cell_value(value: &Option<String>) -> (text: String)
    ensures
        text@ == cell_text(option_text(*value)),
        !text@.contains('\n'),
        ends_shown(seq![text@]),
{
    proof {
        reveal_strlit("<missing>");
    }
    match value {
        Some(value) => {
            let text = quote(value.as_str());
            proof {
                literal_goes_on(text@, 1, Seq::empty());
            }
            text
        },
        None => "<missing>".to_owned(),
    }
}

/// How a kind of change is called.
pub open spec fn change_title(kind: RowChangeKind) -> Seq<char> {
    match kind {
        RowChangeKind::OnlyLeft => "only in left"@,
        RowChangeKind::OnlyRight => "only in right"@,
        RowChangeKind::Modified => "modified"@,
    }
}

/// The line that heads a change.
pub open spec fn change_head(change: RowModel) -> Seq<char> {
    "@@ key ["@ + key_text(change.key) + "] occurrence "@ + decimal(change.occurrence + 1) + " "@
        + change_title(change.kind) + " @@"@
}

/// The lines of a column of a change.
pub open spec fn column_lines(kind: RowChangeKind, column: ColumnModel) -> Seq<Seq<char>> {
    match kind {
        RowChangeKind::OnlyLeft => match column.left {
            Some(left) => seq!["- "@ + column.column + "="@ + quoted(left)],
            None => Seq::empty(),
        },
        RowChangeKind::OnlyRight => match column.right {
            Some(right) => seq!["+ "@ + column.column + "="@ + quoted(right)],
            None => Seq::empty(),
        },
        RowChangeKind::Modified => seq![
            "- "@ + column.column + "="@ + cell_text(column.left),
            "+ "@ + column.column + "="@ + cell_text(column.right),
        ],
    }
}

/// The lines of the columns of a change.
pub open spec fn columns_lines(kind: RowChangeKind, columns: Seq<ColumnModel>) -> Seq<Seq<char>>
    decreases columns.len(),
{
    if columns.len() == 0 {
        Seq::empty()
    } else {
        columns_lines(kind, columns.drop_last()) + column_lines(kind, columns.last())
    }
}

/// The lines of a change.
pub open spec fn change_lines(change: RowModel) -> Seq<Seq<char>> {
    seq![change_head(change)] + columns_lines(change.kind, change.columns)
}

/// The lines of the changes.
pub open spec fn changes_lines(changes: Seq<RowModel>) -> Seq<Seq<char>>
    decreases changes.len(),
{
    if changes.len() == 0 {
        Seq::empty()
    } else {
        changes_lines(changes.drop_last()) + change_lines(changes.last())
    }
}

/// A line for each name: the words, and the name between quotes.
pub open spec fn name_lines(words: Seq<char>, names: Seq<Seq<char>>) -> Seq<Seq<char>> {
    Seq::new(names.len(), |i: int| words + quoted(names[i]))
}

/// The lines that tell which tables and key columns are compared.
pub open spec fn head_lines(report: ReportModel) -> Seq<Seq<char>> {
    seq!["--- "@ + report.left_path, "+++ "@ + report.right_path] + (if report.key_columns.len()
        > 0 {
        seq!["keys: "@ + joined(report.key_columns, ", "@)]
    } else {
        Seq::empty()
    })
}

/// The lines of the key columns that are missing.
pub open spec fn missing_lines(report: ReportModel) -> Seq<Seq<char>> {
    if report.missing_left.len() > 0 || report.missing_right.len() > 0 {
        seq!["@@ missing key columns @@"@] + name_lines(
            "- left is missing key column "@,
            report.missing_left,
        ) + name_lines("+ right is missing key column "@, report.missing_right)
    } else {
        Seq::empty()
    }
}

/// The lines of the columns that only one table has.
pub open spec fn header_lines(report: ReportModel) -> Seq<Seq<char>> {
    if report.only_left.len() > 0 || report.only_right.len() > 0 {
        seq!["@@ header differences @@"@] + name_lines(
            "- column only in left: "@,
            report.only_left,
        ) + name_lines("+ column only in right: "@, report.only_right)
    } else {
        Seq::empty()
    }
}

/// The lines of the report.
pub open spec fn report_lines(report: ReportModel) -> Seq<Seq<char>> {
    head_lines(report) + missing_lines(report) + header_lines(report) + changes_lines(
        report.changes,
    ) + (if differs(report) {
        Seq::empty()
    } else {
        seq!["no differences"@]
    })
}

/// Whether the last of the lines ends as what is shown does: with a quote or a bracket, or as a
/// heading does.
pub open spec fn ends_shown(lines: Seq<Seq<char>>) -> bool {
    lines.len() > 0 && lines.last().len() > 0 && {
        let end = lines.last().last();
        end == '"' || end == '>' || end == '@'
    }
}

fn push_line(lines: &mut Vec<String>, line: String)
    ensures
        texts(final(lines)@) == texts(old(lines)@).push(line@),
{
    proof {
        texts_push(lines@, line);
    }
    lines.push(line);
}

fn push_name_lines(lines: &mut Vec<String>, words: &str, names: &Vec<String>)
    ensures
        texts(final(lines)@) == texts(old(lines)@) + name_lines(words@, texts(names@)),
        !words@.contains('\n') ==> each_on_one_line(name_lines(words@, texts(names@))),
        ends_shown(texts(old(lines)@)) ==> ends_shown(texts(final(lines)@)),
{
    let ghost start = texts(lines@);
    let ghost all = texts(names@);
    for i in 0..names.len()
        invariant
            start == texts(old(lines)@),
            all == texts(names@),
            !words@.contains('\n') ==> each_on_one_line(name_lines(words@, all.take(i as int))),
            ends_shown(start) ==> ends_shown(texts(lines@)),
            texts(lines@) == start + name_lines(words@, all.take(i as int)),
    {
        let mut line = words.to_owned();
        let name = quote(names[i].as_str());
        line.append(name.as_str());
        assert(name_lines(words@, all.take(i + 1)) == name_lines(words@, all.take(i as int)).push(
            words@ + quoted(all[i as int]),
        ));
        proof {
            if !words@.contains('\n') {
                both_on_one_line(words@, name@);
            }
            literal_goes_on(name@, 1, Seq::empty());
        }
        push_line(lines, line);
    }
    assert(all.take(all.len() as int) == all);
}

fn push_cell(lines: &mut Vec<String>, sign: &str, column: &str, value: &str)
    ensures
        texts(final(lines)@) == texts(old(lines)@).push(sign@ + column@ + "="@ + value@),
        ends_shown(seq![value@]) ==> ends_shown(texts(final(lines)@)),
{
    let mut line = sign.to_owned();
    line.append(column);
    line.append("=");
    line.append(value);
    push_line(lines, line);
}

fn push_columns(lines: &mut Vec<String>, kind: RowChangeKind, columns: &Vec<ColumnChange>)
    ensures
        texts(final(lines)@) == texts(old(lines)@) + columns_lines(kind, column_models(columns@)),
        forall|j: int|
            0 <= j < columns@.len() ==> values_on_one_line(
                kind,
                #[trigger] column_models(columns@)[j],
            ),
        ends_shown(texts(old(lines)@)) ==> ends_shown(texts(final(lines)@)),
{
    let ghost start = texts(lines@);
    let ghost all = column_models(columns@);
    for i in 0..columns.len()
        invariant
            start == texts(old(lines)@),
            all == column_models(columns@),
            forall|j: int| 0 <= j < i ==> values_on_one_line(kind, #[trigger] all[j]),
            ends_shown(start) ==> ends_shown(texts(lines@)),
            texts(lines@) == start + columns_lines(kind, all.take(i as int)),
    {
        let column = &columns[i];
        let ghost before = texts(lines@);
        assert(all.take(i + 1).drop_last() == all.take(i as int));
        assert(all.take(i + 1).last() == column@);
        match kind {
            RowChangeKind::OnlyLeft => {
                if let Some(left) = &column.left {
                    let value = quote(left.as_str());
                    proof {
                        literal_goes_on(value@, 1, Seq::empty());
                    }
                    push_cell(lines, "- ", column.column.as_str(), value.as_str());
                }
            },
            RowChangeKind::OnlyRight => {
                if let Some(right) = &column.right {
                    let value = quote(right.as_str());
                    proof {
                        literal_goes_on(value@, 1, Seq::empty());
                    }
                    push_cell(lines, "+ ", column.column.as_str(), value.as_str());
                }
            },
            RowChangeKind::Modified => {
                let left = render_cell_value(&column.left);
                push_cell(lines, "- ", column.column.as_str(), left.as_str());
                let right = render_cell_value(&column.right);
                push_cell(lines, "+ ", column.column.as_str(), right.as_str());
            },
        }
        assert(texts(lines@) == before + column_lines(kind, column@));
        assert(all[i as int] == column@);
        assert(values_on_one_line(kind, column@));
    }
    assert(all.take(all.len() as int) == all);
}

fn push_head(lines: &mut Vec<String>, report: &DiffReport)
    ensures
        texts(final(lines)@) == texts(old(lines)@) + head_lines(report@),
{
    let ghost start = texts(lines@);
    let mut line = "--- ".to_owned();
    line.append(report.left_path.as_str());
    push_line(lines, line);
    let mut line = "+++ ".to_owned();
    line.append(report.right_path.as_str());
    push_line(lines, line);
    assert(texts(report.key_columns@).len() == report.key_columns@.len());
    if report.key_columns.len() > 0 {
        let mut line = "keys: ".to_owned();
        line.append(join(&report.key_columns, ", ").as_str());
        push_line(lines, line);
    }
    assert(texts(lines@) == start + head_lines(report@));
}

fn push_missing(lines: &mut Vec<String>, report: &DiffReport)
    ensures
        texts(final(lines)@) == texts(old(lines)@) + missing_lines(report@),
        each_on_one_line(missing_lines(report@)),
        missing_lines(report@).len() > 0 ==> ends_shown(texts(final(lines)@)),
{
    proof {
        reveal_strlit("@@ missing key columns @@");
        reveal_strlit("- left is missing key column ");
        reveal_strlit("+ right is missing key column ");
    }
    let ghost start = texts(lines@);
    if report.missing_key_columns_left.len() > 0 || report.missing_key_columns_right.len() > 0 {
        push_line(lines, "@@ missing key columns @@".to_owned());
        push_name_lines(lines, "- left is missing key column ", &report.missing_key_columns_left);
        push_name_lines(
            lines,
            "+ right is missing key column ",
            &report.missing_key_columns_right,
        );
    }
    assert(texts(lines@) == start + missing_lines(report@));
}

fn push_header_differences(lines: &mut Vec<String>, report: &DiffReport)
    ensures
        texts(final(lines)@) == texts(old(lines)@) + header_lines(report@),
        each_on_one_line(header_lines(report@)),
        ends_shown(texts(old(lines)@)) || header_lines(report@).len() > 0 ==> ends_shown(
            texts(final(lines)@),
        ),
{
    proof {
        reveal_strlit("@@ header differences @@");
        reveal_strlit("- column only in left: ");
        reveal_strlit("+ column only in right: ");
    }
    let ghost start = texts(lines@);
    if report.header_diff.only_left.len() > 0 || report.header_diff.only_right.len() > 0 {
        push_line(lines, "@@ header differences @@".to_owned());
        push_name_lines(lines, "- column only in left: ", &report.header_diff.only_left);
        push_name_lines(lines, "+ column only in right: ", &report.header_diff.only_right);
    }
    assert(texts(lines@) == start + header_lines(report@));
}

fn push_changes(lines: &mut Vec<String>, report: &DiffReport)
    requires
        can_be_rendered(*report),
    ensures
        texts(final(lines)@) == texts(old(lines)@) + changes_lines(report@.changes),
        each_on_one_line(report@.key_columns) ==> forall|k: int|
            0 <= k < report@.changes.len() && names_of(report@.changes[k].key)
                == report@.key_columns ==> change_is_shown(#[trigger] report@.changes[k]),
        ends_shown(texts(old(lines)@)) || report@.changes.len() > 0 ==> ends_shown(
            texts(final(lines)@),
        ),
{
    let ghost start = texts(lines@);
    let ghost changes = report@.changes;
    let ghost names = report@.key_columns;
    assert(start + changes_lines(changes.take(0)) == start);
    for i in 0..report.row_changes.len()
        invariant
            can_be_rendered(*report),
            changes == row_models(report.row_changes@),
            texts(lines@) == start + changes_lines(changes.take(i as int)),
            each_on_one_line(names) ==> forall|k: int|
                0 <= k < i && names_of(changes[k].key) == names ==> change_is_shown(
                    #[trigger] changes[k],
                ),
            ends_shown(start) || i > 0 ==> ends_shown(texts(lines@)),
    {
        let change = &report.row_changes[i];
        let ghost before = texts(lines@);
        assert(changes.take(i + 1).drop_last() == changes.take(i as int));
        assert(changes.take(i + 1).last() == change@);
        assert(changes[i as int] == change@);
        push_change_head(lines, change);
        push_columns(lines, change.kind, &change.columns);
        assert(texts(lines@) == before + change_lines(change@));
        assert(start + changes_lines(changes.take(i as int)) + change_lines(change@) == start + (
        changes_lines(changes.take(i as int)) + change_lines(change@)));
    }
    assert(changes.take(changes.len() as int) == changes);
}

/// The report as text. The rows that it tells of can be read back from it, if it is readable. Its
/// last line, which no line feed ends, says that there are no differences just where there are
/// none.
pub fn render_diff(report: &DiffReport) -> (text: String)
    requires
        can_be_rendered(*report),
    ensures
        text@ == joined(report_lines(report@), "\n"@),
        is_readable(report@) ==> selection_of(text@) == Ok::<SelectionModel, Seq<char>>(
            selection_in(report@),
        ),
        text@.last() != '\n',
        (lines(text@).last() == "no differences"@) == !differs(report@),
{
    let mut all: Vec<String> = Vec::new();
    push_head(&mut all, report);
    push_missing(&mut all, report);
    push_header_differences(&mut all, report);
    push_changes(&mut all, report);
    if !report.has_differences() {
        push_line(&mut all, "no differences".to_owned());
    }
    assert(texts(all@) == report_lines(report@));
    proof {
        last_line_shows(texts(all@), differs(report@));
        if is_readable(report@) {
            assert forall|k: int| 0 <= k < report@.changes.len() implies change_is_shown(
                #[trigger] report@.changes[k],
            ) by {
                assert(change_is_readable(report@.changes[k], report@.key_columns));
            }
            report_is_read_back(report@);
        }
    }
    join(&all, "\n")
}

fn push_change_head(lines: &mut Vec<String>, change: &RowChange)
    requires
        change.occurrence < usize::MAX,
    ensures
        texts(final(lines)@) == texts(old(lines)@).push(change_head(change@)),
        values_are_literals(change@.key),
        ends_shown(texts(final(lines)@)),
        each_on_one_line(names_of(change@.key)) ==> !change_head(change@).contains('\n'),
{
    let title = match change.kind {
        RowChangeKind::OnlyLeft => "only in left",
        RowChangeKind::OnlyRight => "only in right",
        RowChangeKind::Modified => "modified",
    };
    let key = change.key.to_text();
    let number = to_decimal((change.occurrence + 1) as u64);
    let mut line = "@@ key [".to_owned();
    line.append(key.as_str());
    line.append("] occurrence ");
    line.append(number.as_str());
    line.append(" ");
    line.append(title);
    line.append(" @@");
    assert(line@ == change_head(change@));
    proof {
        reveal_strlit("@@ key [");
        reveal_strlit("] occurrence ");
        reveal_strlit(" ");
        reveal_strlit(" @@");
        reveal_strlit("only in left");
        reveal_strlit("only in right");
        reveal_strlit("modified");
        if each_on_one_line(names_of(change@.key)) {
            decimal_digits((change.occurrence + 1) as nat, usize::MAX as int);
            assert(!number@.contains('\n')) by {
                if number@.contains('\n') {
                    let k = choose|k: int| 0 <= k < number@.len() && number@[k] == '\n';
                    assert('0' <= number@[k]);
                }
            }
            let first = "@@ key ["@ + key@;
            both_on_one_line("@@ key ["@, key@);
            both_on_one_line(first, "] occurrence "@);
            let second = first + "] occurrence "@;
            both_on_one_line(second, number@);
            both_on_one_line(second + number@, " "@);
            let third = second + number@ + " "@;
            both_on_one_line(third, title@);
            both_on_one_line(third + title@, " @@"@);
        }
    }
    push_line(lines, line);
}

} // verus!
