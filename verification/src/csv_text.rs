//! CSV text: what is read from it and how it is written.
use vstd::prelude::*;

verus! {

use crate::text::{decimal, joined, text_rows, texts};

/// What a record that may not be readable says.
pub open spec fn record_result(record: Result<Vec<String>, String>) -> Result<
    Seq<Seq<char>>,
    Seq<char>,
> {
    match record {
        Ok(fields) => Ok(texts(fields@)),
        Err(message) => Err(message@),
    }
}

/// What a list of records that may not be readable says.
pub open spec fn record_results(records: Seq<Result<Vec<String>, String>>) -> Seq<
    Result<Seq<Seq<char>>, Seq<char>>,
> {
    Seq::new(records.len(), |i: int| record_result(records[i]))
}

/// The header record that `csv::Reader` reads from the bytes, or its message.
pub uninterp spec fn csv_headers(bytes: Seq<u8>) -> Result<Seq<Seq<char>>, Seq<char>>;

/// The records that `csv::Reader` reads from the bytes behind the header record, each with its
/// fields or the message.
pub uninterp spec fn csv_records(bytes: Seq<u8>) -> Seq<Result<Seq<Seq<char>>, Seq<char>>>;

/// Calls `csv::Reader::headers` on a reader of the bytes, as `csv::Reader::from_reader` makes
/// it; the fields, or the text of the error, are named.
#[verifier::external_body]
pub(crate) fn read_headers(bytes: &Vec<u8>) -> (result: Result<Vec<String>, String>)
    ensures
        record_result(result) == csv_headers(bytes@),
{
    let mut reader = csv::Reader::from_reader(bytes.as_slice());
    let headers = reader.headers().map_err(|error| error.to_string())?;
    Ok(headers.iter().map(str::to_owned).collect())
}

/// Hands out all that `csv::Reader::records` yields on a reader of the bytes, as
/// `csv::Reader::from_reader` makes it; the list is named. Such a reader is not flexible: a
/// record that is read has as many fields as the header record.
#[verifier::external_body]
pub(crate) fn read_records(bytes: &Vec<u8>) -> (records: Vec<Result<Vec<String>, String>>)
    ensures
        record_results(records@) == csv_records(bytes@),
        forall|i: int|
            0 <= i < records@.len() && #[trigger] records@[i] is Ok && csv_headers(bytes@) is Ok
                ==> records@[i]->Ok_0@.len() == csv_headers(bytes@)->Ok_0.len(),
{
    let mut reader = csv::Reader::from_reader(bytes.as_slice());
    reader
        .records()
        .map(|record| match record {
            Ok(fields) => Ok(fields.iter().map(str::to_owned).collect()),
            Err(error) => Err(error.to_string()),
        })
        .collect()
}

/// A `csv::Writer` that writes to a buffer.
#[verifier::external_body]
pub struct RecordWriter {
    writer: csv::Writer<Vec<u8>>,
}

/// The text of the records that the writer has written.
pub uninterp spec fn written_text(writer: RecordWriter) -> Seq<char>;

/// How many fields the first record of the writer has; `None` before it is written.
pub uninterp spec fn written_width(writer: RecordWriter) -> Option<nat>;

/// Whether a field is written between quotes.
pub open spec fn needs_quotes(field: Seq<char>) -> bool {
    field.contains(',') || field.contains('"') || field.contains('\r') || field.contains('\n')
}

/// The text with every quote doubled.
pub open spec fn quotes_doubled(text: Seq<char>) -> Seq<char>
    decreases text.len(),
{
    if text.len() == 0 {
        text
    } else if text.last() == '"' {
        quotes_doubled(text.drop_last()).push('"').push('"')
    } else {
        quotes_doubled(text.drop_last()).push(text.last())
    }
}

/// How a field is written.
pub open spec fn field_text(field: Seq<char>) -> Seq<char> {
    if needs_quotes(field) {
        seq!['"'] + quotes_doubled(field) + seq!['"']
    } else {
        field
    }
}

/// How a record is written: its fields with commas between them, and a line feed. A record that
/// would be an empty line is written as a pair of quotes.
pub open spec fn record_text(record: Seq<Seq<char>>) -> Seq<char> {
    let text = joined(Seq::new(record.len(), |i: int| field_text(record[i])), seq![',']);
    (if text.len() == 0 {
        seq!['"', '"']
    } else {
        text
    }).push('\n')
}

/// The message of a record with another number of fields than those before it.
pub open spec fn width_message(width: nat, expected: nat) -> Seq<char> {
    "CSV error: found record with "@ + decimal(width)
        + " fields, but the previous record has "@ + decimal(expected) + " fields"@
}

/// Calls `csv::Writer::from_writer` on an empty buffer: nothing is written yet.
#[verifier::external_body]
fn new_writer() -> (writer: RecordWriter)
    ensures
        written_text(writer) == Seq::<char>::empty(),
        written_width(writer) is None,
{
    RecordWriter { writer: csv::Writer::from_writer(Vec::new()) }
}

/// Calls `csv::Writer::write_record`. The writer quotes a field where that is necessary, ends
/// the record with a line feed, and refuses a record that has not as many fields as the first;
/// the buffer it writes to never fails. A writer that has refused a record is not handed out.
#[verifier::external_body]
fn write_record(writer: RecordWriter, record: &Vec<String>) -> (result: Result<
    RecordWriter,
    String,
>)
    ensures
        match written_width(writer) {
            Some(width) if width != record@.len() => result matches Err(message) && message@
                == width_message(record@.len(), width),
            _ => result matches Ok(next) && written_text(next) == written_text(writer)
                + record_text(texts(record@)) && written_width(next) == Some(record@.len()),
        },
{
    let mut writer = writer;
    writer.writer.write_record(record).map_err(|error| error.to_string())?;
    Ok(writer)
}

/// Calls `csv::Writer::into_inner`, which flushes what is written to the buffer, and takes the
/// text of the buffer: the fields were texts, so it is one.
#[verifier::external_body]
fn into_text(writer: RecordWriter) -> (text: String)
    ensures
        text@ == written_text(writer),
{
    let bytes = writer.writer.into_inner().unwrap_or_default();
    String::from_utf8_lossy(&bytes).into_owned()
}

/// The records one after another.
pub open spec fn records_text(records: Seq<Seq<Seq<char>>>) -> Seq<char>
    decreases records.len(),
{
    if records.len() == 0 {
        Seq::empty()
    } else {
        records_text(records.drop_last()) + record_text(records.last())
    }
}

/// The first record that has not as many fields as the record before it, if there is one.
pub open spec fn uneven_record(records: Seq<Seq<Seq<char>>>, from: int) -> Option<int>
    decreases records.len() - from,
{
    if from >= records.len() {
        None
    } else if from > 0 && records[from].len() != records[0].len() {
        Some(from)
    } else {
        uneven_record(records, from + 1)
    }
}

/// The text of a CSV file with the records, or the message that one has not as many fields as
/// the first.
pub open spec fn csv_text_of(records: Seq<Seq<Seq<char>>>) -> Result<Seq<char>, Seq<char>> {
    match uneven_record(records, 0) {
        None => Ok(records_text(records)),
        Some(at) => Err(width_message(records[at].len(), records[0].len())),
    }
}

/// What a result of text says.
pub open spec fn text_result(result: Result<String, String>) -> Result<Seq<char>, Seq<char>> {
    match result {
        Ok(text) => Ok(text@),
        Err(message) => Err(message@),
    }
}

/// The text of a CSV file with a header record and rows.
pub fn write_csv(headers: &Vec<String>, rows: &Vec<Vec<String>>) -> (result: Result<
    String,
    String,
>)
    ensures
        text_result(result) == csv_text_of(seq![texts(headers@)] + text_rows(rows@)),
{
    let ghost records = seq![texts(headers@)] + text_rows(rows@);
    let mut writer = match write_record(new_writer(), headers) {
        Ok(writer) => writer,
        Err(message) => {
            return Err(message);
        },
    };
    proof {
        reveal_with_fuel(records_text, 2);
        assert(records.take(1).drop_last() == Seq::<Seq<Seq<char>>>::empty());
        assert(records.take(1).last() == texts(headers@));
        assert(records_text(records.take(1)) == record_text(texts(headers@)));
    }
    for i in 0..rows.len()
        invariant
            records == seq![texts(headers@)] + text_rows(rows@),
            written_text(writer) == records_text(records.take(i + 1)),
            written_width(writer) == Some(headers@.len()),
            uneven_record(records, 0) == uneven_record(records, i + 1),
    {
        assert(records[i + 1] == texts(rows@[i as int]@));
        assert(records[0] == texts(headers@));
        assert(records.take(i + 2).drop_last() == records.take(i + 1));
        writer = match write_record(writer, &rows[i]) {
            Ok(writer) => writer,
            Err(message) => {
                return Err(message);
            },
        };
    }
    assert(records.take(records.len() as int) == records);
    Ok(into_text(writer))
}

} // verus!
