//! The change of a value between rows, by the time between them.
use vstd::prelude::*;

use crate::cells::{find_column_index, parse_f64_cell, say_no_value, Number};
use crate::csv_text::write_csv;
use crate::text::to_decimal;

verus! {

use crate::cells::{
    finite_number, no_column_text, no_value_text, number_models, number_rows, numbers_fit,
    NumberModel,
};
use crate::csv_text::{records_text, uneven_record};
use crate::text::{decimal, first_place, text_rows, text_rows_push, texts};

/// A row of the result: the time, the value, and the change since the row before.
#[derive(Debug, Clone, PartialEq)]
pub struct OutputRow {
    pub time: String,
    pub value: String,
    pub pseudo_diff: String,
}

/// What an [`OutputRow`] says.
pub open spec fn output_fields(row: OutputRow) -> Seq<Seq<char>> {
    seq![row.time@, row.value@, row.pseudo_diff@]
}

/// What a list of rows says.
pub open spec fn output_rows(rows: Seq<OutputRow>) -> Seq<Seq<Seq<char>>> {
    Seq::new(rows.len(), |i: int| output_fields(rows[i]))
}

/// The change between a row and the one before it as text; `None` if the time between them is
/// none that can be divided by.
pub type Change = Option<String>;

/// What a change says.
pub open spec fn change_text(change: Change) -> Option<Seq<char>> {
    match change {
        Some(text) => Some(text@),
        None => None,
    }
}

/// What a list of changes says.
pub open spec fn change_texts(changes: Seq<Change>) -> Seq<Option<Seq<char>>> {
    Seq::new(changes.len(), |i: int| change_text(changes[i]))
}

/// The fields of the result for a row, or why there are none.
pub open spec fn fields_of(
    row: Seq<Seq<char>>,
    numbers: Seq<NumberModel>,
    change: Option<Seq<char>>,
    time_index: int,
    value_index: int,
    time_column: Seq<char>,
    value_column: Seq<char>,
    row_index: int,
) -> Result<Seq<Seq<char>>, Seq<char>> {
    if time_index >= row.len() {
        Err(no_value_text(time_column))
    } else if value_index >= row.len() {
        Err(no_value_text(value_column))
    } else {
        let time = row[time_index];
        let value = row[value_index];
        match (
            finite_number(time, numbers[time_index], time_column, row_index),
            finite_number(value, numbers[value_index], value_column, row_index),
        ) {
            (Err(message), _) => Err(message),
            (Ok(_), Err(message)) => Err(message),
            (Ok(_), Ok(_)) => if row_index == 0 {
                Ok(seq![time, value, Seq::empty()])
            } else {
                match change {
                    None => Err(
                        "time delta became non-finite or zero at row "@ + decimal(
                            (row_index + 1) as nat,
                        ) + ": "@ + time,
                    ),
                    Some(change) => Ok(seq![time, value, change]),
                }
            },
        }
    }
}

/// The fields of the result for the first `count` rows, or why a row has none.
pub open spec fn fields_upto(
    rows: Seq<Seq<Seq<char>>>,
    numbers: Seq<Seq<NumberModel>>,
    changes: Seq<Option<Seq<char>>>,
    time_index: int,
    value_index: int,
    time_column: Seq<char>,
    value_column: Seq<char>,
    count: int,
) -> Result<Seq<Seq<Seq<char>>>, Seq<char>>
    decreases count,
{
    if count <= 0 {
        Ok(Seq::empty())
    } else {
        match fields_upto(
            rows,
            numbers,
            changes,
            time_index,
            value_index,
            time_column,
            value_column,
            count - 1,
        ) {
            Err(message) => Err(message),
            Ok(before) => match fields_of(
                rows[count - 1],
                numbers[count - 1],
                changes[count - 1],
                time_index,
                value_index,
                time_column,
                value_column,
                count - 1,
            ) {
                Err(message) => Err(message),
                Ok(fields) => Ok(before.push(fields)),
            },
        }
    }
}

proof fn fields_stop(
    rows: Seq<Seq<Seq<char>>>,
    numbers: Seq<Seq<NumberModel>>,
    changes: Seq<Option<Seq<char>>>,
    time_index: int,
    value_index: int,
    time_column: Seq<char>,
    value_column: Seq<char>,
    count: int,
    total: int,
)
    requires
        count <= total,
        fields_upto(
            rows,
            numbers,
            changes,
            time_index,
            value_index,
            time_column,
            value_column,
            count,
        ) is Err,
    ensures
        fields_upto(
            rows,
            numbers,
            changes,
            time_index,
            value_index,
            time_column,
            value_column,
            total,
        ) == fields_upto(
            rows,
            numbers,
            changes,
            time_index,
            value_index,
            time_column,
            value_column,
            count,
        ),
    decreases total - count,
{
    if count < total {
        fields_stop(
            rows,
            numbers,
            changes,
            time_index,
            value_index,
            time_column,
            value_column,
            count,
            total - 1,
        );
    }
}

/// Each row of the table has one in the result, with its time and its value as they stand there;
/// the first has no change, and each other the one that is given for it.
pub proof fn a_row_for_each_row(
    rows: Seq<Seq<Seq<char>>>,
    numbers: Seq<Seq<NumberModel>>,
    changes: Seq<Option<Seq<char>>>,
    time_index: int,
    value_index: int,
    time_column: Seq<char>,
    value_column: Seq<char>,
    count: int,
)
    requires
        0 <= count,
    ensures
        fields_upto(
            rows,
            numbers,
            changes,
            time_index,
            value_index,
            time_column,
            value_column,
            count,
        ) matches Ok(made) ==> made.len() == count && forall|i: int|
            0 <= i < count ==> #[trigger] made[i] == seq![
                rows[i][time_index],
                rows[i][value_index],
                if i == 0 {
                    Seq::empty()
                } else {
                    changes[i]->0
                },
            ],
    decreases count,
{
    if count > 0 {
        a_row_for_each_row(
            rows,
            numbers,
            changes,
            time_index,
            value_index,
            time_column,
            value_column,
            count - 1,
        );
    }
}

/// The rows of the result, or why there are none.
pub open spec fn result_rows(
    headers: Seq<Seq<char>>,
    rows: Seq<Seq<Seq<char>>>,
    numbers: Seq<Seq<NumberModel>>,
    changes: Seq<Option<Seq<char>>>,
    time_column: Seq<char>,
    value_column: Seq<char>,
    scale_is_usable: bool,
) -> Result<Seq<Seq<Seq<char>>>, Seq<char>> {
    if !scale_is_usable {
        Err("time_scale must be finite and non-zero"@)
    } else if !headers.contains(time_column) {
        Err(no_column_text(time_column))
    } else if !headers.contains(value_column) {
        Err(no_column_text(value_column))
    } else {
        fields_upto(
            rows,
            numbers,
            changes,
            first_place(headers, time_column),
            first_place(headers, value_column),
            time_column,
            value_column,
            rows.len() as int,
        )
    }
}

/// What rows of a result that may be missing say.
pub open spec fn rows_result(result: Result<Vec<OutputRow>, String>) -> Result<
    Seq<Seq<Seq<char>>>,
    Seq<char>,
> {
    match result {
        Ok(rows) => Ok(output_rows(rows@)),
        Err(message) => Err(message@),
    }
}

fn make_row(
    row: &Vec<String>,
    numbers: &Vec<Number>,
    change: &Change,
    time_index: usize,
    value_index: usize,
    time_column: &str,
    value_column: &str,
    row_index: usize,
) -> (result: Result<OutputRow, String>)
    requires
        numbers@.len() == row@.len(),
        row_index < usize::MAX,
    ensures
        match result {
            Ok(made) => fields_of(
                texts(row@),
                number_models(numbers@),
                change_text(*change),
                time_index as int,
                value_index as int,
                time_column@,
                value_column@,
                row_index as int,
            ) == Ok::<Seq<Seq<char>>, Seq<char>>(output_fields(made)),
            Err(message) => fields_of(
                texts(row@),
                number_models(numbers@),
                change_text(*change),
                time_index as int,
                value_index as int,
                time_column@,
                value_column@,
                row_index as int,
            ) == Err::<Seq<Seq<char>>, Seq<char>>(message@),
        },
{
    if time_index >= row.len() {
        return Err(say_no_value(time_column));
    }
    if value_index >= row.len() {
        return Err(say_no_value(value_column));
    }
    match parse_f64_cell(row, numbers, time_index, time_column, row_index) {
        Ok(_) => {},
        Err(message) => {
            return Err(message);
        },
    }
    match parse_f64_cell(row, numbers, value_index, value_column, row_index) {
        Ok(_) => {},
        Err(message) => {
            return Err(message);
        },
    }
    let time = row[time_index].clone();
    let value = row[value_index].clone();
    if row_index == 0 {
        let made = OutputRow { time, value, pseudo_diff: String::new() };
        assert(output_fields(made) == seq![
            texts(row@)[time_index as int],
            texts(row@)[value_index as int],
            Seq::<char>::empty(),
        ]);
        return Ok(made);
    }
    match change {
        None => {
            let mut message = "time delta became non-finite or zero at row ".to_owned();
            message.append(to_decimal((row_index + 1) as u64).as_str());
            message.append(": ");
            message.append(time.as_str());
            Err(message)
        },
        Some(change) => Ok(OutputRow { time, value, pseudo_diff: change.clone() }),
    }
}

/// The rows of the result: the change of a row is that of `changes` at its place, which the
/// first row does not have.
pub fn compute_pseudo_diff_rows(
    headers: &Vec<String>,
    rows: &Vec<Vec<String>>,
    numbers: &Vec<Vec<Number>>,
    changes: &Vec<Change>,
    time_column: &str,
    value_column: &str,
    scale_is_usable: bool,
) -> (result: Result<Vec<OutputRow>, String>)
    requires
        numbers_fit(text_rows(rows@), number_rows(numbers@)),
        changes@.len() == rows@.len(),
    ensures
        rows_result(result) == result_rows(
            texts(headers@),
            text_rows(rows@),
            number_rows(numbers@),
            change_texts(changes@),
            time_column@,
            value_column@,
            scale_is_usable,
        ),
{
    if !scale_is_usable {
        return Err("time_scale must be finite and non-zero".to_owned());
    }
    let time_index = match find_column_index(headers, time_column) {
        Ok(index) => index,
        Err(message) => {
            return Err(message);
        },
    };
    let value_index = match find_column_index(headers, value_column) {
        Ok(index) => index,
        Err(message) => {
            return Err(message);
        },
    };
    let ghost table = text_rows(rows@);
    let ghost models = number_rows(numbers@);
    let ghost steps = change_texts(changes@);
    let ghost wanted = fields_upto(
        table,
        models,
        steps,
        time_index as int,
        value_index as int,
        time_column@,
        value_column@,
        table.len() as int,
    );
    let mut output: Vec<OutputRow> = Vec::new();
    assert(output_rows(output@) == Seq::<Seq<Seq<char>>>::empty());
    for i in 0..rows.len()
        invariant
            table == text_rows(rows@),
            models == number_rows(numbers@),
            steps == change_texts(changes@),
            numbers_fit(table, models),
            changes@.len() == rows@.len(),
            wanted == result_rows(
                texts(headers@),
                table,
                models,
                steps,
                time_column@,
                value_column@,
                scale_is_usable,
            ),
            wanted == fields_upto(
                table,
                models,
                steps,
                time_index as int,
                value_index as int,
                time_column@,
                value_column@,
                table.len() as int,
            ),
            fields_upto(
                table,
                models,
                steps,
                time_index as int,
                value_index as int,
                time_column@,
                value_column@,
                i as int,
            ) == Ok::<Seq<Seq<Seq<char>>>, Seq<char>>(output_rows(output@)),
    {
        assert(table[i as int] == texts(rows@[i as int]@));
        assert(models[i as int] == number_models(numbers@[i as int]@));
        assert(models[i as int].len() == table[i as int].len());
        assert(steps[i as int] == change_text(changes@[i as int]));
        match make_row(
            &rows[i],
            &numbers[i],
            &changes[i],
            time_index,
            value_index,
            time_column,
            value_column,
            i,
        ) {
            Ok(row) => {
                let ghost before = output@;
                output.push(row);
                assert(output_rows(output@) == output_rows(before).push(output_fields(row)));
            },
            Err(message) => {
                proof {
                    fields_stop(
                        table,
                        models,
                        steps,
                        time_index as int,
                        value_index as int,
                        time_column@,
                        value_column@,
                        i + 1,
                        table.len() as int,
                    );
                }
                return Err(message);
            },
        }
    }
    Ok(output)
}

proof fn even_records(records: Seq<Seq<Seq<char>>>, from: int)
    requires
        0 <= from,
        forall|i: int| 0 <= i < records.len() ==> (#[trigger] records[i]).len() == 3,
    ensures
        uneven_record(records, from) is None,
    decreases records.len() - from,
{
    if from < records.len() {
        even_records(records, from + 1);
    }
}

/// The result as CSV text.
pub fn render_csv(rows: &Vec<OutputRow>, time_column: &str, value_column: &str) -> (result: Result<
    String,
    String,
>)
    ensures
        result matches Ok(text) && text@ == records_text(
            seq![seq![time_column@, value_column@, "pseudo_diff"@]] + output_rows(rows@),
        ),
{
    let headers = vec![time_column.to_owned(), value_column.to_owned(), "pseudo_diff".to_owned()];
    let mut records: Vec<Vec<String>> = Vec::new();
    assert(text_rows(records@) == output_rows(rows@.take(0)));
    for i in 0..rows.len()
        invariant
            text_rows(records@) == output_rows(rows@.take(i as int)),
    {
        let row = &rows[i];
        let record = vec![row.time.clone(), row.value.clone(), row.pseudo_diff.clone()];
        assert(texts(record@) == output_fields(*row));
        proof {
            text_rows_push(records@, record);
        }
        records.push(record);
        assert(output_rows(rows@.take(i + 1)) == output_rows(rows@.take(i as int)).push(
            output_fields(*row),
        ));
    }
    assert(rows@.take(rows@.len() as int) == rows@);
    proof {
        let all = seq![texts(headers@)] + text_rows(records@);
        assert(texts(headers@) == seq![time_column@, value_column@, "pseudo_diff"@]);
        assert forall|i: int| 0 <= i < all.len() implies (#[trigger] all[i]).len() == 3 by {
            if i > 0 {
                assert(all[i] == output_rows(rows@)[i - 1]);
            }
        }
        even_records(all, 0);
    }
    write_csv(&headers, &records)
}

} // verus!
