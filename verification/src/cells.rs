//! The columns of a table, and the numbers in its cells.
//!
//! A number is known by its place in the order of all floating-point numbers, the total order
//! in which negative zero comes right before zero: negative zero is at -1, zero at 0, the
//! numbers above zero follow upwards and those below downwards.
use vstd::prelude::*;

use crate::text::{position_of, to_decimal};

verus! {

use crate::text::{decimal, first_place, texts};

/// The text of a cell as a number: its place in the order and how it is shown, or why there is
/// none.
#[derive(Debug, Clone, PartialEq, Eq)]
pub enum Number {
    Finite { order: i64, shown: String },
    NotFinite,
    Invalid(String),
}

/// What a [`Number`] says.
pub enum NumberModel {
    Finite { order: i64, shown: Seq<char> },
    NotFinite,
    Invalid(Seq<char>),
}

impl View for Number {
    type V = NumberModel;

    open spec fn view(&self) -> NumberModel {
        match *self {
            Number::Finite { order, shown } => NumberModel::Finite { order, shown: shown@ },
            Number::NotFinite => NumberModel::NotFinite,
            Number::Invalid(message) => NumberModel::Invalid(message@),
        }
    }
}

/// What the numbers of a row say.
pub open spec fn number_models(numbers: Seq<Number>) -> Seq<NumberModel> {
    Seq::new(numbers.len(), |i: int| numbers[i]@)
}

/// What a table of numbers says.
pub open spec fn number_rows(numbers: Seq<Vec<Number>>) -> Seq<Seq<NumberModel>> {
    Seq::new(numbers.len(), |i: int| number_models(numbers[i]@))
}

/// Whether there is a number for each cell.
pub open spec fn numbers_fit(
    rows: Seq<Seq<Seq<char>>>,
    numbers: Seq<Seq<NumberModel>>,
) -> bool {
    &&& numbers.len() == rows.len()
    &&& forall|i: int| 0 <= i < rows.len() ==> (#[trigger] numbers[i]).len() == rows[i].len()
}

/// Whether the number at the first place is at most that at the second. The two zeros are equal.
pub open spec fn at_most(left: i64, right: i64) -> bool {
    left <= right || (left == 0 && right == -1)
}

/// Whether the numbers at the places are equal.
pub open spec fn equals(left: i64, right: i64) -> bool {
    at_most(left, right) && at_most(right, left)
}

/// Whether the first number is at most the second.
pub fn is_at_most(left: i64, right: i64) -> (is: bool)
    ensures
        is == at_most(left, right),
{
    left <= right || (left == 0 && right == -1)
}

/// Whether the numbers are equal.
pub fn is_equal(left: i64, right: i64) -> (is: bool)
    ensures
        is == equals(left, right),
{
    is_at_most(left, right) && is_at_most(right, left)
}

/// The message of a column that is not there.
pub open spec fn no_column_text(name: Seq<char>) -> Seq<char> {
    "column not found: "@ + name
}

/// The place of the column.
pub fn find_column_index(headers: &Vec<String>, name: &str) -> (result: Result<usize, String>)
    ensures
        match result {
            Ok(index) => index < headers@.len() && index == first_place(texts(headers@), name@)
                && texts(headers@).contains(name@),
            Err(message) => !texts(headers@).contains(name@) && message@ == no_column_text(name@),
        },
{
    match position_of(headers, name) {
        Some(index) => {
            proof {
                crate::text::first_place_is_first(texts(headers@), name@);
            }
            Ok(index)
        },
        None => {
            let mut message = "column not found: ".to_owned();
            message.append(name);
            Err(message)
        },
    }
}

/// The message of a row without a value for the column.
pub open spec fn no_value_text(column: Seq<char>) -> Seq<char> {
    "row is missing column value: "@ + column
}

/// The message of a row without a value for the column.
pub fn say_no_value(column: &str) -> (message: String)
    ensures
        message@ == no_value_text(column@),
{
    let mut message = "row is missing column value: ".to_owned();
    message.append(column);
    message
}

/// The message of a cell that must not be empty.
pub open spec fn empty_cell_text(row_index: int, column: Seq<char>) -> Seq<char> {
    "row "@ + decimal((row_index + 1) as nat) + " column "@ + column + " must not be empty"@
}

/// The message of a cell that must not be empty.
pub fn say_empty_cell(row_index: usize, column: &str) -> (message: String)
    requires
        row_index < usize::MAX,
    ensures
        message@ == empty_cell_text(row_index as int, column@),
{
    let mut message = "row ".to_owned();
    message.append(to_decimal((row_index + 1) as u64).as_str());
    message.append(" column ");
    message.append(column);
    message.append(" must not be empty");
    message
}

/// The number in a cell with the given text, or the message that there is none.
pub open spec fn finite_number(
    text: Seq<char>,
    number: NumberModel,
    column: Seq<char>,
    row_index: int,
) -> Result<i64, Seq<char>> {
    match number {
        NumberModel::Finite { order, shown } => Ok(order),
        NumberModel::Invalid(error) => Err(
            "failed to parse row "@ + decimal((row_index + 1) as nat) + " column "@ + column + ": "@
                + error,
        ),
        NumberModel::NotFinite => Err(
            "row "@ + decimal((row_index + 1) as nat) + " column "@ + column
                + " must be finite, got "@ + text,
        ),
    }
}

/// The number in a cell of a row, or the message that there is none.
pub open spec fn number_in(
    row: Seq<Seq<char>>,
    numbers: Seq<NumberModel>,
    index: int,
    column: Seq<char>,
    row_index: int,
) -> Result<i64, Seq<char>> {
    if index >= row.len() {
        Err(no_value_text(column))
    } else {
        finite_number(row[index], numbers[index], column, row_index)
    }
}

/// What a number that may be missing says.
pub open spec fn order_result(result: Result<i64, String>) -> Result<i64, Seq<char>> {
    match result {
        Ok(order) => Ok(order),
        Err(message) => Err(message@),
    }
}

/// The number in a cell of the row.
pub fn parse_f64_cell(
    row: &Vec<String>,
    numbers: &Vec<Number>,
    index: usize,
    column: &str,
    row_index: usize,
) -> (result: Result<i64, String>)
    requires
        numbers@.len() == row@.len(),
        row_index < usize::MAX,
    ensures
        order_result(result) == number_in(
            texts(row@),
            number_models(numbers@),
            index as int,
            column@,
            row_index as int,
        ),
{
    if index >= row.len() {
        return Err(say_no_value(column));
    }
    assert(number_models(numbers@)[index as int] == numbers@[index as int]@);
    match &numbers[index] {
        Number::Finite { order, shown } => Ok(*order),
        Number::Invalid(error) => {
            let mut message = "failed to parse row ".to_owned();
            message.append(to_decimal((row_index + 1) as u64).as_str());
            message.append(" column ");
            message.append(column);
            message.append(": ");
            message.append(error.as_str());
            Err(message)
        },
        Number::NotFinite => {
            let mut message = "row ".to_owned();
            message.append(to_decimal((row_index + 1) as u64).as_str());
            message.append(" column ");
            message.append(column);
            message.append(" must be finite, got ");
            message.append(row[index].as_str());
            Err(message)
        },
    }
}

/// The numbers of a column, row by row, or why one is missing.
pub open spec fn column_numbers(
    rows: Seq<Seq<Seq<char>>>,
    numbers: Seq<Seq<NumberModel>>,
    index: int,
    column: Seq<char>,
    count: int,
) -> Result<Seq<i64>, Seq<char>>
    decreases count,
{
    if count <= 0 {
        Ok(Seq::empty())
    } else {
        match column_numbers(rows, numbers, index, column, count - 1) {
            Err(message) => Err(message),
            Ok(before) => match number_in(
                rows[count - 1],
                numbers[count - 1],
                index,
                column,
                count - 1,
            ) {
                Err(message) => Err(message),
                Ok(order) => Ok(before.push(order)),
            },
        }
    }
}

proof fn column_numbers_stop(
    rows: Seq<Seq<Seq<char>>>,
    numbers: Seq<Seq<NumberModel>>,
    index: int,
    column: Seq<char>,
    count: int,
    total: int,
)
    requires
        count <= total,
        column_numbers(rows, numbers, index, column, count) is Err,
    ensures
        column_numbers(rows, numbers, index, column, total) == column_numbers(
            rows,
            numbers,
            index,
            column,
            count,
        ),
    decreases total - count,
{
    if count < total {
        column_numbers_stop(rows, numbers, index, column, count, total - 1);
    }
}

/// What a list of numbers that may be missing says.
pub open spec fn orders_result(result: Result<Vec<i64>, String>) -> Result<Seq<i64>, Seq<char>> {
    match result {
        Ok(orders) => Ok(orders@),
        Err(message) => Err(message@),
    }
}

/// The numbers of a column.
pub fn read_column(
    rows: &Vec<Vec<String>>,
    numbers: &Vec<Vec<Number>>,
    index: usize,
    column: &str,
) -> (result: Result<Vec<i64>, String>)
    requires
        numbers_fit(crate::text::text_rows(rows@), number_rows(numbers@)),
    ensures
        orders_result(result) == column_numbers(
            crate::text::text_rows(rows@),
            number_rows(numbers@),
            index as int,
            column@,
            rows@.len() as int,
        ),
{
    let ghost texts_of_rows = crate::text::text_rows(rows@);
    let ghost models = number_rows(numbers@);
    let mut orders: Vec<i64> = Vec::new();
    for i in 0..rows.len()
        invariant
            texts_of_rows == crate::text::text_rows(rows@),
            models == number_rows(numbers@),
            numbers_fit(texts_of_rows, models),
            column_numbers(texts_of_rows, models, index as int, column@, i as int) == Ok::<
                Seq<i64>,
                Seq<char>,
            >(orders@),
    {
        assert(texts_of_rows[i as int] == texts(rows@[i as int]@));
        assert(models[i as int] == number_models(numbers@[i as int]@));
        assert(models[i as int].len() == texts_of_rows[i as int].len());
        match parse_f64_cell(&rows[i], &numbers[i], index, column, i) {
            Ok(order) => {
                orders.push(order);
            },
            Err(message) => {
                proof {
                    column_numbers_stop(
                        texts_of_rows,
                        models,
                        index as int,
                        column@,
                        i + 1,
                        rows@.len() as int,
                    );
                }
                return Err(message);
            },
        }
    }
    Ok(orders)
}

} // verus!
