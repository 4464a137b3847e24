//! What holds of the numbers that are read from the cells of a table.
use vstd::prelude::*;

verus! {

use crate::cells::{at_most, column_numbers, equals, number_in, NumberModel};
use crate::text::decimal;

/// Whether a row has a cell at the place, and a finite number in it.
pub open spec fn has_number(
    row: Seq<Seq<char>>,
    numbers: Seq<NumberModel>,
    at: int,
) -> bool {
    0 <= at < row.len() && numbers[at] is Finite
}

/// Whether the number is that of a row at the place.
pub open spec fn is_number_in(
    value: i64,
    row: Seq<Seq<char>>,
    numbers: Seq<NumberModel>,
    at: int,
) -> bool {
    has_number(row, numbers, at) && value == numbers[at]->order
}

/// Whether a message says why a row has no number at the place: the row is too short, or the text
/// of the cell is no number, or none that is finite. Rows are counted from one.
pub open spec fn says_why_no_number(
    message: Seq<char>,
    row: Seq<Seq<char>>,
    numbers: Seq<NumberModel>,
    at: int,
    column: Seq<char>,
    row_index: int,
) -> bool {
    let number = decimal((row_index + 1) as nat);
    if at >= row.len() {
        message == "row is missing column value: "@ + column
    } else {
        match numbers[at] {
            NumberModel::Invalid(error) => message == "failed to parse row "@ + number
                + " column "@ + column + ": "@ + error,
            NumberModel::NotFinite => message == "row "@ + number + " column "@ + column
                + " must be finite, got "@ + row[at],
            NumberModel::Finite { .. } => false,
        }
    }
}

/// A cell gives the number that it holds, and a message just where it holds none.
pub proof fn cell_gives_its_number(
    row: Seq<Seq<char>>,
    numbers: Seq<NumberModel>,
    at: int,
    column: Seq<char>,
    row_index: int,
)
    requires
        0 <= at,
    ensures
        number_in(row, numbers, at, column, row_index) is Ok <==> has_number(row, numbers, at),
        match number_in(row, numbers, at, column, row_index) {
            Ok(order) => numbers[at] matches NumberModel::Finite { order: there, .. } && there
                == order,
            Err(message) => says_why_no_number(message, row, numbers, at, column, row_index),
        },
{
}

/// A column gives the number of each row, in the order of the rows; or what the first row
/// without a number says.
pub proof fn column_gives_its_numbers(
    rows: Seq<Seq<Seq<char>>>,
    numbers: Seq<Seq<NumberModel>>,
    at: int,
    column: Seq<char>,
    count: int,
)
    requires
        0 <= at,
        0 <= count,
    ensures
        match column_numbers(rows, numbers, at, column, count) {
            Ok(values) => values.len() == count && forall|i: int|
                0 <= i < count ==> is_number_in(#[trigger] values[i], rows[i], numbers[i], at),
            Err(message) => exists|bad: int|
                0 <= bad < count && !has_number(#[trigger] rows[bad], numbers[bad], at)
                    && says_why_no_number(message, rows[bad], numbers[bad], at, column, bad)
                    && forall|i: int|
                    0 <= i < bad ==> has_number(#[trigger] rows[i], numbers[i], at),
        },
    decreases count,
{
    if count > 0 {
        column_gives_its_numbers(rows, numbers, at, column, count - 1);
        let last = count - 1;
        cell_gives_its_number(rows[last], numbers[last], at, column, last);
        match column_numbers(rows, numbers, at, column, last) {
            Ok(values) => {
                assert forall|i: int| 0 <= i < last implies has_number(
                    #[trigger] rows[i],
                    numbers[i],
                    at,
                ) by {
                    assert(is_number_in(values[i], rows[i], numbers[i], at));
                }
                if let Ok(all) = column_numbers(rows, numbers, at, column, count) {
                    assert forall|i: int| 0 <= i < count implies is_number_in(
                        #[trigger] all[i],
                        rows[i],
                        numbers[i],
                        at,
                    ) by {
                        if i < last {
                            assert(all[i] == values[i]);
                        }
                    }
                } else {
                    assert(!has_number(rows[last], numbers[last], at));
                }
            },
            Err(message) => {
                let bad = choose|bad: int|
                    0 <= bad < last && !has_number(#[trigger] rows[bad], numbers[bad], at)
                        && says_why_no_number(message, rows[bad], numbers[bad], at, column, bad)
                        && forall|i: int|
                        0 <= i < bad ==> has_number(#[trigger] rows[i], numbers[i], at);
                assert(!has_number(rows[bad], numbers[bad], at));
            },
        }
    }
}

/// Numbers are in the order of their places, but for the two zeros, which are equal.
pub proof fn numbers_go_by_their_places(left: i64, right: i64)
    ensures
        left <= right ==> at_most(left, right),
        at_most(left, right) && left > right ==> left == 0 && right == -1,
        equals(left, right) <==> left == right || (left == 0 && right == -1) || (left == -1
            && right == 0),
{
}

} // verus!
