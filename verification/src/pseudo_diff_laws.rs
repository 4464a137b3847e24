//! What holds of the changes between the rows of a table.
use vstd::prelude::*;

use crate::csv_pseudo_diff::OutputRow;

verus! {

use crate::cell_laws::{cell_gives_its_number, has_number, says_why_no_number};
use crate::cells::NumberModel;
use crate::csv_pseudo_diff::{fields_of, fields_upto, output_rows, result_rows};
use crate::list_laws::{first_is_unique, found_at_first_place, is_first_at};
use crate::text::{decimal, first_place};

/// Whether a row of the table can have a row in the result: it has a finite time and value, and
/// there is a change since the row before, unless it is the first.
pub open spec fn row_is_usable(
    rows: Seq<Seq<Seq<char>>>,
    numbers: Seq<Seq<NumberModel>>,
    changes: Seq<Option<Seq<char>>>,
    time_at: int,
    value_at: int,
    i: int,
) -> bool {
    &&& has_number(rows[i], numbers[i], time_at)
    &&& has_number(rows[i], numbers[i], value_at)
    &&& i > 0 ==> changes[i] is Some
}

/// Whether a row of the result shows a row of the table: the time, the value, and the change since
/// the row before, which the first has not.
pub open spec fn shows_row(
    made: Seq<Seq<char>>,
    rows: Seq<Seq<Seq<char>>>,
    numbers: Seq<Seq<NumberModel>>,
    changes: Seq<Option<Seq<char>>>,
    time_at: int,
    value_at: int,
    i: int,
) -> bool {
    &&& row_is_usable(rows, numbers, changes, time_at, value_at, i)
    &&& made.len() == 3
    &&& made[0] == rows[i][time_at]
    &&& made[1] == rows[i][value_at]
    &&& i == 0 ==> made[2].len() == 0
    &&& i > 0 ==> made[2] == changes[i]->0
}

/// Whether a message says why a row of the table has no row in the result.
pub open spec fn says_why_unusable(
    message: Seq<char>,
    rows: Seq<Seq<Seq<char>>>,
    numbers: Seq<Seq<NumberModel>>,
    changes: Seq<Option<Seq<char>>>,
    time_at: int,
    time_column: Seq<char>,
    value_at: int,
    value_column: Seq<char>,
    i: int,
) -> bool {
    ||| !has_number(rows[i], numbers[i], time_at) && says_why_no_number(
        message,
        rows[i],
        numbers[i],
        time_at,
        time_column,
        i,
    )
    ||| !has_number(rows[i], numbers[i], value_at) && says_why_no_number(
        message,
        rows[i],
        numbers[i],
        value_at,
        value_column,
        i,
    )
    ||| i > 0 && changes[i] is None && message == "time delta became non-finite or zero at row "@
        + decimal((i + 1) as nat) + ": "@ + rows[i][time_at]
}

proof fn row_is_made(
    rows: Seq<Seq<Seq<char>>>,
    numbers: Seq<Seq<NumberModel>>,
    changes: Seq<Option<Seq<char>>>,
    time_at: int,
    time_column: Seq<char>,
    value_at: int,
    value_column: Seq<char>,
    i: int,
)
    requires
        0 <= time_at,
        0 <= value_at,
    ensures
        match fields_of(
            rows[i],
            numbers[i],
            changes[i],
            time_at,
            value_at,
            time_column,
            value_column,
            i,
        ) {
            Ok(made) => {
                &&& row_is_usable(rows, numbers, changes, time_at, value_at, i) || i < 0
                &&& made.len() == 3
                &&& made[0] == rows[i][time_at]
                &&& made[1] == rows[i][value_at]
                &&& i == 0 ==> made[2].len() == 0
                &&& i > 0 ==> made[2] == changes[i]->0
            },
            Err(message) => i >= 0 ==> !row_is_usable(
                rows,
                numbers,
                changes,
                time_at,
                value_at,
                i,
            ) && says_why_unusable(
                message,
                rows,
                numbers,
                changes,
                time_at,
                time_column,
                value_at,
                value_column,
                i,
            ),
        },
{
    cell_gives_its_number(rows[i], numbers[i], time_at, time_column, i);
    cell_gives_its_number(rows[i], numbers[i], value_at, value_column, i);
}

proof fn rows_are_made(
    rows: Seq<Seq<Seq<char>>>,
    numbers: Seq<Seq<NumberModel>>,
    changes: Seq<Option<Seq<char>>>,
    time_at: int,
    time_column: Seq<char>,
    value_at: int,
    value_column: Seq<char>,
    count: int,
)
    requires
        0 <= time_at,
        0 <= value_at,
        0 <= count,
    ensures
        match fields_upto(
            rows,
            numbers,
            changes,
            time_at,
            value_at,
            time_column,
            value_column,
            count,
        ) {
            Ok(made) => made.len() == count && forall|i: int|
                0 <= i < count ==> shows_row(#[trigger] made[i], rows, numbers, changes, time_at, value_at, i),
            Err(message) => exists|bad: int|
                0 <= bad < count && !(#[trigger] row_is_usable(
                    rows,
                    numbers,
                    changes,
                    time_at,
                    value_at,
                    bad,
                )) && says_why_unusable(
                    message,
                    rows,
                    numbers,
                    changes,
                    time_at,
                    time_column,
                    value_at,
                    value_column,
                    bad,
                ) && forall|i: int|
                    0 <= i < bad ==> #[trigger] row_is_usable(
                        rows,
                        numbers,
                        changes,
                        time_at,
                        value_at,
                        i,
                    ),
        },
    decreases count,
{
    if count > 0 {
        let last = count - 1;
        rows_are_made(
            rows,
            numbers,
            changes,
            time_at,
            time_column,
            value_at,
            value_column,
            last,
        );
        row_is_made(
            rows,
            numbers,
            changes,
            time_at,
            time_column,
            value_at,
            value_column,
            last,
        );
        match fields_upto(
            rows,
            numbers,
            changes,
            time_at,
            value_at,
            time_column,
            value_column,
            last,
        ) {
            Ok(before) => {
                assert forall|i: int| 0 <= i < last implies #[trigger] row_is_usable(
                    rows,
                    numbers,
                    changes,
                    time_at,
                    value_at,
                    i,
                ) by {
                    assert(shows_row(before[i], rows, numbers, changes, time_at, value_at, i));
                }
                if let Ok(made) = fields_upto(
                    rows,
                    numbers,
                    changes,
                    time_at,
                    value_at,
                    time_column,
                    value_column,
                    count,
                ) {
                    assert forall|i: int| 0 <= i < count implies shows_row(#[trigger] made[i], rows, numbers, changes, time_at, value_at, i) by {
                        if i < last {
                            assert(made[i] == before[i]);
                        }
                    }
                }
            },
            Err(message) => {},
        }
    }
}

/// Where rows come out, there is one for each row of the table, in order: its time is the cell
/// under the first header that is the time column, its value the cell under the first header that
/// is the value column, and its change the one since the row before; the first has none. They
/// come out just where the scale can be used, both columns are there, and every row has finite
/// numbers and a change.
pub proof fn rows_show_the_columns_asked_for(
    headers: Seq<Seq<char>>,
    rows: Seq<Seq<Seq<char>>>,
    numbers: Seq<Seq<NumberModel>>,
    changes: Seq<Option<Seq<char>>>,
    time_column: Seq<char>,
    value_column: Seq<char>,
    scale_is_usable: bool,
    time_at: int,
    value_at: int,
)
    requires
        is_first_at(headers, time_column, time_at),
        is_first_at(headers, value_column, value_at),
    ensures
        match result_rows(
            headers,
            rows,
            numbers,
            changes,
            time_column,
            value_column,
            scale_is_usable,
        ) {
            Ok(made) => {
                &&& scale_is_usable
                &&& made.len() == rows.len()
                &&& forall|i: int|
                    0 <= i < rows.len() ==> shows_row(#[trigger] made[i], rows, numbers, changes, time_at, value_at, i)
            },
            Err(message) => {
                ||| !scale_is_usable && message == "time_scale must be finite and non-zero"@
                ||| scale_is_usable && exists|bad: int|
                    0 <= bad < rows.len() && !(#[trigger] row_is_usable(
                        rows,
                        numbers,
                        changes,
                        time_at,
                        value_at,
                        bad,
                    )) && says_why_unusable(
                        message,
                        rows,
                        numbers,
                        changes,
                        time_at,
                        time_column,
                        value_at,
                        value_column,
                        bad,
                    ) && forall|i: int|
                        0 <= i < bad ==> #[trigger] row_is_usable(
                            rows,
                            numbers,
                            changes,
                            time_at,
                            value_at,
                            i,
                        )
            },
        },
{
    assert(headers.contains(time_column) && headers.contains(value_column));
    found_at_first_place(headers, time_column);
    found_at_first_place(headers, value_column);
    first_is_unique(headers, time_column, time_at, first_place(headers, time_column));
    first_is_unique(headers, value_column, value_at, first_place(headers, value_column));
    rows_are_made(
        rows,
        numbers,
        changes,
        time_at,
        time_column,
        value_at,
        value_column,
        rows.len() as int,
    );
}

/// Where a column that is asked for is not there, that is what is said; first of all what is
/// wrong with the scale.
pub proof fn missing_columns_are_told(
    headers: Seq<Seq<char>>,
    rows: Seq<Seq<Seq<char>>>,
    numbers: Seq<Seq<NumberModel>>,
    changes: Seq<Option<Seq<char>>>,
    time_column: Seq<char>,
    value_column: Seq<char>,
)
    requires
        !headers.contains(time_column) || !headers.contains(value_column),
    ensures
        result_rows(headers, rows, numbers, changes, time_column, value_column, true) == Err::<
            Seq<Seq<Seq<char>>>,
            Seq<char>,
        >("column not found: "@ + (if headers.contains(time_column) {
            value_column
        } else {
            time_column
        })),
        result_rows(headers, rows, numbers, changes, time_column, value_column, false) == Err::<
            Seq<Seq<Seq<char>>>,
            Seq<char>,
        >("time_scale must be finite and non-zero"@),
{
}

/// A row of the result is written with its time first, then its value, then its change.
pub proof fn fields_are_written_in_order(rows: Seq<OutputRow>, i: int)
    requires
        0 <= i < rows.len(),
    ensures
        output_rows(rows).len() == rows.len(),
        output_rows(rows)[i].len() == 3,
        output_rows(rows)[i][0] == rows[i].time@,
        output_rows(rows)[i][1] == rows[i].value@,
        output_rows(rows)[i][2] == rows[i].pseudo_diff@,
{
}

} // verus!
