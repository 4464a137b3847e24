//! What holds of the values that stand out.
use vstd::prelude::*;

use crate::csv_anomaly_detect::{Judged, Residual, Side, Step};

verus! {

use crate::cell_laws::{column_gives_its_numbers, has_number, is_number_in};
use crate::cells::{column_numbers, NumberModel};
use crate::csv_anomaly_detect::{
    bare, bits_say_what_they_stand_for, columns_of, first_not_above, first_taken, is_spike,
    marked_step, mask_headers, mask_of, masked_rows, masks_of, middle_of, neighbors_before, neighbors_of,
    residual_at, step_at, step_to, ys_of,
};
use crate::list_laws::{first_is_unique, found_at_first_place, go_upwards, is_first_at};
use crate::points::{in_order, placed, sorted, sorted_is_sorted};
use crate::text::{decimal, first_place};

/// Whether a value lies further from the trend than another, where that has a distance from it.
pub open spec fn lies_further(here: Residual, other: Option<Residual>) -> bool {
    match other {
        None => true,
        Some(other) => match (here.size, other.size) {
            (Some(size), Some(other_size)) => size > other_size,
            _ => false,
        },
    }
}

/// Every row strictly between the first and the last that lies far from the trend, and further
/// than each neighbour which has a distance from it, has the bit of its side in its mask: 1 above
/// and 2 below. No other row has one of these bits. So they depend on nothing but the row and its
/// two neighbours.
pub proof fn spikes_are_marked(values: Seq<Judged>, index: int)
    requires
        0 <= index < values.len(),
    ensures
        ({
            let far = 0 < index && index + 1 < values.len() && values[index].is_large
                && values[index].residual is Some && lies_further(
                values[index].residual->0,
                values[index - 1].residual,
            ) && lies_further(values[index].residual->0, values[index + 1].residual);
            &&& mask_of(values, index) & 1 != 0 <==> far && values[index].residual->0.side
                == Side::Above
            &&& mask_of(values, index) & 2 != 0 <==> far && values[index].residual->0.side
                == Side::Below
        }),
{
    bits_say_what_they_stand_for(values, index);
}

/// Whether the values step up from one place to the next: both lie far from the trend, the first
/// below it and the second above, with a jump between them.
pub open spec fn steps_up(values: Seq<Judged>, to: int) -> bool {
    &&& 1 < to < values.len() - 1
    &&& values[to - 1].is_large
    &&& values[to].is_large
    &&& values[to].is_jump
    &&& values[to - 1].residual matches Some(before) && before.side == Side::Below
    &&& values[to].residual matches Some(here) && here.side == Side::Above
}

/// Whether the values step down from one place to the next.
pub open spec fn steps_down(values: Seq<Judged>, to: int) -> bool {
    &&& 1 < to < values.len() - 1
    &&& values[to - 1].is_large
    &&& values[to].is_large
    &&& values[to].is_jump
    &&& values[to - 1].residual matches Some(before) && before.side == Side::Above
    &&& values[to].residual matches Some(here) && here.side == Side::Below
}

/// A row has the bit of a step up, 4, only if the values step up to it or from it, and that of a
/// step down, 8, only if they step down.
pub proof fn step_bits_mark_steps(values: Seq<Judged>, index: int)
    requires
        0 <= index < values.len(),
    ensures
        mask_of(values, index) & 4 != 0 ==> steps_up(values, index) || steps_up(values, index + 1),
        mask_of(values, index) & 8 != 0 ==> steps_down(values, index) || steps_down(
            values,
            index + 1,
        ),
{
    bits_say_what_they_stand_for(values, index);
}

/// Whether a row is a spike: it lies strictly between the first and the last, far from the trend,
/// and further than each neighbour which has a distance from it.
pub open spec fn is_far_peak(values: Seq<Judged>, index: int) -> bool {
    &&& 0 < index < values.len() - 1
    &&& values[index].is_large
    &&& values[index].residual is Some
    &&& lies_further(values[index].residual->0, values[index - 1].residual)
    &&& lies_further(values[index].residual->0, values[index + 1].residual)
}

/// Whether a step to a row belongs to it: the row before does not lie further from the trend.
pub open spec fn has_step_to(values: Seq<Judged>, index: int) -> bool {
    (steps_up(values, index) || steps_down(values, index)) && !lies_further(
        values[index - 1].residual->0,
        values[index].residual,
    )
}

/// Whether a step from a row belongs to it: the row lies further from the trend than the next.
pub open spec fn has_step_from(values: Seq<Judged>, index: int) -> bool {
    (steps_up(values, index + 1) || steps_down(values, index + 1)) && lies_further(
        values[index].residual->0,
        values[index + 1].residual,
    )
}

/// Whether a step that belongs to a row is marked there: the row is a spike, or neither of its
/// neighbours is, and no step belongs to the row before.
pub open spec fn may_mark_a_step(values: Seq<Judged>, index: int) -> bool {
    is_far_peak(values, index) || (!is_far_peak(values, index - 1) && !is_far_peak(
        values,
        index + 1,
    ) && !has_step_to(values, index - 1) && !has_step_from(values, index - 1))
}

/// A row has the bit 4 just where a step up that belongs to it is marked, and the bit 8 just where
/// a step down is; the step to a row comes before the step from it.
pub proof fn steps_are_marked(values: Seq<Judged>, index: int)
    requires
        0 <= index < values.len(),
    ensures
        mask_of(values, index) & 4 != 0 <==> may_mark_a_step(values, index) && (if has_step_to(
            values,
            index,
        ) {
            steps_up(values, index)
        } else {
            has_step_from(values, index) && steps_up(values, index + 1)
        }),
        mask_of(values, index) & 8 != 0 <==> may_mark_a_step(values, index) && (if has_step_to(
            values,
            index,
        ) {
            steps_down(values, index)
        } else {
            has_step_from(values, index) && steps_down(values, index + 1)
        }),
{
    bits_say_what_they_stand_for(values, index);
    spikes_are_far_peaks(values, index);
    spikes_are_far_peaks(values, index - 1);
    spikes_are_far_peaks(values, index + 1);
    steps_belong(values, index);
    steps_belong(values, index - 1);
    assert(marked_step(values, index) is Some ==> may_mark_a_step(values, index));
}

proof fn spikes_are_far_peaks(values: Seq<Judged>, index: int)
    ensures
        is_spike(values, index) <==> is_far_peak(values, index),
{
}

proof fn steps_belong(values: Seq<Judged>, index: int)
    ensures
        step_at(values, index) is Some <==> has_step_to(values, index) || has_step_from(
            values,
            index,
        ),
        step_at(values, index) == Some(Step::Up) <==> (if has_step_to(values, index) {
            steps_up(values, index)
        } else {
            has_step_from(values, index) && steps_up(values, index + 1)
        }),
        step_at(values, index) == Some(Step::Down) <==> (if has_step_to(values, index) {
            steps_down(values, index)
        } else {
            has_step_from(values, index) && steps_down(values, index + 1)
        }),
{
    assert(step_to(values, index) == Some(Step::Up) <==> steps_up(values, index));
    assert(step_to(values, index) == Some(Step::Down) <==> steps_down(values, index));
    assert(step_to(values, index + 1) == Some(Step::Up) <==> steps_up(values, index + 1));
    assert(step_to(values, index + 1) == Some(Step::Down) <==> steps_down(values, index + 1));
}

/// A step with nothing that is far from the trend on either side of it is marked once: at that of
/// its two rows which lies further from the trend, and at the second where neither does.
pub proof fn lone_step_is_marked(values: Seq<Judged>, to: int)
    requires
        steps_up(values, to) || steps_down(values, to),
        !values[to - 2].is_large,
        !values[to + 1].is_large,
    ensures
        ({
            let first_is_further = lies_further(
                values[to - 1].residual->0,
                values[to].residual,
            );
            let at = if first_is_further {
                to - 1
            } else {
                to
            };
            let other = if first_is_further {
                to
            } else {
                to - 1
            };
            &&& mask_of(values, other) == 0
            &&& mask_of(values, at) & 4 != 0 <==> steps_up(values, to)
            &&& mask_of(values, at) & 8 != 0 <==> steps_down(values, to)
        }),
{
    bits_say_what_they_stand_for(values, to);
    bits_say_what_they_stand_for(values, to - 1);
    assert(step_to(values, to) is Some);
    assert(step_to(values, to - 1) is None);
    assert(step_to(values, to + 1) is None);
    assert(step_to(values, to - 2) is None || !steps_up(values, to - 1));
    assert(residual_at(values, to) is Some && residual_at(values, to - 1) is Some);
    assert(!is_spike(values, to - 2));
    assert(!is_spike(values, to + 1));
    assert(step_at(values, to - 2) is Some ==> step_to(values, to - 2) is Some);
    if step_to(values, to - 2) is Some {
        assert(values[to - 2].is_large);
    }
    assert(step_at(values, to - 2) is None);
}

/// Each row has a mask for each column, and it is that of the column at the row.
pub proof fn masks_are_those_of_the_columns(
    columns: Seq<Seq<Judged>>,
    row_count: nat,
    row: int,
    column: int,
)
    requires
        0 <= row < row_count,
        0 <= column < columns.len(),
    ensures
        masks_of(columns, row_count).len() == row_count,
        masks_of(columns, row_count)[row].len() == columns.len(),
        masks_of(columns, row_count)[row][column] == mask_of(columns[column], row),
{
}

/// The masks stand behind the rows, in decimal digits and in the order of the columns, and the
/// names of the columns behind the headers.
pub proof fn masks_stand_behind_the_rows(
    rows: Seq<Seq<Seq<char>>>,
    masks: Seq<Seq<u32>>,
    y_columns: Seq<Seq<char>>,
)
    requires
        rows.len() == masks.len(),
    ensures
        masked_rows(rows, masks).len() == rows.len(),
        forall|i: int|
            0 <= i < rows.len() ==> (#[trigger] masked_rows(rows, masks)[i]).len() == rows[i].len()
                + masks[i].len(),
        forall|i: int, k: int|
            0 <= i < rows.len() && 0 <= k < rows[i].len() ==> #[trigger] masked_rows(
                rows,
                masks,
            )[i][k] == rows[i][k],
        forall|i: int, k: int|
            0 <= i < rows.len() && rows[i].len() <= k < rows[i].len() + masks[i].len()
                ==> #[trigger] masked_rows(rows, masks)[i][k] == decimal(
                masks[i][k - rows[i].len()] as nat,
            ),
        mask_headers(y_columns).len() == y_columns.len(),
        forall|j: int|
            0 <= j < y_columns.len() ==> #[trigger] mask_headers(y_columns)[j] == y_columns[j]
                + "_anomaly_mask"@,
{
}

proof fn none_taken(headers: Seq<Seq<char>>, names: Seq<Seq<char>>)
    ensures
        match first_taken(headers, names) {
            None => forall|k: int| 0 <= k < names.len() ==> !headers.contains(#[trigger] names[k]),
            Some(name) => names.contains(name) && headers.contains(name),
        },
    decreases names.len(),
{
    if names.len() > 0 && !headers.contains(names[0]) {
        let rest = names.drop_first();
        none_taken(headers, rest);
        match first_taken(headers, names) {
            None => {
                assert forall|k: int| 0 <= k < names.len() implies !headers.contains(
                    #[trigger] names[k],
                ) by {
                    if k > 0 {
                        assert(rest[k - 1] == names[k]);
                    }
                }
            },
            Some(name) => {
                let k = choose|k: int| 0 <= k < rest.len() && rest[k] == name;
                assert(names[k + 1] == name);
            },
        }
    } else if names.len() > 0 {
        assert(names.contains(names[0]));
    }
}

/// Whether a number lies above another: its place is higher, and they are not the two zeros.
pub open spec fn lies_above(value: i64, other: i64) -> bool {
    value > other && !(value == 0 && other == -1)
}

proof fn all_above(values: Seq<i64>, from: int)
    requires
        0 <= from,
    ensures
        match first_not_above(values, from) {
            None => forall|k: int|
                from <= k < values.len() && k > 0 ==> lies_above(#[trigger] values[k], values[k - 1]),
            Some(at) => from <= at < values.len() && at > 0 && !lies_above(
                values[at],
                values[at - 1],
            ) && forall|k: int|
                from <= k < at && k > 0 ==> lies_above(#[trigger] values[k], values[k - 1]),
        },
    decreases values.len() - from,
{
    if from < values.len() && !(from > 0 && !lies_above(values[from], values[from - 1])) {
        all_above(values, from + 1);
    }
}

/// Whether the numbers are those of a column of the table, row by row.
pub open spec fn are_numbers_of(
    values: Seq<i64>,
    rows: Seq<Seq<Seq<char>>>,
    numbers: Seq<Seq<NumberModel>>,
    at: int,
) -> bool {
    &&& values.len() == rows.len()
    &&& forall|i: int|
        0 <= i < rows.len() ==> is_number_in(#[trigger] values[i], rows[i], numbers[i], at)
}

/// Whether the numbers are those of a column of the table with a name, row by row.
spec fn are_numbers_under(
    values: Seq<i64>,
    headers: Seq<Seq<char>>,
    rows: Seq<Seq<Seq<char>>>,
    numbers: Seq<Seq<NumberModel>>,
    column: Seq<char>,
) -> bool {
    headers.contains(column) && are_numbers_of(
        values,
        rows,
        numbers,
        first_place(headers, column),
    )
}

proof fn y_columns_are_read(
    headers: Seq<Seq<char>>,
    rows: Seq<Seq<Seq<char>>>,
    numbers: Seq<Seq<NumberModel>>,
    y_columns: Seq<Seq<char>>,
    count: int,
)
    requires
        0 <= count <= y_columns.len(),
    ensures
        ys_of(headers, rows, numbers, y_columns, count) matches Ok(ys) ==> ys.len() == count
            && forall|j: int|
            0 <= j < count ==> are_numbers_under(
                #[trigger] ys[j],
                headers,
                rows,
                numbers,
                y_columns[j],
            ),
    decreases count,
{
    if count > 0 {
        let column = y_columns[count - 1];
        y_columns_are_read(headers, rows, numbers, y_columns, count - 1);
        found_at_first_place(headers, column);
        if headers.contains(column) {
            column_gives_its_numbers(
                rows,
                numbers,
                first_place(headers, column),
                column,
                rows.len() as int,
            );
        }
        if let Ok(ys) = ys_of(headers, rows, numbers, y_columns, count) {
            let before = ys_of(headers, rows, numbers, y_columns, count - 1)->Ok_0;
            assert forall|j: int| 0 <= j < count implies are_numbers_under(
                #[trigger] ys[j],
                headers,
                rows,
                numbers,
                y_columns[j],
            ) by {
                if j < count - 1 {
                    assert(ys[j] == before[j]);
                }
            }
        }
    }
}

/// The values that are judged are the numbers under the first header with the asked name, row by
/// row; those of x go strictly upwards, and no header has the name of a column that is added.
pub proof fn columns_are_those_asked_for(
    headers: Seq<Seq<char>>,
    rows: Seq<Seq<Seq<char>>>,
    numbers: Seq<Seq<NumberModel>>,
    x_column: Seq<char>,
    y_columns: Seq<Seq<char>>,
    x_at: int,
    y: int,
    y_at: int,
)
    requires
        is_first_at(headers, x_column, x_at),
        0 <= y < y_columns.len(),
        is_first_at(headers, y_columns[y], y_at),
    ensures
        columns_of(headers, rows, numbers, x_column, y_columns) matches Ok((xs, ys)) ==> {
            &&& are_numbers_of(xs, rows, numbers, x_at)
            &&& forall|k: int| 0 < k < xs.len() ==> lies_above(#[trigger] xs[k], xs[k - 1])
            &&& ys.len() == y_columns.len()
            &&& are_numbers_of(ys[y], rows, numbers, y_at)
            &&& !headers.contains(y_columns[y] + "_anomaly_mask"@)
        },
{
    if let Ok((xs, ys)) = columns_of(headers, rows, numbers, x_column, y_columns) {
        let names = mask_headers(y_columns);
        none_taken(headers, names);
        assert(!headers.contains(names[y]));
        assert(headers.contains(x_column));
        found_at_first_place(headers, x_column);
        first_is_unique(headers, x_column, x_at, first_place(headers, x_column));
        column_gives_its_numbers(rows, numbers, x_at, x_column, rows.len() as int);
        all_above(xs, 0);
        y_columns_are_read(headers, rows, numbers, y_columns, y_columns.len() as int);
        assert(are_numbers_under(ys[y], headers, rows, numbers, y_columns[y]));
        found_at_first_place(headers, y_columns[y]);
        first_is_unique(headers, y_columns[y], y_at, first_place(headers, y_columns[y]));
    }
}

/// Columns come out where nothing stands against it: all that are asked for are there, no header
/// has the name of one that is added, all their cells hold finite numbers, and those of x go
/// strictly upwards.
pub proof fn usable_columns_are_read(
    headers: Seq<Seq<char>>,
    rows: Seq<Seq<Seq<char>>>,
    numbers: Seq<Seq<NumberModel>>,
    x_column: Seq<char>,
    y_columns: Seq<Seq<char>>,
    x_at: int,
)
    requires
        is_first_at(headers, x_column, x_at),
        forall|i: int| 0 <= i < rows.len() ==> has_number(#[trigger] rows[i], numbers[i], x_at),
        forall|i: int|
            0 < i < rows.len() ==> lies_above(
                (#[trigger] numbers[i])[x_at]->order,
                numbers[i - 1][x_at]->order,
            ),
        forall|j: int|
            0 <= j < y_columns.len() ==> headers.contains(#[trigger] y_columns[j])
                && !headers.contains(y_columns[j] + "_anomaly_mask"@),
        forall|i: int, at: int|
            0 <= i < rows.len() && 0 <= at < headers.len() && y_columns.contains(headers[at])
                ==> #[trigger] has_number(rows[i], numbers[i], at),
    ensures
        columns_of(headers, rows, numbers, x_column, y_columns) is Ok,
{
    let names = mask_headers(y_columns);
    none_taken(headers, names);
    if let Some(name) = first_taken(headers, names) {
        let j = choose|j: int| 0 <= j < names.len() && names[j] == name;
        assert(!headers.contains(y_columns[j] + "_anomaly_mask"@));
    }
    assert(headers.contains(x_column));
    found_at_first_place(headers, x_column);
    first_is_unique(headers, x_column, x_at, first_place(headers, x_column));
    column_gives_its_numbers(rows, numbers, x_at, x_column, rows.len() as int);
    let read = column_numbers(rows, numbers, x_at, x_column, rows.len() as int);
    assert(read is Ok);
    let xs = read->Ok_0;
    all_above(xs, 0);
    if let Some(at) = first_not_above(xs, 0) {
        assert(is_number_in(xs[at], rows[at], numbers[at], x_at));
        assert(is_number_in(xs[at - 1], rows[at - 1], numbers[at - 1], x_at));
        assert(lies_above(numbers[at][x_at]->order, numbers[at - 1][x_at]->order));
    }
    y_columns_can_be_read(headers, rows, numbers, y_columns, y_columns.len() as int);
}

proof fn y_columns_can_be_read(
    headers: Seq<Seq<char>>,
    rows: Seq<Seq<Seq<char>>>,
    numbers: Seq<Seq<NumberModel>>,
    y_columns: Seq<Seq<char>>,
    count: int,
)
    requires
        0 <= count <= y_columns.len(),
        forall|j: int| 0 <= j < y_columns.len() ==> headers.contains(#[trigger] y_columns[j]),
        forall|i: int, at: int|
            0 <= i < rows.len() && 0 <= at < headers.len() && y_columns.contains(headers[at])
                ==> #[trigger] has_number(rows[i], numbers[i], at),
    ensures
        ys_of(headers, rows, numbers, y_columns, count) is Ok,
    decreases count,
{
    if count > 0 {
        let column = y_columns[count - 1];
        y_columns_can_be_read(headers, rows, numbers, y_columns, count - 1);
        found_at_first_place(headers, column);
        let at = first_place(headers, column);
        column_gives_its_numbers(rows, numbers, at, column, rows.len() as int);
        if column_numbers(rows, numbers, at, column, rows.len() as int) is Err {
            let bad = choose|bad: int|
                0 <= bad < rows.len() && !has_number(#[trigger] rows[bad], numbers[bad], at);
            assert(y_columns.contains(headers[at]));
            assert(has_number(rows[bad], numbers[bad], at));
        }
    }
}

/// Whether a place is at most two away from another, but not that place, and present.
pub open spec fn is_near(present: Seq<bool>, index: int, place: int) -> bool {
    &&& 0 <= place < present.len()
    &&& index - 2 <= place <= index + 2
    &&& place != index
    &&& present[place]
}

proof fn neighbors_before_are(present: Seq<bool>, index: int, end: int)
    requires
        end <= present.len(),
        end <= index + 3,
    ensures
        ({
            let places = neighbors_before(present, index, end);
            &&& go_upwards(places)
            &&& forall|i: int| 0 <= i < places.len() ==> #[trigger] places[i] < end
            &&& forall|k: int| #[trigger]
                places.contains(k) <==> k < end && is_near(present, index, k)
        }),
    decreases end,
{
    let places = neighbors_before(present, index, end);
    if end <= 0 || end <= index - 2 {
    } else {
        let before = neighbors_before(present, index, end - 1);
        neighbors_before_are(present, index, end - 1);
        assert forall|k: int| #[trigger] places.contains(k) <==> k < end && is_near(
            present,
            index,
            k,
        ) by {
            assert(before.contains(k) <==> k < end - 1 && is_near(present, index, k));
            if places.contains(k) {
                let m = choose|m: int| 0 <= m < places.len() && places[m] == k;
                if m < before.len() {
                    assert(before[m] == k);
                    assert(before.contains(k));
                }
            }
            if before.contains(k) {
                let m = choose|m: int| 0 <= m < before.len() && before[m] == k;
                assert(places[m] == k);
            }
            if k == end - 1 && k != index && present[k] {
                assert(places[places.len() - 1] == k);
            }
        }
    }
}

/// A distance from the trend is held against those of all rows that are at most two away, but not
/// against itself.
pub proof fn distances_are_held_against_near_ones(present: Seq<bool>, index: int)
    requires
        0 <= index < present.len(),
    ensures
        go_upwards(neighbors_of(present, index)),
        forall|k: int| #[trigger]
            neighbors_of(present, index).contains(k) <==> is_near(present, index, k),
{
    neighbors_before_are(
        present,
        index,
        if index + 3 < present.len() {
            index + 3
        } else {
            present.len() as int
        },
    );
}

/// How many of the values are at most a limit.
pub open spec fn count_upto(values: Seq<i64>, limit: i64) -> nat
    decreases values.len(),
{
    if values.len() == 0 {
        0
    } else {
        count_upto(values.drop_last(), limit) + (if values.last() <= limit {
            1nat
        } else {
            0nat
        })
    }
}

/// How many of the values are less than a limit.
pub open spec fn count_below(values: Seq<i64>, limit: i64) -> nat
    decreases values.len(),
{
    if values.len() == 0 {
        0
    } else {
        count_below(values.drop_last(), limit) + (if values.last() < limit {
            1nat
        } else {
            0nat
        })
    }
}

/// How many of the pairs have a first item up to a limit, or less than it.
spec fn count_pairs<T>(list: Seq<(i64, T)>, limit: i64, strictly: bool) -> nat
    decreases list.len(),
{
    if list.len() == 0 {
        0
    } else {
        count_pairs(list.drop_last(), limit, strictly) + (if list.last().0 < limit || (!strictly
            && list.last().0 == limit) {
            1nat
        } else {
            0nat
        })
    }
}

proof fn placing_counts<T>(list: Seq<(i64, T)>, item: (i64, T), limit: i64, strictly: bool)
    ensures
        count_pairs(placed(list, item), limit, strictly) == count_pairs(list, limit, strictly) + (
        if item.0 < limit || (!strictly && item.0 == limit) {
            1nat
        } else {
            0nat
        }),
    decreases list.len(),
{
    if list.len() == 0 {
        assert(placed(list, item) == seq![item]);
        reveal_with_fuel(count_pairs, 2);
        assert(seq![item].drop_last() == Seq::<(i64, T)>::empty());
    } else if list.last().0 > item.0 {
        placing_counts(list.drop_last(), item, limit, strictly);
        let whole = placed(list, item);
        assert(whole.drop_last() == placed(list.drop_last(), item));
        assert(whole.last() == list.last());
    } else {
        assert(placed(list, item) == list.push(item));
        assert(list.push(item).drop_last() == list);
    }
}

proof fn sorting_counts<T>(list: Seq<(i64, T)>, limit: i64, strictly: bool)
    ensures
        count_pairs(sorted(list), limit, strictly) == count_pairs(list, limit, strictly),
    decreases list.len(),
{
    if list.len() > 0 {
        sorting_counts(list.drop_last(), limit, strictly);
        placing_counts(sorted(list.drop_last()), list.last(), limit, strictly);
    }
}

proof fn bare_counts(values: Seq<i64>, limit: i64)
    ensures
        count_pairs(bare(values), limit, false) == count_upto(values, limit),
        count_pairs(bare(values), limit, true) == count_below(values, limit),
    decreases values.len(),
{
    if values.len() > 0 {
        bare_counts(values.drop_last(), limit);
        assert(bare(values).drop_last() == bare(values.drop_last()));
    }
}

proof fn ordered_counts<T>(list: Seq<(i64, T)>, at: int)
    requires
        in_order(list),
        0 <= at < list.len(),
    ensures
        count_pairs(list, list[at].0, false) > at,
        count_pairs(list, list[at].0, true) <= at,
    decreases list.len(),
{
    let rest = list.drop_last();
    let limit = list[at].0;
    assert(in_order(rest)) by {
        assert forall|i: int, j: int| 0 <= i < j < rest.len() implies (#[trigger] rest[i]).0 <= (
        #[trigger] rest[j]).0 by {
            assert(list[i] == rest[i] && list[j] == rest[j]);
        }
    }
    if at < rest.len() {
        ordered_counts(rest, at);
        assert(list[at].0 <= list[list.len() - 1].0);
    } else {
        all_count(list, limit);
    }
}

proof fn all_count<T>(list: Seq<(i64, T)>, limit: i64)
    requires
        forall|i: int| 0 <= i < list.len() ==> (#[trigger] list[i]).0 <= limit,
    ensures
        count_pairs(list, limit, false) == list.len(),
        count_pairs(list, limit, true) <= list.len(),
        list.len() > 0 && list.last().0 == limit ==> count_pairs(list, limit, true) < list.len(),
    decreases list.len(),
{
    if list.len() > 0 {
        let rest = list.drop_last();
        assert forall|i: int| 0 <= i < rest.len() implies (#[trigger] rest[i]).0 <= limit by {
            assert(list[i] == rest[i]);
        }
        all_count(rest, limit);
        assert(list[list.len() - 1].0 <= limit);
    }
}

/// The two values in the middle are those with as many values before as behind them: where there
/// is an odd number of values they are the same, and else the one follows the other.
pub proof fn median_lies_in_the_middle(values: Seq<i64>)
    requires
        values.len() > 0,
    ensures
        ({
            let (low, high) = middle_of(values);
            let half = values.len() as int / 2;
            &&& values.len() % 2 == 1 ==> low == high
            &&& count_below(values, high) <= half < count_upto(values, high)
            &&& values.len() % 2 == 0 ==> count_below(values, low) <= half - 1 < count_upto(
                values,
                low,
            )
        }),
{
    let list = bare(values);
    let (low, high) = middle_of(values);
    let half = values.len() as int / 2;
    sorted_is_sorted(list);
    sorting_counts(list, high, false);
    sorting_counts(list, high, true);
    sorting_counts(list, low, false);
    sorting_counts(list, low, true);
    bare_counts(values, high);
    bare_counts(values, low);
    ordered_counts(sorted(list), half);
    if values.len() % 2 == 0 {
        ordered_counts(sorted(list), half - 1);
    }
}

/// Where x does not go strictly upwards, the message names the first row that is not above the one
/// before it, counted from one, and the two numbers.
pub proof fn rows_that_go_back_are_told(
    headers: Seq<Seq<char>>,
    rows: Seq<Seq<Seq<char>>>,
    numbers: Seq<Seq<NumberModel>>,
    x_column: Seq<char>,
    y_columns: Seq<Seq<char>>,
    x_at: int,
    row: int,
)
    requires
        is_first_at(headers, x_column, x_at),
        forall|i: int| 0 <= i < rows.len() ==> has_number(#[trigger] rows[i], numbers[i], x_at),
        forall|j: int|
            0 <= j < y_columns.len() ==> !headers.contains(#[trigger] y_columns[j] + "_anomaly_mask"@),
        0 < row < rows.len(),
        !lies_above(numbers[row][x_at]->order, numbers[row - 1][x_at]->order),
        forall|i: int|
            0 < i < row ==> lies_above(
                (#[trigger] numbers[i])[x_at]->order,
                numbers[i - 1][x_at]->order,
            ),
    ensures
        columns_of(headers, rows, numbers, x_column, y_columns) == Err::<
            (Seq<i64>, Seq<Seq<i64>>),
            Seq<char>,
        >(
            x_column + " must be strictly increasing for anomaly detection: row "@ + decimal(
                (row + 1) as nat,
            ) + " has "@ + numbers[row][x_at]->shown + " after "@ + numbers[row - 1][x_at]->shown,
        ),
{
    let names = mask_headers(y_columns);
    none_taken(headers, names);
    if let Some(name) = first_taken(headers, names) {
        let j = choose|j: int| 0 <= j < names.len() && names[j] == name;
        assert(!headers.contains(y_columns[j] + "_anomaly_mask"@));
    }
    assert(headers.contains(x_column));
    found_at_first_place(headers, x_column);
    first_is_unique(headers, x_column, x_at, first_place(headers, x_column));
    column_gives_its_numbers(rows, numbers, x_at, x_column, rows.len() as int);
    let xs = column_numbers(rows, numbers, x_at, x_column, rows.len() as int)->Ok_0;
    assert forall|i: int| 0 <= i < rows.len() implies #[trigger] xs[i] == numbers[i][x_at]->order by {
        assert(is_number_in(xs[i], rows[i], numbers[i], x_at));
    }
    all_above(xs, 0);
    match first_not_above(xs, 0) {
        None => {
            assert(lies_above(xs[row], xs[row - 1]));
        },
        Some(at) => {
            if at < row {
                assert(lies_above(numbers[at][x_at]->order, numbers[at - 1][x_at]->order));
            }
            if row < at {
                assert(lies_above(xs[row], xs[row - 1]));
            }
        },
    }
    assert(has_number(rows[row], numbers[row], x_at));
    assert(has_number(rows[row - 1], numbers[row - 1], x_at));
}

} // verus!
