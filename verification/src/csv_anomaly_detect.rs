//! Values that stand out from the trend of their neighbours.
use vstd::prelude::*;

use crate::cells::{find_column_index, is_at_most, read_column, Number};
use crate::csv_text::write_csv;
use crate::points::sort_pairs;
use crate::text::{concat, copy_texts, holds_text, to_decimal};

verus! {

use crate::cells::{
    at_most, column_numbers, no_column_text, number_models, number_rows, numbers_fit, NumberModel,
};
use crate::csv_text::{csv_text_of, text_result};
use crate::points::{sorted, sorted_is_sorted};
use crate::text::{decimal, first_place, text_rows, text_rows_push, texts, texts_push};

/// The bit of a value that stands out above its neighbours.
pub const ANOMALY_POSITIVE_SPIKE: u32 = 1;

/// The bit of a value that stands out below its neighbours.
pub const ANOMALY_NEGATIVE_SPIKE: u32 = 2;

/// The bit of a step up.
pub const ANOMALY_POSITIVE_STEP: u32 = 4;

/// The bit of a step down.
pub const ANOMALY_NEGATIVE_STEP: u32 = 8;

/// The names of the columns that are added.
pub open spec fn mask_headers(y_columns: Seq<Seq<char>>) -> Seq<Seq<char>> {
    Seq::new(y_columns.len(), |i: int| y_columns[i] + "_anomaly_mask"@)
}

/// The names of the columns that are added.
pub fn anomaly_label_headers(y_columns: &Vec<String>) -> (headers: Vec<String>)
    ensures
        texts(headers@) == mask_headers(texts(y_columns@)),
{
    let mut headers: Vec<String> = Vec::new();
    for i in 0..y_columns.len()
        invariant
            headers@.len() == i,
            forall|k: int|
                0 <= k < i ==> (#[trigger] headers@[k])@ == y_columns@[k]@ + "_anomaly_mask"@,
    {
        headers.push(concat(y_columns[i].as_str(), "_anomaly_mask"));
    }
    assert(texts(headers@) == mask_headers(texts(y_columns@)));
    headers
}

/// The first of the names that is among the headers.
pub open spec fn first_taken(headers: Seq<Seq<char>>, names: Seq<Seq<char>>) -> Option<Seq<char>>
    decreases names.len(),
{
    if names.len() == 0 {
        None
    } else if headers.contains(names[0]) {
        Some(names[0])
    } else {
        first_taken(headers, names.drop_first())
    }
}

/// Whether none of the columns that are added is there.
pub fn validate_output_headers(headers: &Vec<String>, y_columns: &Vec<String>) -> (result: Result<
    (),
    String,
>)
    ensures
        match first_taken(texts(headers@), mask_headers(texts(y_columns@))) {
            None => result is Ok,
            Some(name) => result matches Err(message) && message@
                == "output header already exists: "@ + name,
        },
{
    let labels = anomaly_label_headers(y_columns);
    let ghost all = texts(labels@);
    assert(all.skip(0) == all);
    for i in 0..labels.len()
        invariant
            all == texts(labels@),
            all == mask_headers(texts(y_columns@)),
            first_taken(texts(headers@), all) == first_taken(
                texts(headers@),
                all.skip(i as int),
            ),
    {
        assert(all.skip(i as int)[0] == labels@[i as int]@);
        assert(all.skip(i as int).drop_first() == all.skip(i + 1));
        if holds_text(headers, labels[i].as_str()) {
            return Err(concat("output header already exists: ", labels[i].as_str()));
        }
    }
    Ok(())
}

/// How the number in a cell is shown.
pub open spec fn shown_in(numbers: Seq<Seq<NumberModel>>, row: int, index: int) -> Seq<char> {
    match numbers[row][index] {
        NumberModel::Finite { order, shown } => shown,
        _ => Seq::empty(),
    }
}

/// The first place from `from` on at which a value is not above the one before it.
pub open spec fn first_not_above(values: Seq<i64>, from: int) -> Option<int>
    decreases values.len() - from,
{
    if from >= values.len() {
        None
    } else if from > 0 && at_most(values[from], values[from - 1]) {
        Some(from)
    } else {
        first_not_above(values, from + 1)
    }
}

/// The message that the values are not strictly increasing.
pub open spec fn not_increasing_text(
    column: Seq<char>,
    numbers: Seq<Seq<NumberModel>>,
    index: int,
    row: int,
) -> Seq<char> {
    column + " must be strictly increasing for anomaly detection: row "@ + decimal(
        (row + 1) as nat,
    ) + " has "@ + shown_in(numbers, row, index) + " after "@ + shown_in(numbers, row - 1, index)
}

/// The columns that are looked at: the values of x, and those of each y.
pub struct AnomalyColumns {
    pub xs: Vec<i64>,
    pub ys: Vec<Vec<i64>>,
}

/// What a list of columns says.
pub open spec fn column_views(columns: Seq<Vec<i64>>) -> Seq<Seq<i64>> {
    Seq::new(columns.len(), |i: int| columns[i]@)
}

/// The values of x, or why they cannot be used.
pub open spec fn xs_of(
    headers: Seq<Seq<char>>,
    rows: Seq<Seq<Seq<char>>>,
    numbers: Seq<Seq<NumberModel>>,
    x_column: Seq<char>,
) -> Result<Seq<i64>, Seq<char>> {
    if !headers.contains(x_column) {
        Err(no_column_text(x_column))
    } else {
        let index = first_place(headers, x_column);
        match column_numbers(rows, numbers, index, x_column, rows.len() as int) {
            Err(message) => Err(message),
            Ok(xs) => match first_not_above(xs, 0) {
                Some(row) => Err(not_increasing_text(x_column, numbers, index, row)),
                None => Ok(xs),
            },
        }
    }
}

/// The values of the first `count` y columns, or why one cannot be used.
pub open spec fn ys_of(
    headers: Seq<Seq<char>>,
    rows: Seq<Seq<Seq<char>>>,
    numbers: Seq<Seq<NumberModel>>,
    y_columns: Seq<Seq<char>>,
    count: int,
) -> Result<Seq<Seq<i64>>, Seq<char>>
    decreases count,
{
    if count <= 0 {
        Ok(Seq::empty())
    } else {
        match ys_of(headers, rows, numbers, y_columns, count - 1) {
            Err(message) => Err(message),
            Ok(before) => {
                let column = y_columns[count - 1];
                if !headers.contains(column) {
                    Err(no_column_text(column))
                } else {
                    match column_numbers(
                        rows,
                        numbers,
                        first_place(headers, column),
                        column,
                        rows.len() as int,
                    ) {
                        Err(message) => Err(message),
                        Ok(values) => Ok(before.push(values)),
                    }
                }
            },
        }
    }
}

/// The columns that are looked at, or why they cannot be used.
pub open spec fn columns_of(
    headers: Seq<Seq<char>>,
    rows: Seq<Seq<Seq<char>>>,
    numbers: Seq<Seq<NumberModel>>,
    x_column: Seq<char>,
    y_columns: Seq<Seq<char>>,
) -> Result<(Seq<i64>, Seq<Seq<i64>>), Seq<char>> {
    match first_taken(headers, mask_headers(y_columns)) {
        Some(name) => Err("output header already exists: "@ + name),
        None => match xs_of(headers, rows, numbers, x_column) {
            Err(message) => Err(message),
            Ok(xs) => match ys_of(headers, rows, numbers, y_columns, y_columns.len() as int) {
                Err(message) => Err(message),
                Ok(ys) => Ok((xs, ys)),
            },
        },
    }
}

proof fn ys_of_stops(
    headers: Seq<Seq<char>>,
    rows: Seq<Seq<Seq<char>>>,
    numbers: Seq<Seq<NumberModel>>,
    y_columns: Seq<Seq<char>>,
    count: int,
    total: int,
)
    requires
        count <= total,
        ys_of(headers, rows, numbers, y_columns, count) is Err,
    ensures
        ys_of(headers, rows, numbers, y_columns, total) == ys_of(
            headers,
            rows,
            numbers,
            y_columns,
            count,
        ),
    decreases total - count,
{
    if count < total {
        ys_of_stops(headers, rows, numbers, y_columns, count, total - 1);
    }
}

proof fn cell_of_column(
    rows: Seq<Seq<Seq<char>>>,
    numbers: Seq<Seq<NumberModel>>,
    index: int,
    column: Seq<char>,
    count: int,
    row: int,
)
    requires
        column_numbers(rows, numbers, index, column, count) is Ok,
        0 <= row < count,
    ensures
        index < rows[row].len(),
        numbers[row][index] is Finite,
    decreases count,
{
    if row < count - 1 {
        cell_of_column(rows, numbers, index, column, count - 1, row);
    }
}

fn show_cell(numbers: &Vec<Vec<Number>>, row: usize, index: usize) -> (shown: String)
    requires
        row < numbers@.len(),
        index < numbers@[row as int]@.len(),
    ensures
        shown@ == shown_in(number_rows(numbers@), row as int, index as int),
{
    assert(number_rows(numbers@)[row as int] == number_models(numbers@[row as int]@));
    assert(number_models(numbers@[row as int]@)[index as int] == numbers@[row as int]@[index as int]@);
    match &numbers[row][index] {
        Number::Finite { order, shown } => shown.clone(),
        _ => String::new(),
    }
}

/// Whether the values of x are strictly increasing.
pub fn validate_strictly_increasing(
    x_values: &Vec<i64>,
    numbers: &Vec<Vec<Number>>,
    index: usize,
    x_column: &str,
) -> (result: Result<(), String>)
    requires
        numbers@.len() == x_values@.len(),
        forall|row: int| 0 <= row < numbers@.len() ==> index < (#[trigger] numbers@[row])@.len(),
    ensures
        match first_not_above(x_values@, 0) {
            None => result is Ok,
            Some(row) => result matches Err(message) && message@ == not_increasing_text(
                x_column@,
                number_rows(numbers@),
                index as int,
                row,
            ),
        },
{
    for i in 0..x_values.len()
        invariant
            numbers@.len() == x_values@.len(),
            forall|row: int|
                0 <= row < numbers@.len() ==> index < (#[trigger] numbers@[row])@.len(),
            first_not_above(x_values@, 0) == first_not_above(x_values@, i as int),
    {
        if i > 0 && is_at_most(x_values[i], x_values[i - 1]) {
            assert(index < numbers@[i as int]@.len());
            assert(index < numbers@[i - 1]@.len());
            let mut message = x_column.to_owned();
            message.append(" must be strictly increasing for anomaly detection: row ");
            message.append(to_decimal((i + 1) as u64).as_str());
            message.append(" has ");
            message.append(show_cell(numbers, i, index).as_str());
            message.append(" after ");
            message.append(show_cell(numbers, i - 1, index).as_str());
            return Err(message);
        }
    }
    Ok(())
}

/// The columns that are looked at.
pub fn read_anomaly_columns(
    headers: &Vec<String>,
    rows: &Vec<Vec<String>>,
    numbers: &Vec<Vec<Number>>,
    x_column: &str,
    y_columns: &Vec<String>,
) -> (result: Result<AnomalyColumns, String>)
    requires
        numbers_fit(text_rows(rows@), number_rows(numbers@)),
    ensures
        match result {
            Ok(columns) => columns_of(
                texts(headers@),
                text_rows(rows@),
                number_rows(numbers@),
                x_column@,
                texts(y_columns@),
            ) == Ok::<(Seq<i64>, Seq<Seq<i64>>), Seq<char>>(
                (columns.xs@, column_views(columns.ys@)),
            ),
            Err(message) => columns_of(
                texts(headers@),
                text_rows(rows@),
                number_rows(numbers@),
                x_column@,
                texts(y_columns@),
            ) == Err::<(Seq<i64>, Seq<Seq<i64>>), Seq<char>>(message@),
        },
{
    let ghost table = text_rows(rows@);
    let ghost models = number_rows(numbers@);
    let ghost names = texts(y_columns@);
    match validate_output_headers(headers, y_columns) {
        Ok(()) => {},
        Err(message) => {
            return Err(message);
        },
    }
    let x_index = match find_column_index(headers, x_column) {
        Ok(index) => index,
        Err(message) => {
            return Err(message);
        },
    };
    let xs = match read_column(rows, numbers, x_index, x_column) {
        Ok(xs) => xs,
        Err(message) => {
            return Err(message);
        },
    };
    proof {
        column_has_all(table, models, x_index as int, x_column@, table.len() as int);
        assert forall|row: int| 0 <= row < numbers@.len() implies x_index < (#[trigger] numbers@[row])@.len() by {
            cell_of_column(table, models, x_index as int, x_column@, table.len() as int, row);
            assert(models[row] == number_models(numbers@[row]@));
            assert(models[row].len() == table[row].len());
        }
    }
    match validate_strictly_increasing(&xs, numbers, x_index, x_column) {
        Ok(()) => {},
        Err(message) => {
            return Err(message);
        },
    }
    let mut ys: Vec<Vec<i64>> = Vec::new();
    assert(column_views(ys@) == Seq::<Seq<i64>>::empty());
    for i in 0..y_columns.len()
        invariant
            table == text_rows(rows@),
            models == number_rows(numbers@),
            names == texts(y_columns@),
            numbers_fit(table, models),
            columns_of(texts(headers@), table, models, x_column@, names) == (match ys_of(
                texts(headers@),
                table,
                models,
                names,
                names.len() as int,
            ) {
                Err(message) => Err(message),
                Ok(all) => Ok((xs@, all)),
            }),
            ys_of(texts(headers@), table, models, names, i as int) == Ok::<
                Seq<Seq<i64>>,
                Seq<char>,
            >(column_views(ys@)),
    {
        let column = y_columns[i].as_str();
        assert(names[i as int] == column@);
        let y_index = match find_column_index(headers, column) {
            Ok(index) => index,
            Err(message) => {
                proof {
                    ys_of_stops(
                        texts(headers@),
                        table,
                        models,
                        names,
                        i + 1,
                        names.len() as int,
                    );
                }
                return Err(message);
            },
        };
        match read_column(rows, numbers, y_index, column) {
            Ok(values) => {
                let ghost before = ys@;
                ys.push(values);
                assert(column_views(ys@) == column_views(before).push(values@));
            },
            Err(message) => {
                proof {
                    ys_of_stops(
                        texts(headers@),
                        table,
                        models,
                        names,
                        i + 1,
                        names.len() as int,
                    );
                }
                return Err(message);
            },
        }
    }
    Ok(AnomalyColumns { xs, ys })
}

proof fn column_has_all(
    rows: Seq<Seq<Seq<char>>>,
    numbers: Seq<Seq<NumberModel>>,
    index: int,
    column: Seq<char>,
    count: int,
)
    requires
        0 <= count,
    ensures
        column_numbers(rows, numbers, index, column, count) matches Ok(values) ==> values.len()
            == count,
    decreases count,
{
    if count > 0 {
        column_has_all(rows, numbers, index, column, count - 1);
    }
}

/// On which side of the trend a value lies.
#[derive(Debug, Clone, Copy, PartialEq, Eq, Structural)]
pub enum Side {
    Above,
    Below,
    On,
}

/// How far a value lies from the trend of its neighbours: the place of the distance in the order
/// of the numbers, `None` if it is none, and the side.
#[derive(Debug, Clone, Copy, PartialEq, Eq, Structural)]
pub struct Residual {
    pub size: Option<i64>,
    pub side: Side,
}

/// What is known of a value: its distance from the trend, if it has one; whether that is large
/// against the distances around it; and whether the change from the value before is large against
/// the changes around it.
#[derive(Debug, Clone, Copy, PartialEq, Eq, Structural)]
pub struct Judged {
    pub residual: Option<Residual>,
    pub is_large: bool,
    pub is_jump: bool,
}

/// Whether a row has a row on both sides, by which the trend goes.
pub open spec fn has_trend(index: int, row_count: int) -> bool {
    0 < index && index + 1 < row_count
}

/// Whether the row has a row on both sides, by which the trend goes.
pub fn is_between_rows(index: usize, row_count: usize) -> (between: bool)
    ensures
        between == has_trend(index as int, row_count as int),
{
    0 < index && index < row_count && row_count - index > 1
}

/// The distance of the value at a place from the trend. The first and the last have none.
pub open spec fn residual_at(values: Seq<Judged>, index: int) -> Option<Residual> {
    if has_trend(index, values.len() as int) {
        values[index].residual
    } else {
        None
    }
}

fn find_residual(values: &Vec<Judged>, index: usize) -> (residual: Option<Residual>)
    ensures
        residual == residual_at(values@, index as int),
{
    if is_between_rows(index, values.len()) {
        values[index].residual
    } else {
        None
    }
}

/// Whether the first distance is larger than the second.
pub open spec fn is_larger(left: Residual, right: Residual) -> bool {
    left.size is Some && right.size is Some && left.size->0 > right.size->0
}

fn larger(left: Residual, right: Residual) -> (larger: bool)
    ensures
        larger == is_larger(left, right),
{
    match (left.size, right.size) {
        (Some(left), Some(right)) => left > right,
        _ => false,
    }
}

/// Whether the neighbour at a place, if there is one, lies nearer to the trend.
pub open spec fn outdoes(values: Seq<Judged>, residual: Residual, neighbor: int) -> bool {
    0 <= neighbor < values.len() && values[neighbor].residual is Some ==> is_larger(
        residual,
        values[neighbor].residual->0,
    )
}

/// Whether the value lies further from the trend than both its neighbours.
pub open spec fn is_peak(values: Seq<Judged>, index: int) -> bool {
    match values[index].residual {
        None => false,
        Some(residual) => outdoes(values, residual, index - 1) && outdoes(
            values,
            residual,
            index + 1,
        ),
    }
}

fn is_nearer(values: &Vec<Judged>, residual: Residual, neighbor: usize) -> (nearer: bool)
    requires
        neighbor < values@.len(),
    ensures
        nearer == outdoes(values@, residual, neighbor as int),
{
    match values[neighbor].residual {
        None => true,
        Some(other) => larger(residual, other),
    }
}

/// Whether the value lies further from the trend than both its neighbours.
pub fn is_local_peak(values: &Vec<Judged>, index: usize) -> (peak: bool)
    requires
        index < values@.len(),
    ensures
        peak == is_peak(values@, index as int),
{
    match values[index].residual {
        None => false,
        Some(residual) => {
            let left = index == 0 || is_nearer(values, residual, index - 1);
            let right = values.len() - index <= 1 || is_nearer(values, residual, index + 1);
            left && right
        },
    }
}

/// Whether the value is a spike: it lies far from the trend, and further than its neighbours.
pub open spec fn is_spike(values: Seq<Judged>, index: int) -> bool {
    residual_at(values, index) is Some && is_peak(values, index) && values[index].is_large
}

fn stands_out(values: &Vec<Judged>, index: usize) -> (spike: bool)
    requires
        index < values@.len(),
    ensures
        spike == is_spike(values@, index as int),
{
    is_between_rows(index, values.len()) && values[index].is_large && is_local_peak(values, index)
}

/// The way that values step from one level to another.
#[derive(Debug, Clone, Copy, PartialEq, Eq, Structural)]
pub enum Step {
    Up,
    Down,
}

/// The step from the value before to that at a place: both lie far from the trend, on opposite
/// sides, with a jump between them.
pub open spec fn step_to(values: Seq<Judged>, index: int) -> Option<Step> {
    match (residual_at(values, index - 1), residual_at(values, index)) {
        (Some(before), Some(here)) => if values[index - 1].is_large && values[index].is_large
            && values[index].is_jump {
            match (before.side, here.side) {
                (Side::Below, Side::Above) => Some(Step::Up),
                (Side::Above, Side::Below) => Some(Step::Down),
                _ => None,
            }
        } else {
            None
        },
        _ => None,
    }
}

fn find_step_to(values: &Vec<Judged>, index: usize) -> (step: Option<Step>)
    requires
        0 < index < values@.len(),
    ensures
        step == step_to(values@, index as int),
{
    match (find_residual(values, index - 1), find_residual(values, index)) {
        (Some(before), Some(here)) => if values[index - 1].is_large && values[index].is_large
            && values[index].is_jump {
            match (before.side, here.side) {
                (Side::Below, Side::Above) => Some(Step::Up),
                (Side::Above, Side::Below) => Some(Step::Down),
                _ => None,
            }
        } else {
            None
        },
        _ => None,
    }
}

/// Whether the value at a place lies nearer to the trend than the value before.
pub open spec fn comes_nearer(values: Seq<Judged>, index: int) -> bool {
    match (residual_at(values, index - 1), residual_at(values, index)) {
        (Some(before), Some(here)) => is_larger(before, here),
        _ => false,
    }
}

fn is_coming_nearer(values: &Vec<Judged>, index: usize) -> (nearer: bool)
    requires
        0 < index < values@.len(),
    ensures
        nearer == comes_nearer(values@, index as int),
{
    match (find_residual(values, index - 1), find_residual(values, index)) {
        (Some(before), Some(here)) => larger(before, here),
        _ => false,
    }
}

/// The step that belongs to a value: of the two values of a step it is that which lies further
/// from the trend, and the second where both lie equally far.
pub open spec fn step_at(values: Seq<Judged>, index: int) -> Option<Step> {
    if step_to(values, index) is Some && !comes_nearer(values, index) {
        step_to(values, index)
    } else if step_to(values, index + 1) is Some && comes_nearer(values, index + 1) {
        step_to(values, index + 1)
    } else {
        None
    }
}

fn find_step(values: &Vec<Judged>, index: usize) -> (step: Option<Step>)
    requires
        index < values@.len(),
    ensures
        step == step_at(values@, index as int),
{
    if index > 0 {
        let step = find_step_to(values, index);
        if step.is_some() && !is_coming_nearer(values, index) {
            return step;
        }
    }
    if values.len() - index > 1 {
        let step = find_step_to(values, index + 1);
        if step.is_some() && is_coming_nearer(values, index + 1) {
            return step;
        }
    }
    None
}

/// The step that is marked at a value: the one that belongs to it, unless a neighbour is marked.
pub open spec fn marked_step(values: Seq<Judged>, index: int) -> Option<Step> {
    if is_spike(values, index) || (!is_spike(values, index - 1) && !is_spike(values, index + 1)
        && step_at(values, index - 1) is None) {
        step_at(values, index)
    } else {
        None
    }
}

fn find_marked_step(values: &Vec<Judged>, index: usize) -> (step: Option<Step>)
    requires
        index < values@.len(),
    ensures
        step == marked_step(values@, index as int),
{
    if !stands_out(values, index) {
        if index > 0 {
            if stands_out(values, index - 1) || find_step(values, index - 1).is_some() {
                return None;
            }
        }
        if values.len() - index > 1 {
            if stands_out(values, index + 1) {
                return None;
            }
        }
    }
    find_step(values, index)
}

/// The bit of the side.
pub open spec fn side_mask(side: Side) -> u32 {
    match side {
        Side::Above => ANOMALY_POSITIVE_SPIKE,
        Side::Below => ANOMALY_NEGATIVE_SPIKE,
        Side::On => 0,
    }
}

/// The bit of the side.
pub fn anomaly_mask(side: Side) -> (mask: u32)
    ensures
        mask == side_mask(side),
{
    match side {
        Side::Above => ANOMALY_POSITIVE_SPIKE,
        Side::Below => ANOMALY_NEGATIVE_SPIKE,
        Side::On => 0,
    }
}

/// The bit of a step, if there is one.
pub open spec fn step_mask(step: Option<Step>) -> u32 {
    match step {
        Some(Step::Up) => ANOMALY_POSITIVE_STEP,
        Some(Step::Down) => ANOMALY_NEGATIVE_STEP,
        None => 0,
    }
}

/// The bit of a spike, if the value is one.
pub open spec fn spike_mask(values: Seq<Judged>, index: int) -> u32 {
    if is_spike(values, index) {
        side_mask(values[index].residual->0.side)
    } else {
        0
    }
}

/// The mask of a value: the bit of the spike and that of the step that is marked there.
pub open spec fn mask_of(values: Seq<Judged>, index: int) -> u32 {
    (spike_mask(values, index) + step_mask(marked_step(values, index))) as u32
}

fn find_mask(values: &Vec<Judged>, index: usize) -> (mask: u32)
    requires
        index < values@.len(),
    ensures
        mask == mask_of(values@, index as int),
{
    let spike: u32 = if stands_out(values, index) {
        match values[index].residual {
            Some(residual) => anomaly_mask(residual.side),
            None => 0,
        }
    } else {
        0
    };
    let step: u32 = match find_marked_step(values, index) {
        Some(Step::Up) => ANOMALY_POSITIVE_STEP,
        Some(Step::Down) => ANOMALY_NEGATIVE_STEP,
        None => 0,
    };
    spike + step
}

/// What the columns of judged values say.
pub open spec fn judged_views(columns: Seq<Vec<Judged>>) -> Seq<Seq<Judged>> {
    Seq::new(columns.len(), |i: int| columns[i]@)
}

/// What the masks of the rows say.
pub open spec fn mask_views(masks: Seq<Vec<u32>>) -> Seq<Seq<u32>> {
    Seq::new(masks.len(), |i: int| masks[i]@)
}

/// The masks of the rows, column by column.
pub open spec fn masks_of(columns: Seq<Seq<Judged>>, row_count: nat) -> Seq<Seq<u32>> {
    Seq::new(row_count, |row: int| row_masks(columns, row))
}

/// The masks of one row.
pub open spec fn row_masks(columns: Seq<Seq<Judged>>, row: int) -> Seq<u32> {
    Seq::new(columns.len(), |column: int| mask_of(columns[column], row))
}

/// The masks of the rows.
pub fn detect_anomalies(columns: &Vec<Vec<Judged>>, row_count: usize) -> (masks: Vec<Vec<u32>>)
    requires
        forall|i: int| 0 <= i < columns@.len() ==> (#[trigger] columns@[i])@.len() == row_count,
    ensures
        mask_views(masks@) == masks_of(judged_views(columns@), row_count as nat),
{
    let ghost all = judged_views(columns@);
    let mut masks: Vec<Vec<u32>> = Vec::new();
    for row in 0..row_count
        invariant
            all == judged_views(columns@),
            forall|i: int|
                0 <= i < columns@.len() ==> (#[trigger] columns@[i])@.len() == row_count,
            masks@.len() == row,
            forall|k: int| 0 <= k < row ==> (#[trigger] masks@[k])@ == row_masks(all, k),
    {
        let mut own: Vec<u32> = Vec::new();
        for column in 0..columns.len()
            invariant
                all == judged_views(columns@),
                row < row_count,
                forall|i: int|
                    0 <= i < columns@.len() ==> (#[trigger] columns@[i])@.len() == row_count,
                own@ == row_masks(all, row as int).take(column as int),
        {
            let values = &columns[column];
            assert(columns@[column as int]@.len() == row_count);
            assert(all[column as int] == values@);
            let mask = find_mask(values, row);
            assert(mask == mask_of(all[column as int], row as int));
            own.push(mask);
            assert(row_masks(all, row as int).take(column + 1) == row_masks(
                all,
                row as int,
            ).take(column as int).push(mask));
        }
        assert(own@ == row_masks(all, row as int));
        masks.push(own);
    }
    assert(mask_views(masks@) == masks_of(all, row_count as nat));
    masks
}

/// Each bit of a mask says what it stands for: a spike above or below the trend, or a step up or
/// down.
pub proof fn bits_say_what_they_stand_for(values: Seq<Judged>, index: int)
    ensures
        mask_of(values, index) & ANOMALY_POSITIVE_SPIKE != 0 <==> is_spike(values, index)
            && values[index].residual->0.side == Side::Above,
        mask_of(values, index) & ANOMALY_NEGATIVE_SPIKE != 0 <==> is_spike(values, index)
            && values[index].residual->0.side == Side::Below,
        mask_of(values, index) & ANOMALY_POSITIVE_STEP != 0 <==> marked_step(values, index)
            == Some(Step::Up),
        mask_of(values, index) & ANOMALY_NEGATIVE_STEP != 0 <==> marked_step(values, index)
            == Some(Step::Down),
{
    let mask = mask_of(values, index);
    assert(mask & 1 == mask % 2) by (bit_vector);
    assert(mask & 2 == mask / 2 % 2 * 2) by (bit_vector);
    assert(mask & 4 == mask / 4 % 2 * 4) by (bit_vector);
    assert(mask & 8 == mask / 8 % 2 * 8) by (bit_vector);
}

/// Of two rows that follow each other, at most one stands out in a column.
pub proof fn neighbors_do_not_both_stand_out(values: Seq<Judged>, index: int)
    requires
        0 <= index,
        index + 1 < values.len(),
    ensures
        mask_of(values, index) == 0 || mask_of(values, index + 1) == 0,
{
    assert(!(is_spike(values, index) && is_spike(values, index + 1))) by {
        if is_spike(values, index) && is_spike(values, index + 1) {
            let left = values[index].residual->0;
            let right = values[index + 1].residual->0;
            assert(outdoes(values, left, index + 1));
            assert(outdoes(values, right, index));
        }
    }
}

/// A value that has no distance from the trend does not stand out.
pub proof fn values_without_residual_do_not_stand_out(values: Seq<Judged>, index: int)
    requires
        residual_at(values, index) is None,
    ensures
        mask_of(values, index) == 0,
{
}

/// The first and the last row do not stand out in any column.
pub proof fn ends_do_not_stand_out(columns: Seq<Seq<Judged>>, row_count: nat, column: int)
    requires
        row_count > 0,
        0 <= column < columns.len(),
        columns[column].len() == row_count,
    ensures
        masks_of(columns, row_count)[0][column] == 0,
        masks_of(columns, row_count)[row_count - 1][column] == 0,
{
    values_without_residual_do_not_stand_out(columns[column], 0);
    values_without_residual_do_not_stand_out(columns[column], row_count - 1);
}

/// A column is judged alone: its masks do not depend on the other columns.
pub proof fn columns_are_judged_alone(
    columns: Seq<Seq<Judged>>,
    row_count: nat,
    row: int,
    column: int,
)
    requires
        0 <= row < row_count,
        0 <= column < columns.len(),
    ensures
        masks_of(columns, row_count)[row][column] == masks_of(
            seq![columns[column]],
            row_count,
        )[row][0],
{
}

/// The side on which the negated distance lies.
pub open spec fn other_side(side: Side) -> Side {
    match side {
        Side::Above => Side::Below,
        Side::Below => Side::Above,
        Side::On => Side::On,
    }
}

/// What is known of a value whose distance from the trend is negated.
pub open spec fn negated(value: Judged) -> Judged {
    Judged {
        residual: match value.residual {
            Some(residual) => Some(
                Residual { size: residual.size, side: other_side(residual.side) },
            ),
            None => None,
        },
        is_large: value.is_large,
        is_jump: value.is_jump,
    }
}

/// The values with their distances from the trend negated.
pub open spec fn all_negated(values: Seq<Judged>) -> Seq<Judged> {
    Seq::new(values.len(), |i: int| negated(values[i]))
}

/// The other way of a step.
pub open spec fn other_way(step: Option<Step>) -> Option<Step> {
    match step {
        Some(Step::Up) => Some(Step::Down),
        Some(Step::Down) => Some(Step::Up),
        None => None,
    }
}

/// The mask with the bits of both ways exchanged.
pub open spec fn exchanged_bits(mask: u32) -> u32 {
    (mask % 2 * 2 + mask / 2 % 2 + mask / 4 % 2 * 8 + mask / 8 % 2 * 4) as u32
}

proof fn negated_is_as_large(values: Seq<Judged>, index: int)
    ensures
        is_spike(all_negated(values), index) == is_spike(values, index),
{
    let others = all_negated(values);
    assert forall|k: int| #[trigger] residual_at(others, k) == (match residual_at(values, k) {
        Some(residual) => Some(Residual { size: residual.size, side: other_side(residual.side) }),
        None => None,
    }) by {}
    if let Some(residual) = residual_at(values, index) {
        let other = residual_at(others, index)->0;
        assert(outdoes(values, residual, index - 1) == outdoes(others, other, index - 1));
        assert(outdoes(values, residual, index + 1) == outdoes(others, other, index + 1));
    }
}

proof fn negated_steps_the_other_way(values: Seq<Judged>, index: int)
    ensures
        step_to(all_negated(values), index) == other_way(step_to(values, index)),
        comes_nearer(all_negated(values), index) == comes_nearer(values, index),
{
}

proof fn negated_step_is_the_other(values: Seq<Judged>, index: int)
    ensures
        step_at(all_negated(values), index) == other_way(step_at(values, index)),
{
    negated_steps_the_other_way(values, index);
    negated_steps_the_other_way(values, index + 1);
}

/// Where all distances from the trend are negated, spikes and steps go the other way.
pub proof fn negated_values_exchange_the_bits(values: Seq<Judged>, index: int)
    ensures
        mask_of(all_negated(values), index) == exchanged_bits(mask_of(values, index)),
{
    negated_is_as_large(values, index - 1);
    negated_is_as_large(values, index);
    negated_is_as_large(values, index + 1);
    negated_step_is_the_other(values, index - 1);
    negated_step_is_the_other(values, index);
}

/// The rows with their masks behind them, as far as there are both.
pub open spec fn masked_rows(rows: Seq<Seq<Seq<char>>>, masks: Seq<Seq<u32>>) -> Seq<
    Seq<Seq<char>>,
> {
    Seq::new(
        if rows.len() < masks.len() {
            rows.len()
        } else {
            masks.len()
        },
        |i: int| rows[i] + mask_texts(masks[i]),
    )
}

/// The masks in decimal digits.
pub open spec fn mask_texts(masks: Seq<u32>) -> Seq<Seq<char>> {
    Seq::new(masks.len(), |i: int| decimal(masks[i] as nat))
}

fn push_masks(row: &mut Vec<String>, masks: &Vec<u32>)
    ensures
        texts(final(row)@) == texts(old(row)@) + mask_texts(masks@),
{
    let ghost start = texts(row@);
    for i in 0..masks.len()
        invariant
            start == texts(old(row)@),
            texts(row@) == start + mask_texts(masks@).take(i as int),
    {
        let text = to_decimal(masks[i] as u64);
        proof {
            texts_push(row@, text);
        }
        row.push(text);
        assert(mask_texts(masks@).take(i + 1) == mask_texts(masks@).take(i as int).push(
            decimal(masks@[i as int] as nat),
        ));
    }
    assert(mask_texts(masks@).take(masks@.len() as int) == mask_texts(masks@));
}

/// The table with its masks as CSV text.
pub fn render_csv(
    headers: &Vec<String>,
    rows: &Vec<Vec<String>>,
    y_columns: &Vec<String>,
    masks: &Vec<Vec<u32>>,
) -> (result: Result<String, String>)
    ensures
        text_result(result) == csv_text_of(
            seq![texts(headers@) + mask_headers(texts(y_columns@))] + masked_rows(
                text_rows(rows@),
                mask_views(masks@),
            ),
        ),
{
    let mut output_headers = copy_texts(headers);
    let labels = anomaly_label_headers(y_columns);
    let ghost start = texts(output_headers@);
    for i in 0..labels.len()
        invariant
            texts(output_headers@) == start + texts(labels@).take(i as int),
    {
        let label = labels[i].clone();
        proof {
            texts_push(output_headers@, label);
        }
        output_headers.push(label);
        assert(texts(labels@).take(i + 1) == texts(labels@).take(i as int).push(label@));
    }
    assert(texts(labels@).take(labels@.len() as int) == texts(labels@));
    let count: usize = if rows.len() < masks.len() {
        rows.len()
    } else {
        masks.len()
    };
    let ghost wanted = masked_rows(text_rows(rows@), mask_views(masks@));
    let mut output_rows: Vec<Vec<String>> = Vec::new();
    for i in 0..count
        invariant
            count <= rows@.len(),
            count <= masks@.len(),
            wanted == masked_rows(text_rows(rows@), mask_views(masks@)),
            wanted.len() == count,
            text_rows(output_rows@) == wanted.take(i as int),
    {
        let mut row = copy_texts(&rows[i]);
        push_masks(&mut row, &masks[i]);
        assert(texts(row@) == wanted[i as int]);
        proof {
            text_rows_push(output_rows@, row);
        }
        output_rows.push(row);
        assert(wanted.take(i + 1) == wanted.take(i as int).push(wanted[i as int]));
    }
    assert(wanted.take(wanted.len() as int) == wanted);
    write_csv(&output_headers, &output_rows)
}

/// The places before `end` that are at most two away from `index`, are not `index` itself, and
/// have a distance from the trend.
pub open spec fn neighbors_before(present: Seq<bool>, index: int, end: int) -> Seq<int>
    decreases end,
{
    if end <= 0 || end <= index - 2 {
        Seq::empty()
    } else {
        let before = neighbors_before(present, index, end - 1);
        if end - 1 != index && present[end - 1] {
            before.push(end - 1)
        } else {
            before
        }
    }
}

/// The neighbors that a distance from the trend is held against.
pub open spec fn neighbors_of(present: Seq<bool>, index: int) -> Seq<int> {
    neighbors_before(
        present,
        index,
        if index + 3 < present.len() {
            index + 3
        } else {
            present.len() as int
        },
    )
}

/// What a list of places says.
pub open spec fn place_list(places: Seq<usize>) -> Seq<int> {
    Seq::new(places.len(), |i: int| places[i] as int)
}

/// The neighbors that the distance at `index` is held against, where `present` says which values
/// have a distance from the trend.
pub fn score_neighbors(present: &Vec<bool>, index: usize) -> (places: Vec<usize>)
    requires
        index < present@.len(),
    ensures
        place_list(places@) == neighbors_of(present@, index as int),
{
    let from: usize = if index < 2 {
        0
    } else {
        index - 2
    };
    let end: usize = if present.len() - index > 3 {
        index + 3
    } else {
        present.len()
    };
    let mut places: Vec<usize> = Vec::new();
    assert(place_list(places@) == Seq::<int>::empty());
    for i in from..end
        invariant
            end <= present@.len(),
            from == if index < 2 {
                0
            } else {
                index - 2
            },
            place_list(places@) == neighbors_before(present@, index as int, i as int),
    {
        if i != index && present[i] {
            let ghost before = places@;
            places.push(i);
            assert(place_list(places@) == place_list(before).push(i as int));
        }
    }
    places
}

/// The values, ready to be put in order.
pub open spec fn bare(values: Seq<i64>) -> Seq<(i64, ())> {
    Seq::new(values.len(), |i: int| (values[i], ()))
}

/// The two values in the middle of the values in order; they are the same one, if there is an odd
/// number of values.
pub open spec fn middle_of(values: Seq<i64>) -> (i64, i64) {
    let ordered = sorted(bare(values));
    let middle = values.len() as int / 2;
    if values.len() % 2 == 0 {
        (ordered[middle - 1].0, ordered[middle].0)
    } else {
        (ordered[middle].0, ordered[middle].0)
    }
}

/// The two values in the middle, between which the median lies.
pub fn median_pair(values: &Vec<i64>) -> (pair: (i64, i64))
    requires
        values@.len() > 0,
    ensures
        pair == middle_of(values@),
{
    let mut items: Vec<(i64, ())> = Vec::new();
    for i in 0..values.len()
        invariant
            items@ == bare(values@).take(i as int),
    {
        items.push((values[i], ()));
        assert(bare(values@).take(i + 1) == bare(values@).take(i as int).push(
            (values@[i as int], ()),
        ));
    }
    assert(items@ == bare(values@));
    proof {
        sorted_is_sorted(items@);
    }
    let ordered = sort_pairs(&items);
    let middle: usize = values.len() / 2;
    if values.len() % 2 == 0 {
        (ordered[middle - 1].0, ordered[middle].0)
    } else {
        (ordered[middle].0, ordered[middle].0)
    }
}

} // verus!
