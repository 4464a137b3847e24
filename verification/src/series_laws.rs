//! What holds of the plots of a table: which cells their points are, and how far they reach.
use vstd::prelude::*;

use crate::csv_plot::{AxisKind, DEFAULT_IMAGE_SIZE};

verus! {

use crate::cell_laws::{cell_gives_its_number, has_number, is_number_in};
use crate::cells::NumberModel;
use crate::csv_key_diff::CsvModel;
use crate::csv_label_split::{sorted_labels, sorted_labels_are_sorted};
use crate::csv_plot::{
    advances, column, column_places, column_series, image_of, label_series, labeled_plot,
    labeled_plot_asked, labeled_rows, line_plot, row_values, spectrum_plot, spectrum_points, table_values,
    values_behind_first, xy_plot, xy_plot_asked, ImageModel, KindModel, LabeledColumns,
    LabeledModel, PlotModel, SeriesModel,
};
use crate::list_laws::{are_all_wanted, first_is_unique, found_at_first_place, is_first_at};
use crate::plot_states::{bands_of, pairs, with_label, BandsModel};
use crate::points::{
    all_at, all_between_lowest_and_highest, highest, lowest, sorted, sorted_is_sorted,
};
use crate::split_laws::{are_labels_of, has_label, is_label_in};
use crate::text::{first_place, joined, trimmed};

/// Whether points are others in the order of their places: all of them are there, and those at
/// the same place stay in order.
pub open spec fn is_ordered_form(points: Seq<(i64, i64)>, source: Seq<(i64, i64)>) -> bool {
    &&& points.len() == source.len()
    &&& forall|i: int, j: int|
        0 <= i < j < points.len() ==> (#[trigger] points[i]).0 <= (#[trigger] points[j]).0
    &&& forall|place: i64| #[trigger] all_at(points, place) == all_at(source, place)
    &&& forall|point: (i64, i64)| #[trigger] points.contains(point) <==> source.contains(point)
}

proof fn at_a_place(list: Seq<(i64, i64)>, point: (i64, i64))
    ensures
        list.contains(point) <==> all_at(list, point.0).contains(point.1),
    decreases list.len(),
{
    if list.len() > 0 {
        let rest = list.drop_last();
        at_a_place(rest, point);
        let before = all_at(rest, point.0);
        let all = all_at(list, point.0);
        if list.contains(point) {
            let k = choose|k: int| 0 <= k < list.len() && list[k] == point;
            if k < rest.len() {
                assert(rest[k] == point);
                let m = choose|m: int| 0 <= m < before.len() && before[m] == point.1;
                assert(all[m] == point.1);
            } else {
                assert(all[all.len() - 1] == point.1);
            }
        }
        if all.contains(point.1) {
            let m = choose|m: int| 0 <= m < all.len() && all[m] == point.1;
            if m < before.len() {
                assert(before[m] == point.1);
                assert(before.contains(point.1));
                let k = choose|k: int| 0 <= k < rest.len() && rest[k] == point;
                assert(list[k] == point);
            } else {
                assert(list.last() == point);
                assert(list[list.len() - 1] == point);
            }
        }
    }
}

/// Points that are put in order are the same points in the order of their places.
pub proof fn points_are_put_in_order(source: Seq<(i64, i64)>)
    ensures
        is_ordered_form(sorted(source), source),
{
    sorted_is_sorted(source);
    let points = sorted(source);
    assert forall|point: (i64, i64)| #[trigger] points.contains(point) <==> source.contains(
        point,
    ) by {
        at_a_place(points, point);
        at_a_place(source, point);
        assert(all_at(points, point.0) == all_at(source, point.0));
    }
}

/// Whether a place is the lowest of the points' places or values, and another the highest: both
/// are those of points, and all lie between them.
pub open spec fn reaches_over(plot: PlotModel) -> bool {
    &&& plot.y_range is Some
    &&& forall|s: int, p: int|
        0 <= s < plot.series.len() && 0 <= p < plot.series[s].points.len() ==> {
            let point = #[trigger] plot.series[s].points[p];
            &&& plot.x_range.0 <= point.0 <= plot.x_range.1
            &&& (plot.y_range->0).0 <= point.1 <= (plot.y_range->0).1
        }
    &&& has_place(plot.series, plot.x_range.0)
    &&& has_place(plot.series, plot.x_range.1)
    &&& has_value(plot.series, (plot.y_range->0).0)
    &&& has_value(plot.series, (plot.y_range->0).1)
}

/// Whether some point of some series lies at a place.
pub open spec fn has_place(series: Seq<SeriesModel>, place: i64) -> bool {
    exists|s: int, p: int|
        0 <= s < series.len() && 0 <= p < series[s].points.len()
            && (#[trigger] series[s].points[p]).0 == place
}

/// Whether some point of some series has a value.
pub open spec fn has_value(series: Seq<SeriesModel>, value: i64) -> bool {
    exists|s: int, p: int|
        0 <= s < series.len() && 0 <= p < series[s].points.len()
            && (#[trigger] series[s].points[p]).1 == value
}

/// Whether the numbers are those of the points of the series.
spec fn numbers_of_series(series: Seq<SeriesModel>, xs: Seq<i64>, ys: Seq<i64>) -> bool {
    &&& forall|s: int, p: int|
        0 <= s < series.len() && 0 <= p < series[s].points.len() ==> {
            let point = #[trigger] series[s].points[p];
            xs.contains(point.0) && ys.contains(point.1)
        }
    &&& forall|x: i64| #[trigger] xs.contains(x) ==> has_place(series, x)
    &&& forall|y: i64| #[trigger] ys.contains(y) ==> has_value(series, y)
}

proof fn ordered_series_reach(series: Seq<SeriesModel>, ordered: Seq<SeriesModel>, place: i64)
    requires
        ordered.len() == series.len(),
        forall|s: int|
            0 <= s < series.len() ==> (#[trigger] ordered[s]).points == sorted(series[s].points),
    ensures
        has_place(series, place) ==> has_place(ordered, place),
        has_value(series, place) ==> has_value(ordered, place),
{
    if has_place(series, place) {
        let (s, p) = choose|s: int, p: int|
            0 <= s < series.len() && 0 <= p < series[s].points.len()
                && (#[trigger] series[s].points[p]).0 == place;
        let point = series[s].points[p];
        points_are_put_in_order(series[s].points);
        assert(series[s].points.contains(point));
        assert(ordered[s].points == sorted(series[s].points));
        assert(ordered[s].points.contains(point));
        let q = choose|q: int| 0 <= q < ordered[s].points.len() && ordered[s].points[q] == point;
        assert(ordered[s].points[q].0 == place);
    }
    if has_value(series, place) {
        let (s, p) = choose|s: int, p: int|
            0 <= s < series.len() && 0 <= p < series[s].points.len()
                && (#[trigger] series[s].points[p]).1 == place;
        let point = series[s].points[p];
        points_are_put_in_order(series[s].points);
        assert(series[s].points.contains(point));
        assert(ordered[s].points == sorted(series[s].points));
        assert(ordered[s].points.contains(point));
        let q = choose|q: int| 0 <= q < ordered[s].points.len() && ordered[s].points[q] == point;
        assert(ordered[s].points[q].1 == place);
    }
}

proof fn point_lies_between(
    series: Seq<SeriesModel>,
    xs: Seq<i64>,
    ys: Seq<i64>,
    s: int,
    point: (i64, i64),
)
    requires
        xs.len() > 0,
        ys.len() > 0,
        numbers_of_series(series, xs, ys),
        0 <= s < series.len(),
        sorted(series[s].points).contains(point),
    ensures
        lowest(xs) <= point.0 <= highest(xs),
        lowest(ys) <= point.1 <= highest(ys),
{
    all_between_lowest_and_highest(xs);
    all_between_lowest_and_highest(ys);
    points_are_put_in_order(series[s].points);
    assert(series[s].points.contains(point));
    let q = choose|q: int| 0 <= q < series[s].points.len() && series[s].points[q] == point;
    assert(series[s].points[q] == point);
    assert(xs.contains(point.0) && ys.contains(point.1));
    let i = choose|i: int| 0 <= i < xs.len() && xs[i] == point.0;
    let j = choose|j: int| 0 <= j < ys.len() && ys[j] == point.1;
    assert(lowest(xs) <= xs[i] <= highest(xs));
    assert(lowest(ys) <= ys[j] <= highest(ys));
}

#[verifier::spinoff_prover]
#[verifier::rlimit(30)]
proof fn line_plot_reaches_over(
    x_label: Seq<char>,
    x_kind: AxisKind,
    y_label: Seq<char>,
    title: Seq<char>,
    series: Seq<SeriesModel>,
    xs: Seq<i64>,
    ys: Seq<i64>,
)
    requires
        xs.len() > 0,
        ys.len() > 0,
        numbers_of_series(series, xs, ys),
    ensures
        line_plot(x_label, x_kind, y_label, title, series, xs, ys) matches Ok(plot)
            && reaches_over(plot),
{
    let plot = line_plot(x_label, x_kind, y_label, title, series, xs, ys)->Ok_0;
    all_between_lowest_and_highest(xs);
    all_between_lowest_and_highest(ys);
    assert forall|s: int, p: int|
        0 <= s < plot.series.len() && 0 <= p < plot.series[s].points.len() implies {
        let point = #[trigger] plot.series[s].points[p];
        &&& plot.x_range.0 <= point.0 <= plot.x_range.1
        &&& (plot.y_range->0).0 <= point.1 <= (plot.y_range->0).1
    } by {
        let point = plot.series[s].points[p];
        assert(plot.series[s].points == sorted(series[s].points));
        assert(sorted(series[s].points).contains(point));
        point_lies_between(series, xs, ys, s, point);
    }
    ordered_series_reach(series, plot.series, lowest(xs));
    ordered_series_reach(series, plot.series, highest(xs));
    ordered_series_reach(series, plot.series, lowest(ys));
    ordered_series_reach(series, plot.series, highest(ys));
}

proof fn row_values_are(
    row: Seq<Seq<char>>,
    numbers: Seq<NumberModel>,
    indices: Seq<int>,
    names: Seq<Seq<char>>,
    row_index: int,
    count: int,
)
    requires
        0 <= count <= indices.len(),
        forall|c: int| 0 <= c < indices.len() ==> 0 <= #[trigger] indices[c],
    ensures
        match row_values(row, numbers, indices, names, row_index, count) {
            Ok(values) => values.len() == count && forall|c: int|
                0 <= c < count ==> is_number_in(#[trigger] values[c], row, numbers, indices[c]),
            Err(_) => exists|c: int|
                0 <= c < count && !has_number(row, numbers, #[trigger] indices[c]),
        },
    decreases count,
{
    if count > 0 {
        row_values_are(row, numbers, indices, names, row_index, count - 1);
        assert(0 <= indices[count - 1]);
        cell_gives_its_number(row, numbers, indices[count - 1], names[count - 1], row_index);
        if let Ok(values) = row_values(row, numbers, indices, names, row_index, count) {
            let before = row_values(row, numbers, indices, names, row_index, count - 1)->Ok_0;
            assert forall|c: int| 0 <= c < count implies is_number_in(
                #[trigger] values[c],
                row,
                numbers,
                indices[c],
            ) by {
                if c < count - 1 {
                    assert(values[c] == before[c]);
                }
            }
        } else if row_values(row, numbers, indices, names, row_index, count - 1) is Ok {
            assert(!has_number(row, numbers, indices[count - 1]));
        }
    }
}

/// Whether a row of numbers is that of a row of the table in the columns.
spec fn is_row_of(
    values: Seq<i64>,
    row: Seq<Seq<char>>,
    numbers: Seq<NumberModel>,
    indices: Seq<int>,
) -> bool {
    values.len() == indices.len() && forall|c: int|
        0 <= c < indices.len() ==> is_number_in(#[trigger] values[c], row, numbers, indices[c])
}

proof fn table_values_are(
    rows: Seq<Seq<Seq<char>>>,
    numbers: Seq<Seq<NumberModel>>,
    indices: Seq<int>,
    names: Seq<Seq<char>>,
    count: int,
)
    requires
        0 <= count,
        forall|c: int| 0 <= c < indices.len() ==> 0 <= #[trigger] indices[c],
    ensures
        match table_values(rows, numbers, indices, names, count) {
            Ok(table) => table.len() == count && forall|i: int|
                0 <= i < count ==> is_row_of(#[trigger] table[i], rows[i], numbers[i], indices),
            Err(_) => exists|i: int, c: int|
                0 <= i < count && 0 <= c < indices.len() && !has_number(
                    #[trigger] rows[i],
                    numbers[i],
                    #[trigger] indices[c],
                ),
        },
    decreases count,
{
    if count > 0 {
        let last = count - 1;
        table_values_are(rows, numbers, indices, names, last);
        row_values_are(rows[last], numbers[last], indices, names, last, indices.len() as int);
        if let Ok(table) = table_values(rows, numbers, indices, names, count) {
            let before = table_values(rows, numbers, indices, names, last)->Ok_0;
            assert forall|i: int| 0 <= i < count implies is_row_of(
                #[trigger] table[i],
                rows[i],
                numbers[i],
                indices,
            ) by {
                if i < last {
                    assert(table[i] == before[i]);
                }
            }
        } else if table_values(rows, numbers, indices, names, last) is Ok {
            let c = choose|c: int|
                0 <= c < indices.len() && !has_number(
                    rows[last],
                    numbers[last],
                    #[trigger] indices[c],
                );
            assert(!has_number(rows[last], numbers[last], indices[c]));
        }
    }
}

proof fn places_of_columns(headers: Seq<Seq<char>>, names: Seq<Seq<char>>)
    ensures
        match column_places(headers, names) {
            Ok(indices) => indices.len() == names.len() && forall|k: int|
                0 <= k < names.len() ==> is_first_at(headers, names[k], #[trigger] indices[k]),
            Err(message) => exists|k: int|
                0 <= k < names.len() && !headers.contains(#[trigger] names[k]) && message
                    == "column not found: "@ + names[k],
        },
    decreases names.len(),
{
    if names.len() > 0 {
        let rest = names.drop_last();
        let last = names.len() - 1;
        places_of_columns(headers, rest);
        found_at_first_place(headers, names.last());
        assert(names[last] == names.last());
        match column_places(headers, rest) {
            Ok(before) => {
                if let Ok(indices) = column_places(headers, names) {
                    assert forall|k: int| 0 <= k < names.len() implies is_first_at(
                        headers,
                        names[k],
                        #[trigger] indices[k],
                    ) by {
                        if k < last {
                            assert(indices[k] == before[k]);
                            assert(rest[k] == names[k]);
                        }
                    }
                } else {
                    assert(!headers.contains(names[last]));
                }
            },
            Err(message) => {
                let k = choose|k: int|
                    0 <= k < rest.len() && !headers.contains(#[trigger] rest[k]) && message
                        == "column not found: "@ + rest[k];
                assert(names[k] == rest[k]);
                assert(!headers.contains(names[k]));
            },
        }
    }
}

/// The points of two columns of a table, row by row.
pub open spec fn points_of_columns(
    numbers: Seq<Seq<NumberModel>>,
    count: nat,
    x_at: int,
    y_at: int,
) -> Seq<(i64, i64)> {
    Seq::new(count, |i: int| (numbers[i][x_at]->order, numbers[i][y_at]->order))
}

/// What is known of the numbers of an xy plot.
spec fn is_table_of(
    table: Seq<Seq<i64>>,
    csv: CsvModel,
    numbers: Seq<Seq<NumberModel>>,
    indices: Seq<int>,
) -> bool {
    table.len() == csv.rows.len() && forall|i: int|
        0 <= i < csv.rows.len() ==> is_row_of(
            #[trigger] table[i],
            csv.rows[i],
            numbers[i],
            indices,
        )
}

proof fn columns_make_points(
    csv: CsvModel,
    numbers: Seq<Seq<NumberModel>>,
    table: Seq<Seq<i64>>,
    indices: Seq<int>,
    c: int,
)
    requires
        is_table_of(table, csv, numbers, indices),
        0 < c < indices.len(),
    ensures
        pairs(column(table, 0), column(table, c)) == points_of_columns(
            numbers,
            csv.rows.len(),
            indices[0],
            indices[c],
        ),
        forall|i: int|
            0 <= i < csv.rows.len() ==> has_number(#[trigger] csv.rows[i], numbers[i], indices[0])
                && has_number(csv.rows[i], numbers[i], indices[c]),
{
    let made = pairs(column(table, 0), column(table, c));
    let wanted = points_of_columns(numbers, csv.rows.len(), indices[0], indices[c]);
    assert forall|i: int| 0 <= i < csv.rows.len() implies #[trigger] made[i] == wanted[i]
        && has_number(csv.rows[i], numbers[i], indices[0]) && has_number(
        csv.rows[i],
        numbers[i],
        indices[c],
    ) by {
        assert(is_row_of(table[i], csv.rows[i], numbers[i], indices));
        assert(is_number_in(table[i][0], csv.rows[i], numbers[i], indices[0]));
        assert(is_number_in(table[i][c], csv.rows[i], numbers[i], indices[c]));
    }
    assert(made == wanted);
    assert forall|i: int| 0 <= i < csv.rows.len() implies has_number(
        #[trigger] csv.rows[i],
        numbers[i],
        indices[0],
    ) && has_number(csv.rows[i], numbers[i], indices[c]) by {
        assert(made[i] == wanted[i]);
    }
}

proof fn xy_plot_is_of_table(
    csv: CsvModel,
    numbers: Seq<Seq<NumberModel>>,
    x_column: Seq<char>,
    y_columns: Seq<Seq<char>>,
    config: Option<(Seq<char>, Result<CsvModel, Seq<char>>)>,
) -> (found: (Seq<Seq<i64>>, Seq<int>))
    ensures
        xy_plot(csv, numbers, x_column, y_columns, config) matches Ok(plot) ==> {
            &&& is_table_of(found.0, csv, numbers, found.1)
            &&& found.1.len() == y_columns.len() + 1
            &&& y_columns.len() > 0
            &&& is_first_at(csv.headers, x_column, found.1[0])
            &&& forall|k: int|
                0 <= k < y_columns.len() ==> is_first_at(
                    csv.headers,
                    #[trigger] y_columns[k],
                    found.1[k + 1],
                )
            &&& csv.rows.len() > 0
            &&& line_plot(
                x_column,
                AxisKind::Numeric,
                "y"@,
                joined(y_columns, ", "@) + " vs "@ + x_column,
                column_series(found.0, y_columns),
                column(found.0, 0),
                values_behind_first(found.0),
            ) matches Ok(lines) && plot == (PlotModel { bands: plot.bands, ..lines })
            &&& config is None ==> plot.bands is None
            &&& config matches Some(asked) ==> (plot.bands matches Some(bands) && bands_of(
                csv,
                column(found.0, 0),
                None,
                asked.0,
                asked.1,
            ) == Ok::<BandsModel, Seq<char>>(bands))
        },
{
    let x_at = first_place(csv.headers, x_column);
    let y_indices = column_places(csv.headers, y_columns)->Ok_0;
    let indices = seq![x_at] + y_indices;
    let names = seq![x_column] + y_columns;
    let table = table_values(csv.rows, numbers, indices, names, csv.rows.len() as int)->Ok_0;
    if xy_plot(csv, numbers, x_column, y_columns, config) is Ok {
        found_at_first_place(csv.headers, x_column);
        places_of_columns(csv.headers, y_columns);
        assert forall|k: int| 0 <= k < y_columns.len() implies is_first_at(
            csv.headers,
            #[trigger] y_columns[k],
            indices[k + 1],
        ) by {
            assert(is_first_at(csv.headers, y_columns[k], y_indices[k]));
        }
        assert forall|c: int| 0 <= c < indices.len() implies 0 <= #[trigger] indices[c] by {
            if c > 0 {
                assert(is_first_at(csv.headers, y_columns[c - 1], y_indices[c - 1]));
            }
        }
        table_values_are(csv.rows, numbers, indices, names, csv.rows.len() as int);
    }
    (table, indices)
}

/// An xy plot has one series for each y column, with its name: its points are the numbers of each
/// row under the first header that is the x column and under the first that is the y column, in
/// the order of x.
pub proof fn xy_plot_shows_the_columns(
    csv: CsvModel,
    numbers: Seq<Seq<NumberModel>>,
    x_column: Seq<char>,
    y_columns: Seq<Seq<char>>,
    config: Option<(Seq<char>, Result<CsvModel, Seq<char>>)>,
    x_at: int,
    k: int,
    y_at: int,
)
    requires
        is_first_at(csv.headers, x_column, x_at),
        0 <= k < y_columns.len(),
        is_first_at(csv.headers, y_columns[k], y_at),
    ensures
        xy_plot(csv, numbers, x_column, y_columns, config) matches Ok(plot) ==> {
            &&& plot.kind is Line
            &&& plot.x_label == x_column
            &&& plot.x_kind == AxisKind::Numeric
            &&& plot.y_label == "y"@
            &&& plot.title == joined(y_columns, ", "@) + " vs "@ + x_column
            &&& csv.rows.len() > 0
            &&& forall|i: int|
                0 <= i < csv.rows.len() ==> has_number(#[trigger] csv.rows[i], numbers[i], x_at)
                    && has_number(csv.rows[i], numbers[i], y_at)
            &&& plot.series.len() == y_columns.len()
            &&& plot.series[k].name == y_columns[k]
            &&& is_ordered_form(
                plot.series[k].points,
                points_of_columns(numbers, csv.rows.len(), x_at, y_at),
            )
            &&& plot.derivative_names.len() == y_columns.len()
            &&& plot.derivative_names[k] == "d("@ + y_columns[k] + ")/d"@ + x_column
            &&& plot.allow_derivative_panel && plot.allow_fft_panel
            &&& config is None ==> plot.bands is None
            &&& config is Some ==> plot.bands is Some
        },
{
    let (table, indices) = xy_plot_is_of_table(csv, numbers, x_column, y_columns, config);
    if let Ok(plot) = xy_plot(csv, numbers, x_column, y_columns, config) {
        first_is_unique(csv.headers, x_column, x_at, indices[0]);
        assert(is_first_at(csv.headers, y_columns[k], indices[k + 1]));
        first_is_unique(csv.headers, y_columns[k], y_at, indices[k + 1]);
        columns_make_points(csv, numbers, table, indices, k + 1);
        points_are_put_in_order(points_of_columns(numbers, csv.rows.len(), x_at, y_at));
    }
}

proof fn behind_first_are(table: Seq<Seq<i64>>, width: int)
    requires
        width > 1,
        forall|i: int| 0 <= i < table.len() ==> (#[trigger] table[i]).len() == width,
    ensures
        table.len() > 0 ==> values_behind_first(table).len() > 0,
        forall|i: int, c: int|
            0 <= i < table.len() && 1 <= c < width ==> values_behind_first(table).contains(
                #[trigger] table[i][c],
            ),
        forall|y: i64| #[trigger]
            values_behind_first(table).contains(y) ==> stands_behind_first(table, width, y),
    decreases table.len(),
{
    if table.len() > 0 {
        let rest = table.drop_last();
        let last = table.len() - 1;
        assert(table[last] == table.last());
        assert forall|i: int| 0 <= i < rest.len() implies (#[trigger] rest[i]).len() == width by {
            assert(rest[i] == table[i]);
        }
        behind_first_are(rest, width);
        let before = values_behind_first(rest);
        let own = table.last().skip(1);
        let all = values_behind_first(table);
        assert forall|i: int, c: int| 0 <= i < table.len() && 1 <= c < width implies all.contains(
            #[trigger] table[i][c],
        ) by {
            if i < last {
                assert(rest[i][c] == table[i][c]);
                assert(before.contains(rest[i][c]));
                let m = choose|m: int| 0 <= m < before.len() && before[m] == rest[i][c];
                assert(all[m] == table[i][c]);
            } else {
                assert(own[c - 1] == table[i][c]);
                assert(all[before.len() + c - 1] == table[i][c]);
            }
        }
        assert forall|y: i64| #[trigger] all.contains(y) implies stands_behind_first(
            table,
            width,
            y,
        ) by {
            let m = choose|m: int| 0 <= m < all.len() && all[m] == y;
            if m < before.len() {
                assert(before[m] == y);
                assert(before.contains(y));
                let (i, c) = choose|i: int, c: int|
                    0 <= i < rest.len() && 1 <= c < width && #[trigger] rest[i][c] == y;
                assert(table[i][c] == y);
            } else {
                let c = m - before.len() + 1;
                assert(own[c - 1] == y);
                assert(table[last][c] == y);
            }
        }
    }
}

spec fn stands_behind_first(table: Seq<Seq<i64>>, width: int, y: i64) -> bool {
    exists|i: int, c: int| 0 <= i < table.len() && 1 <= c < width && #[trigger] table[i][c] == y
}

proof fn column_series_numbers(table: Seq<Seq<i64>>, names: Seq<Seq<char>>)
    requires
        names.len() > 0,
        forall|i: int| 0 <= i < table.len() ==> (#[trigger] table[i]).len() == names.len() + 1,
    ensures
        numbers_of_series(
            column_series(table, names),
            column(table, 0),
            values_behind_first(table),
        ),
        table.len() > 0 ==> values_behind_first(table).len() > 0,
{
    let series = column_series(table, names);
    let xs = column(table, 0);
    let ys = values_behind_first(table);
    behind_first_are(table, names.len() + 1int);
    assert forall|s: int, p: int|
        0 <= s < series.len() && 0 <= p < series[s].points.len() implies {
        let point = #[trigger] series[s].points[p];
        xs.contains(point.0) && ys.contains(point.1)
    } by {
        assert(xs[p] == series[s].points[p].0);
        assert(table[p][s + 1] == series[s].points[p].1);
    }
    assert forall|x: i64| #[trigger] xs.contains(x) implies has_place(series, x) by {
        let i = choose|i: int| 0 <= i < xs.len() && xs[i] == x;
        assert(series[0].points[i].0 == x);
    }
    assert forall|y: i64| #[trigger] ys.contains(y) implies has_value(series, y) by {
        assert(stands_behind_first(table, names.len() + 1int, y));
        let (i, c) = choose|i: int, c: int|
            0 <= i < table.len() && 1 <= c < names.len() + 1 && #[trigger] table[i][c] == y;
        assert(series[c - 1].points[i].1 == y);
    }
}

proof fn same_points_same_reach(lines: PlotModel, plot: PlotModel)
    requires
        reaches_over(lines),
        plot.series == lines.series,
        plot.x_range == lines.x_range,
        plot.y_range == lines.y_range,
    ensures
        reaches_over(plot),
{
}

proof fn columns_reach_over(table: Seq<Seq<i64>>, x_column: Seq<char>, y_columns: Seq<Seq<char>>)
    requires
        table.len() > 0,
        y_columns.len() > 0,
        forall|i: int| 0 <= i < table.len() ==> (#[trigger] table[i]).len() == y_columns.len() + 1,
    ensures
        line_plot(
            x_column,
            AxisKind::Numeric,
            "y"@,
            joined(y_columns, ", "@) + " vs "@ + x_column,
            column_series(table, y_columns),
            column(table, 0),
            values_behind_first(table),
        ) matches Ok(lines) && reaches_over(lines),
{
    column_series_numbers(table, y_columns);
    line_plot_reaches_over(
        x_column,
        AxisKind::Numeric,
        "y"@,
        joined(y_columns, ", "@) + " vs "@ + x_column,
        column_series(table, y_columns),
        column(table, 0),
        values_behind_first(table),
    );
}

/// In an xy plot the x range holds the place of every point of every series and the y range its
/// value, and the ends of both are those of points.
#[verifier::spinoff_prover]
#[verifier::rlimit(30)]
pub proof fn xy_plot_reaches_over_its_points(
    csv: CsvModel,
    numbers: Seq<Seq<NumberModel>>,
    x_column: Seq<char>,
    y_columns: Seq<Seq<char>>,
    config: Option<(Seq<char>, Result<CsvModel, Seq<char>>)>,
)
    ensures
        xy_plot(csv, numbers, x_column, y_columns, config) matches Ok(plot) ==> reaches_over(plot),
{
    let (table, indices) = xy_plot_is_of_table(csv, numbers, x_column, y_columns, config);
    if let Ok(plot) = xy_plot(csv, numbers, x_column, y_columns, config) {
        assert forall|i: int| 0 <= i < table.len() implies (#[trigger] table[i]).len()
            == y_columns.len() + 1 by {
            assert(is_row_of(table[i], csv.rows[i], numbers[i], indices));
        }
        columns_reach_over(table, x_column, y_columns);
        let lines = line_plot(
            x_column,
            AxisKind::Numeric,
            "y"@,
            joined(y_columns, ", "@) + " vs "@ + x_column,
            column_series(table, y_columns),
            column(table, 0),
            values_behind_first(table),
        )->Ok_0;
        same_points_same_reach(lines, plot);
    }
}

/// Where the columns are there, there is a row, and all cells in the columns hold finite numbers,
/// an xy plot without states comes out.
pub proof fn usable_columns_are_plotted(
    csv: CsvModel,
    numbers: Seq<Seq<NumberModel>>,
    x_column: Seq<char>,
    y_columns: Seq<Seq<char>>,
)
    requires
        csv.headers.contains(x_column),
        y_columns.len() > 0,
        csv.rows.len() > 0,
        forall|k: int|
            0 <= k < y_columns.len() ==> csv.headers.contains(#[trigger] y_columns[k]),
        forall|i: int, at: int|
            0 <= i < csv.rows.len() && 0 <= at < csv.headers.len() && (csv.headers[at] == x_column
                || y_columns.contains(csv.headers[at])) ==> #[trigger] has_number(
                csv.rows[i],
                numbers[i],
                at,
            ),
    ensures
        xy_plot(csv, numbers, x_column, y_columns, None) is Ok,
{
    found_at_first_place(csv.headers, x_column);
    let x_at = first_place(csv.headers, x_column);
    places_of_columns(csv.headers, y_columns);
    if let Err(message) = column_places(csv.headers, y_columns) {
        let k = choose|k: int|
            0 <= k < y_columns.len() && !csv.headers.contains(#[trigger] y_columns[k]);
        assert(csv.headers.contains(y_columns[k]));
    }
    let y_indices = column_places(csv.headers, y_columns)->Ok_0;
    let indices = seq![x_at] + y_indices;
    let names = seq![x_column] + y_columns;
    assert forall|c: int| 0 <= c < indices.len() implies 0 <= #[trigger] indices[c]
        < csv.headers.len() && (csv.headers[indices[c]] == x_column || y_columns.contains(
        csv.headers[indices[c]],
    )) by {
        if c > 0 {
            assert(is_first_at(csv.headers, y_columns[c - 1], y_indices[c - 1]));
            assert(y_columns.contains(y_columns[c - 1]));
        }
    }
    table_values_are(csv.rows, numbers, indices, names, csv.rows.len() as int);
    if table_values(csv.rows, numbers, indices, names, csv.rows.len() as int) is Err {
        let (i, c) = choose|i: int, c: int|
            0 <= i < csv.rows.len() && 0 <= c < indices.len() && !has_number(
                #[trigger] csv.rows[i],
                numbers[i],
                #[trigger] indices[c],
            );
        assert(has_number(csv.rows[i], numbers[i], indices[c]));
    }
}

/// An xy plot of a table without rows, without y columns, or of a column that is not there, does
/// not come out, and it is said why.
pub proof fn unusable_columns_are_told(
    csv: CsvModel,
    numbers: Seq<Seq<NumberModel>>,
    x_column: Seq<char>,
    y_columns: Seq<Seq<char>>,
    config: Option<(Seq<char>, Result<CsvModel, Seq<char>>)>,
)
    ensures
        !csv.headers.contains(x_column) ==> xy_plot(csv, numbers, x_column, y_columns, config)
            == Err::<PlotModel, Seq<char>>("column not found: "@ + x_column),
        csv.headers.contains(x_column) && y_columns.len() == 0 ==> xy_plot(
            csv,
            numbers,
            x_column,
            y_columns,
            config,
        ) == Err::<PlotModel, Seq<char>>("csv_plot requires at least one y column"@),
        csv.headers.contains(x_column) && y_columns.len() > 0 && csv.rows.len() == 0 && (forall|
            k: int,
        |
            0 <= k < y_columns.len() ==> csv.headers.contains(#[trigger] y_columns[k])) ==> xy_plot(
            csv,
            numbers,
            x_column,
            y_columns,
            config,
        ) == Err::<PlotModel, Seq<char>>("csv_plot requires at least one row"@),
{
    places_of_columns(csv.headers, y_columns);
}

/// Whether the label, the point in time and the value are those of a row.
spec fn is_labeled_row_of(
    data: LabeledModel,
    csv: CsvModel,
    numbers: Seq<Seq<NumberModel>>,
    times: Seq<Option<i64>>,
    columns: LabeledColumns,
    i: int,
) -> bool {
    &&& has_label(csv.rows[i], columns.label_index)
    &&& data.labels[i] == trimmed(csv.rows[i][columns.label_index])
    &&& times[i] == Some(data.times[i])
    &&& is_number_in(data.values[i], csv.rows[i], numbers[i], columns.value_index)
}

proof fn labeled_rows_are(
    csv: CsvModel,
    numbers: Seq<Seq<NumberModel>>,
    times: Seq<Option<i64>>,
    columns: LabeledColumns,
    count: int,
)
    requires
        0 <= count,
        0 <= columns.label_index,
        0 <= columns.value_index,
    ensures
        labeled_rows(csv.rows, numbers, times, columns, count) matches Ok(data) ==> {
            &&& data.labels.len() == count
            &&& data.times.len() == count
            &&& data.values.len() == count
            &&& forall|i: int|
                0 <= i < count ==> #[trigger] is_labeled_row_of(
                    data,
                    csv,
                    numbers,
                    times,
                    columns,
                    i,
                )
        },
    decreases count,
{
    if count > 0 {
        let last = count - 1;
        labeled_rows_are(csv, numbers, times, columns, last);
        cell_gives_its_number(
            csv.rows[last],
            numbers[last],
            columns.value_index,
            columns.value,
            last,
        );
        if let Ok(data) = labeled_rows(csv.rows, numbers, times, columns, count) {
            let before = labeled_rows(csv.rows, numbers, times, columns, last)->Ok_0;
            assert forall|i: int| 0 <= i < count implies #[trigger] is_labeled_row_of(
                data,
                csv,
                numbers,
                times,
                columns,
                i,
            ) by {
                if i < last {
                    assert(is_labeled_row_of(before, csv, numbers, times, columns, i));
                }
            }
        }
    }
}

/// Whether an item has a label, by its place.
pub open spec fn is_labeled(labels: Seq<Seq<char>>, label: Seq<char>) -> spec_fn(int) -> bool {
    |k: int| labels[k] == label
}

/// The items with a label are those at the places of the label, in order.
pub proof fn items_with_label<T>(items: Seq<T>, labels: Seq<Seq<char>>, label: Seq<char>) -> (places: Seq<
    int,
>)
    requires
        items.len() <= labels.len(),
    ensures
        are_all_wanted(places, items.len() as int, is_labeled(labels, label)),
        with_label(items, labels, label).len() == places.len(),
        forall|i: int|
            0 <= i < places.len() ==> #[trigger] with_label(items, labels, label)[i]
                == items[places[i]],
    decreases items.len(),
{
    let kept = with_label(items, labels, label);
    let wanted = is_labeled(labels, label);
    if items.len() == 0 {
        let places = Seq::<int>::empty();
        assert(are_all_wanted(places, 0, wanted));
        places
    } else {
        let rest = items.drop_last();
        let last = items.len() - 1;
        let before = items_with_label(rest, labels, label);
        let places = if labels[last] == label {
            before.push(last)
        } else {
            before
        };
        assert forall|k: int| 0 <= k < items.len() && #[trigger] wanted(k) implies places.contains(
            k,
        ) by {
            if k < last {
                assert(before.contains(k));
                let m = choose|m: int| 0 <= m < before.len() && before[m] == k;
                assert(places[m] == k);
            } else {
                assert(places[places.len() - 1] == k);
            }
        }
        assert forall|i: int| 0 <= i < places.len() implies #[trigger] kept[i]
            == items[places[i]] by {
            if i < before.len() {
                assert(with_label(rest, labels, label)[i] == rest[before[i]]);
            }
        }
        assert(are_all_wanted(places, items.len() as int, wanted));
        places
    }
}

proof fn label_series_numbers(data: LabeledModel)
    requires
        data.times.len() == data.labels.len(),
        data.values.len() == data.labels.len(),
    ensures
        numbers_of_series(label_series(data), data.times, data.values),
{
    let series = label_series(data);
    let names = sorted_labels(data.labels);
    let items = pairs(data.times, data.values);
    sorted_labels_are_sorted(data.labels);
    assert forall|s: int, p: int|
        0 <= s < series.len() && 0 <= p < series[s].points.len() implies {
        let point = #[trigger] series[s].points[p];
        data.times.contains(point.0) && data.values.contains(point.1)
    } by {
        let places = items_with_label(items, data.labels, names[s]);
        assert(with_label(items, data.labels, names[s])[p] == items[places[p]]);
        assert(data.times[places[p]] == series[s].points[p].0);
        assert(data.values[places[p]] == series[s].points[p].1);
    }
    assert forall|i: int| 0 <= i < data.labels.len() implies has_place(
        series,
        #[trigger] data.times[i],
    ) && has_value(series, data.values[i]) by {
        point_is_in_its_series(data, i);
    }
    assert forall|x: i64| #[trigger] data.times.contains(x) implies has_place(series, x) by {
        let i = choose|i: int| 0 <= i < data.times.len() && data.times[i] == x;
        assert(has_place(series, data.times[i]));
    }
    assert forall|y: i64| #[trigger] data.values.contains(y) implies has_value(series, y) by {
        let i = choose|i: int| 0 <= i < data.values.len() && data.values[i] == y;
        assert(has_place(series, data.times[i]));
    }
}

proof fn point_is_in_its_series(data: LabeledModel, i: int)
    requires
        data.times.len() == data.labels.len(),
        data.values.len() == data.labels.len(),
        0 <= i < data.labels.len(),
    ensures
        has_place(label_series(data), data.times[i]),
        has_value(label_series(data), data.values[i]),
{
    let series = label_series(data);
    let names = sorted_labels(data.labels);
    let items = pairs(data.times, data.values);
    sorted_labels_are_sorted(data.labels);
    assert(data.labels.contains(data.labels[i]));
    assert(names.contains(data.labels[i]));
    let s = choose|s: int| 0 <= s < names.len() && names[s] == data.labels[i];
    let places = items_with_label(items, data.labels, names[s]);
    let wanted = is_labeled(data.labels, names[s]);
    assert(wanted(i));
    assert(places.contains(i));
    let p = choose|p: int| 0 <= p < places.len() && places[p] == i;
    assert(with_label(items, data.labels, names[s])[p] == items[places[p]]);
    assert(series[s].points[p] == items[i]);
    assert(series[s].points[p].0 == data.times[i]);
    assert(series[s].points[p].1 == data.values[i]);
}

/// Whether the places are those of all rows with a label, in order.
pub open spec fn are_rows_with(
    places: Seq<int>,
    csv: CsvModel,
    label_at: int,
    label: Seq<char>,
) -> bool {
    are_all_wanted(
        places,
        csv.rows.len() as int,
        |row: int| trimmed(csv.rows[row][label_at]) == label,
    )
}

/// Whether a series is that of a label: its points are the points in time and the values of the
/// rows with the label, in the order of time.
pub open spec fn is_series_of(
    series: SeriesModel,
    csv: CsvModel,
    numbers: Seq<Seq<NumberModel>>,
    times: Seq<Option<i64>>,
    label_at: int,
    value_at: int,
) -> bool {
    exists|places: Seq<int>|
        #![trigger are_rows_with(places, csv, label_at, series.name)]
        are_rows_with(places, csv, label_at, series.name) && is_ordered_form(
            series.points,
            Seq::new(
                places.len(),
                |i: int| (times[places[i]]->0, numbers[places[i]][value_at]->order),
            ),
        )
}

spec fn are_labeled_rows_of(
    data: LabeledModel,
    csv: CsvModel,
    numbers: Seq<Seq<NumberModel>>,
    times: Seq<Option<i64>>,
    columns: LabeledColumns,
) -> bool {
    &&& data.labels.len() == csv.rows.len()
    &&& data.times.len() == csv.rows.len()
    &&& data.values.len() == csv.rows.len()
    &&& forall|i: int|
        0 <= i < csv.rows.len() ==> #[trigger] is_labeled_row_of(
            data,
            csv,
            numbers,
            times,
            columns,
            i,
        )
}

proof fn labeled_plot_is_of_rows(
    csv: CsvModel,
    numbers: Seq<Seq<NumberModel>>,
    times: Seq<Option<i64>>,
    label_column: Seq<char>,
    timestamp_column: Seq<char>,
    value_column: Seq<char>,
    config: Option<(Seq<char>, Result<CsvModel, Seq<char>>)>,
) -> (found: (LabeledModel, LabeledColumns))
    ensures
        labeled_plot(
            csv,
            numbers,
            times,
            label_column,
            timestamp_column,
            value_column,
            config,
        ) matches Ok(plot) ==> {
            &&& are_labeled_rows_of(found.0, csv, numbers, times, found.1)
            &&& is_first_at(csv.headers, label_column, found.1.label_index)
            &&& is_first_at(csv.headers, value_column, found.1.value_index)
            &&& csv.rows.len() > 0
            &&& line_plot(
                timestamp_column,
                AxisKind::Timestamp,
                value_column,
                value_column + " vs "@ + timestamp_column,
                label_series(found.0),
                found.0.times,
                found.0.values,
            ) matches Ok(lines) && plot == (PlotModel { bands: plot.bands, ..lines })
            &&& config is None ==> plot.bands is None
            &&& config matches Some(asked) ==> (plot.bands matches Some(bands) && bands_of(
                csv,
                found.0.times,
                Some(found.0.labels),
                asked.0,
                asked.1,
            ) == Ok::<BandsModel, Seq<char>>(bands))
        },
{
    found_at_first_place(csv.headers, label_column);
    found_at_first_place(csv.headers, value_column);
    let columns = LabeledColumns {
        label: label_column,
        time: timestamp_column,
        value: value_column,
        label_index: first_place(csv.headers, label_column),
        time_index: first_place(csv.headers, timestamp_column),
        value_index: first_place(csv.headers, value_column),
    };
    let data = labeled_rows(csv.rows, numbers, times, columns, csv.rows.len() as int)->Ok_0;
    labeled_rows_are(csv, numbers, times, columns, csv.rows.len() as int);
    (data, columns)
}

/// A plot of labeled series has one series for each label, in the order of the labels: its points
/// are the points in time of the rows with the label and their numbers under the first header
/// that is the value column, in the order of time.
pub proof fn labeled_plot_shows_the_labels(
    csv: CsvModel,
    numbers: Seq<Seq<NumberModel>>,
    times: Seq<Option<i64>>,
    label_column: Seq<char>,
    timestamp_column: Seq<char>,
    value_column: Seq<char>,
    config: Option<(Seq<char>, Result<CsvModel, Seq<char>>)>,
    label_at: int,
    value_at: int,
)
    requires
        is_first_at(csv.headers, label_column, label_at),
        is_first_at(csv.headers, value_column, value_at),
    ensures
        labeled_plot(
            csv,
            numbers,
            times,
            label_column,
            timestamp_column,
            value_column,
            config,
        ) matches Ok(plot) ==> {
            &&& csv.rows.len() > 0
            &&& forall|i: int|
                0 <= i < csv.rows.len() ==> has_label(#[trigger] csv.rows[i], label_at)
                    && has_number(csv.rows[i], numbers[i], value_at) && times[i] is Some
            &&& are_labels_of(
                Seq::new(plot.series.len(), |s: int| plot.series[s].name),
                csv.rows,
                label_at,
            )
            &&& forall|s: int|
                0 <= s < plot.series.len() ==> is_series_of(
                    #[trigger] plot.series[s],
                    csv,
                    numbers,
                    times,
                    label_at,
                    value_at,
                )
        },
{
    let (data, columns) = labeled_plot_is_of_rows(
        csv,
        numbers,
        times,
        label_column,
        timestamp_column,
        value_column,
        config,
    );
    if let Ok(plot) = labeled_plot(
        csv,
        numbers,
        times,
        label_column,
        timestamp_column,
        value_column,
        config,
    ) {
        first_is_unique(csv.headers, label_column, label_at, columns.label_index);
        first_is_unique(csv.headers, value_column, value_at, columns.value_index);
        labels_are_named(csv, numbers, times, columns, data);
        assert(Seq::new(plot.series.len(), |s: int| plot.series[s].name) == sorted_labels(
            data.labels,
        ));
        assert forall|s: int| 0 <= s < plot.series.len() implies is_series_of(
            #[trigger] plot.series[s],
            csv,
            numbers,
            times,
            label_at,
            value_at,
        ) by {
            series_is_of_its_label(csv, numbers, times, columns, data, s);
        }
    }
}

/// A plot of labeled series names its axes after the columns, and each derivative after its
/// series. It has the states that a file describes where one is given.
pub proof fn labeled_plot_is_named(
    csv: CsvModel,
    numbers: Seq<Seq<NumberModel>>,
    times: Seq<Option<i64>>,
    label_column: Seq<char>,
    timestamp_column: Seq<char>,
    value_column: Seq<char>,
    config: Option<(Seq<char>, Result<CsvModel, Seq<char>>)>,
)
    ensures
        labeled_plot(
            csv,
            numbers,
            times,
            label_column,
            timestamp_column,
            value_column,
            config,
        ) matches Ok(plot) ==> {
            &&& plot.kind is Line
            &&& plot.x_label == timestamp_column
            &&& plot.x_kind == AxisKind::Timestamp
            &&& plot.y_label == value_column
            &&& plot.title == value_column + " vs "@ + timestamp_column
            &&& plot.derivative_names.len() == plot.series.len()
            &&& forall|s: int|
                0 <= s < plot.series.len() ==> #[trigger] plot.derivative_names[s] == "d("@
                    + plot.series[s].name + ")/d"@ + timestamp_column
            &&& plot.allow_derivative_panel && plot.allow_fft_panel
            &&& config is None ==> plot.bands is None
            &&& config is Some ==> plot.bands is Some
        },
{
    let found = labeled_plot_is_of_rows(
        csv,
        numbers,
        times,
        label_column,
        timestamp_column,
        value_column,
        config,
    );
}

/// In a plot of labeled series the x range holds the place of every point of every series and the
/// y range its value, and the ends of both are those of points.
#[verifier::spinoff_prover]
#[verifier::rlimit(30)]
pub proof fn labeled_plot_reaches_over_its_points(
    csv: CsvModel,
    numbers: Seq<Seq<NumberModel>>,
    times: Seq<Option<i64>>,
    label_column: Seq<char>,
    timestamp_column: Seq<char>,
    value_column: Seq<char>,
    config: Option<(Seq<char>, Result<CsvModel, Seq<char>>)>,
)
    ensures
        labeled_plot(
            csv,
            numbers,
            times,
            label_column,
            timestamp_column,
            value_column,
            config,
        ) matches Ok(plot) ==> reaches_over(plot),
{
    let (data, columns) = labeled_plot_is_of_rows(
        csv,
        numbers,
        times,
        label_column,
        timestamp_column,
        value_column,
        config,
    );
    if let Ok(plot) = labeled_plot(
        csv,
        numbers,
        times,
        label_column,
        timestamp_column,
        value_column,
        config,
    ) {
        label_series_numbers(data);
        line_plot_reaches_over(
            timestamp_column,
            AxisKind::Timestamp,
            value_column,
            value_column + " vs "@ + timestamp_column,
            label_series(data),
            data.times,
            data.values,
        );
        let lines = line_plot(
            timestamp_column,
            AxisKind::Timestamp,
            value_column,
            value_column + " vs "@ + timestamp_column,
            label_series(data),
            data.times,
            data.values,
        )->Ok_0;
        same_points_same_reach(lines, plot);
    }
}

proof fn labels_are_named(
    csv: CsvModel,
    numbers: Seq<Seq<NumberModel>>,
    times: Seq<Option<i64>>,
    columns: LabeledColumns,
    data: LabeledModel,
)
    requires
        data.labels.len() == csv.rows.len(),
        forall|i: int|
            0 <= i < csv.rows.len() ==> #[trigger] is_labeled_row_of(
                data,
                csv,
                numbers,
                times,
                columns,
                i,
            ),
    ensures
        are_labels_of(sorted_labels(data.labels), csv.rows, columns.label_index),
        forall|i: int|
            0 <= i < csv.rows.len() ==> has_label(#[trigger] csv.rows[i], columns.label_index)
                && has_number(csv.rows[i], numbers[i], columns.value_index) && times[i] is Some,
{
    let names = sorted_labels(data.labels);
    sorted_labels_are_sorted(data.labels);
    assert forall|i: int| 0 <= i < csv.rows.len() implies has_label(
        #[trigger] csv.rows[i],
        columns.label_index,
    ) && has_number(csv.rows[i], numbers[i], columns.value_index) && times[i] is Some
        && names.contains(trimmed(csv.rows[i][columns.label_index])) by {
        assert(is_labeled_row_of(data, csv, numbers, times, columns, i));
        assert(data.labels.contains(data.labels[i]));
    }
    assert forall|s: int| 0 <= s < names.len() implies is_label_in(
        #[trigger] names[s],
        csv.rows,
        columns.label_index,
    ) by {
        assert(names.contains(names[s]));
        assert(data.labels.contains(names[s]));
        let row = choose|row: int| 0 <= row < data.labels.len() && data.labels[row] == names[s];
        assert(is_labeled_row_of(data, csv, numbers, times, columns, row));
        assert(trimmed(csv.rows[row][columns.label_index]) == names[s]);
    }
}

proof fn series_is_of_its_label(
    csv: CsvModel,
    numbers: Seq<Seq<NumberModel>>,
    times: Seq<Option<i64>>,
    columns: LabeledColumns,
    data: LabeledModel,
    s: int,
)
    requires
        data.labels.len() == csv.rows.len(),
        data.times.len() == csv.rows.len(),
        data.values.len() == csv.rows.len(),
        0 <= s < label_series(data).len(),
        forall|i: int|
            0 <= i < csv.rows.len() ==> #[trigger] is_labeled_row_of(
                data,
                csv,
                numbers,
                times,
                columns,
                i,
            ),
    ensures
        is_series_of(
            SeriesModel {
                name: label_series(data)[s].name,
                points: sorted(label_series(data)[s].points),
            },
            csv,
            numbers,
            times,
            columns.label_index,
            columns.value_index,
        ),
{
    let own = label_series(data)[s];
    let label = own.name;
    let items = pairs(data.times, data.values);
    let places = items_with_label(items, data.labels, label);
    let count = csv.rows.len() as int;
    let by_label = is_labeled(data.labels, label);
    let wanted = |row: int| trimmed(csv.rows[row][columns.label_index]) == label;
    assert(are_all_wanted(places, count, wanted)) by {
        assert forall|i: int| 0 <= i < places.len() implies 0 <= #[trigger] places[i] < count
            && wanted(places[i]) by {
            assert(by_label(places[i]));
            assert(is_labeled_row_of(data, csv, numbers, times, columns, places[i]));
        }
        assert forall|k: int| 0 <= k < count && #[trigger] wanted(k) implies places.contains(k) by {
            assert(is_labeled_row_of(data, csv, numbers, times, columns, k));
            assert(by_label(k));
        }
    }
    let source = Seq::new(
        places.len(),
        |i: int| (times[places[i]]->0, numbers[places[i]][columns.value_index]->order),
    );
    assert forall|i: int| 0 <= i < places.len() implies #[trigger] own.points[i] == source[i] by {
        assert(with_label(items, data.labels, label)[i] == items[places[i]]);
        assert(is_labeled_row_of(data, csv, numbers, times, columns, places[i]));
    }
    assert(own.points == source);
    points_are_put_in_order(source);
    let series = SeriesModel { name: label, points: sorted(own.points) };
    assert(are_rows_with(places, csv, columns.label_index, series.name));
}

/// A map of frequencies is made of the numbers of each row under the first header that is the x
/// column and under the first that is the y column, in the order of x: there are at least four,
/// no two of them at the same x, and its x range goes from the first to the last.
pub proof fn spectrum_shows_the_columns(
    csv: CsvModel,
    numbers: Seq<Seq<NumberModel>>,
    x_column: Seq<char>,
    y_column: Seq<char>,
    gaps: Seq<bool>,
    x_at: int,
    y_at: int,
)
    requires
        is_first_at(csv.headers, x_column, x_at),
        is_first_at(csv.headers, y_column, y_at),
    ensures
        spectrum_plot(csv, numbers, x_column, y_column, gaps) matches Ok(plot) ==> {
            &&& csv.rows.len() >= 4
            &&& plot.kind matches KindModel::HeatmapSource(points) && {
                &&& is_ordered_form(
                    points,
                    points_of_columns(numbers, csv.rows.len(), x_at, y_at),
                )
                &&& forall|i: int|
                    0 <= i < points.len() - 1 ==> {
                        let x = (#[trigger] points[i]).0;
                        let next = points[i + 1].0;
                        x < next && !(x == -1 && next == 0) && (i < gaps.len() ==> gaps[i])
                    }
                &&& plot.x_range == (points[0].0, points[points.len() - 1].0)
            }
            &&& plot.x_label == x_column
            &&& plot.y_label == "frequency"@
            &&& plot.title == "spectrogram("@ + y_column + ")"@
            &&& plot.series.len() == 0
            &&& !plot.allow_derivative_panel && !plot.allow_fft_panel
        },
{
    if let Ok(plot) = spectrum_plot(csv, numbers, x_column, y_column, gaps) {
        assert(csv.headers.contains(x_column) && csv.headers.contains(y_column));
        found_at_first_place(csv.headers, x_column);
        found_at_first_place(csv.headers, y_column);
        first_is_unique(csv.headers, x_column, x_at, first_place(csv.headers, x_column));
        first_is_unique(csv.headers, y_column, y_at, first_place(csv.headers, y_column));
        let indices = seq![x_at, y_at];
        let names = seq![x_column, y_column];
        table_values_are(csv.rows, numbers, indices, names, csv.rows.len() as int);
        let table = table_values(csv.rows, numbers, indices, names, csv.rows.len() as int)->Ok_0;
        columns_make_points(csv, numbers, table, indices, 1);
        let source = points_of_columns(numbers, csv.rows.len(), x_at, y_at);
        points_are_put_in_order(source);
        let points = sorted(source);
        assert(spectrum_points(csv, numbers, x_column, y_column)->Ok_0 == points);
        assert forall|i: int| 0 <= i < points.len() - 1 implies {
            let x = (#[trigger] points[i]).0;
            let next = points[i + 1].0;
            x < next && !(x == -1 && next == 0) && (i < gaps.len() ==> gaps[i])
        } by {
            assert(advances(points, gaps, i));
            assert(points[i].0 <= points[i + 1].0);
        }
        let xs = Seq::new(points.len(), |i: int| points[i].0);
        all_between_lowest_and_highest(xs);
        let low = choose|k: int| 0 <= k < xs.len() && xs[k] == lowest(xs);
        let high = choose|k: int| 0 <= k < xs.len() && xs[k] == highest(xs);
        assert(lowest(xs) <= xs[0]);
        assert(xs[xs.len() - 1] <= highest(xs));
        if low > 0 {
            assert(points[0].0 <= points[low].0);
        }
        if high < xs.len() - 1 {
            assert(points[high].0 <= points[points.len() - 1].0);
        }
    }
}

/// An image has the plot and the size that are asked for; only plots of lines have one.
pub proof fn image_is_as_asked(plot: PlotModel, width: u32, height: u32)
    ensures
        plot.kind is Line ==> image_of(Ok(plot), (width, height)) == Ok::<
            ImageModel,
            Seq<char>,
        >(ImageModel { plot, width, height }),
        !(plot.kind is Line) ==> image_of(Ok(plot), (width, height)) == Err::<
            ImageModel,
            Seq<char>,
        >("image export supports line plots only"@),
{
}

/// Where states are asked for, an xy plot shows those of the rows at their places under the first
/// header that is the x column.
pub proof fn xy_plot_shows_the_states(
    csv: CsvModel,
    numbers: Seq<Seq<NumberModel>>,
    x_column: Seq<char>,
    y_columns: Seq<Seq<char>>,
    state_column: Seq<char>,
    state_csv: Result<CsvModel, Seq<char>>,
    x_at: int,
)
    requires
        is_first_at(csv.headers, x_column, x_at),
    ensures
        xy_plot_asked(
            csv,
            numbers,
            x_column,
            y_columns,
            Some(state_column),
            Some(state_csv),
        ) matches Ok(plot) ==> (plot.bands matches Some(bands) && bands_of(
            csv,
            Seq::new(csv.rows.len(), |i: int| numbers[i][x_at]->order),
            None,
            state_column,
            state_csv,
        ) == Ok::<BandsModel, Seq<char>>(bands)),
        xy_plot_asked(csv, numbers, x_column, y_columns, None, None) == xy_plot(
            csv,
            numbers,
            x_column,
            y_columns,
            None,
        ),
        xy_plot_asked(csv, numbers, x_column, y_columns, Some(state_column), None) == Err::<
            PlotModel,
            Seq<char>,
        >("--state-column and --state-csv must be specified together"@),
{
    let config = Some((state_column, state_csv));
    let (table, indices) = xy_plot_is_of_table(csv, numbers, x_column, y_columns, config);
    if let Ok(plot) = xy_plot(csv, numbers, x_column, y_columns, config) {
        first_is_unique(csv.headers, x_column, x_at, indices[0]);
        let places = Seq::new(csv.rows.len(), |i: int| numbers[i][x_at]->order);
        columns_make_points(csv, numbers, table, indices, 1);
        assert forall|i: int| 0 <= i < csv.rows.len() implies #[trigger] column(table, 0)[i]
            == places[i] by {
            assert(is_row_of(table[i], csv.rows[i], numbers[i], indices));
            assert(is_number_in(table[i][0], csv.rows[i], numbers[i], indices[0]));
        }
        assert(column(table, 0) == places);
    }
}

/// Where states are asked for, a plot of labeled series shows those of the rows at their points in
/// time, label by label.
pub proof fn labeled_plot_shows_the_states(
    csv: CsvModel,
    numbers: Seq<Seq<NumberModel>>,
    times: Seq<Option<i64>>,
    label_column: Seq<char>,
    timestamp_column: Seq<char>,
    value_column: Seq<char>,
    state_column: Seq<char>,
    state_csv: Result<CsvModel, Seq<char>>,
    label_at: int,
)
    requires
        is_first_at(csv.headers, label_column, label_at),
    ensures
        labeled_plot_asked(
            csv,
            numbers,
            times,
            label_column,
            timestamp_column,
            value_column,
            Some(state_column),
            Some(state_csv),
        ) matches Ok(plot) ==> (plot.bands matches Some(bands) && bands_of(
            csv,
            Seq::new(csv.rows.len(), |i: int| times[i]->0),
            Some(Seq::new(csv.rows.len(), |i: int| trimmed(csv.rows[i][label_at]))),
            state_column,
            state_csv,
        ) == Ok::<BandsModel, Seq<char>>(bands)),
        labeled_plot_asked(
            csv,
            numbers,
            times,
            label_column,
            timestamp_column,
            value_column,
            None,
            None,
        ) == labeled_plot(
            csv,
            numbers,
            times,
            label_column,
            timestamp_column,
            value_column,
            None,
        ),
{
    let config = Some((state_column, state_csv));
    let (data, columns) = labeled_plot_is_of_rows(
        csv,
        numbers,
        times,
        label_column,
        timestamp_column,
        value_column,
        config,
    );
    if let Ok(plot) = labeled_plot(
        csv,
        numbers,
        times,
        label_column,
        timestamp_column,
        value_column,
        config,
    ) {
        first_is_unique(csv.headers, label_column, label_at, columns.label_index);
        let places = Seq::new(csv.rows.len(), |i: int| times[i]->0);
        let labels = Seq::new(csv.rows.len(), |i: int| trimmed(csv.rows[i][label_at]));
        assert forall|i: int| 0 <= i < csv.rows.len() implies #[trigger] data.times[i] == places[i]
            && data.labels[i] == labels[i] by {
            assert(is_labeled_row_of(data, csv, numbers, times, columns, i));
        }
        assert(data.times == places);
        assert(data.labels == labels) by {
            assert forall|i: int| 0 <= i < labels.len() implies #[trigger] data.labels[i]
                == labels[i] by {
                assert(data.times[i] == places[i]);
            }
        }
    }
}

/// A plot of labeled series, or a map of frequencies, of a column that is not there does not come
/// out; the message names the first that is missing.
pub proof fn lacking_columns_are_told(
    csv: CsvModel,
    numbers: Seq<Seq<NumberModel>>,
    times: Seq<Option<i64>>,
    label_column: Seq<char>,
    timestamp_column: Seq<char>,
    value_column: Seq<char>,
    config: Option<(Seq<char>, Result<CsvModel, Seq<char>>)>,
    gaps: Seq<bool>,
)
    ensures
        !csv.headers.contains(label_column) || !csv.headers.contains(timestamp_column)
            || !csv.headers.contains(value_column) ==> labeled_plot(
            csv,
            numbers,
            times,
            label_column,
            timestamp_column,
            value_column,
            config,
        ) == Err::<PlotModel, Seq<char>>("column not found: "@ + (if !csv.headers.contains(
            label_column,
        ) {
            label_column
        } else if !csv.headers.contains(timestamp_column) {
            timestamp_column
        } else {
            value_column
        })),
        !csv.headers.contains(timestamp_column) || !csv.headers.contains(value_column)
            ==> spectrum_plot(csv, numbers, timestamp_column, value_column, gaps) == Err::<
            PlotModel,
            Seq<char>,
        >("column not found: "@ + (if !csv.headers.contains(timestamp_column) {
            timestamp_column
        } else {
            value_column
        })),
{
}

/// An image has 1600 by 900 pixels where nothing else is asked for.
pub proof fn images_have_a_size_of_their_own()
    ensures
        DEFAULT_IMAGE_SIZE == (1600u32, 900u32),
{
}

} // verus!
