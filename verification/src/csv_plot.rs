//! Plots of the columns of a table.
//!
//! The numbers of a plot are known by their places in the order of the numbers, as in
//! [`crate::cells`].
use vstd::prelude::*;

use crate::cells::{find_column_index, parse_f64_cell, Number};
use crate::csv_key_diff::CsvData;
use crate::csv_label_split::{read_label, sort_labels};
use crate::plot_states::{load_state_bands, take_with_label, StateBands};
use crate::points::{range_of, sort_pairs};
use crate::text::{join, to_decimal};

verus! {

use crate::cells::{
    equals, no_column_text, no_value_text, number_in, number_models, number_rows, numbers_fit,
    NumberModel,
};
use crate::csv_key_diff::{csv_result, CsvModel};
use crate::csv_label_split::{label_of, sorted_labels};
use crate::plot_states::{bands_of, pairs, place_in, some_texts, with_label, BandsModel};
use crate::points::{highest, lowest, sorted, sorted_is_sorted};
use crate::text::{decimal, joined, text_rows, texts, texts_push};

/// The width and height of an image where none are asked for.
pub const DEFAULT_IMAGE_SIZE: (u32, u32) = (1600, 900);

/// What the numbers of an axis are.
#[derive(Debug, Clone, Copy, PartialEq, Eq, Structural)]
pub enum AxisKind {
    Numeric,
    Timestamp,
}

/// An axis of a plot.
#[derive(Debug, Clone, PartialEq, Eq)]
pub struct AxisDescriptor {
    pub label: String,
    pub kind: AxisKind,
}

/// Points with a name.
#[derive(Debug, Clone, PartialEq, Eq)]
pub struct PlotSeries {
    pub name: String,
    pub points: Vec<(i64, i64)>,
}

/// What a [`PlotSeries`] says.
#[verifier::ext_equal]
pub struct SeriesModel {
    pub name: Seq<char>,
    pub points: Seq<(i64, i64)>,
}

impl View for PlotSeries {
    type V = SeriesModel;

    open spec fn view(&self) -> SeriesModel {
        SeriesModel { name: self.name@, points: self.points@ }
    }
}

/// What a list of series says.
pub open spec fn series_models(series: Seq<PlotSeries>) -> Seq<SeriesModel> {
    Seq::new(series.len(), |i: int| series[i]@)
}

/// How a plot is drawn: as lines, or as a map of the frequencies of the points.
#[derive(Debug, Clone, PartialEq, Eq)]
pub enum PlotKind {
    Line,
    HeatmapSource(Vec<(i64, i64)>),
}

/// What a [`PlotKind`] says.
#[verifier::ext_equal]
pub enum KindModel {
    Line,
    HeatmapSource(Seq<(i64, i64)>),
}

impl View for PlotKind {
    type V = KindModel;

    open spec fn view(&self) -> KindModel {
        match *self {
            PlotKind::Line => KindModel::Line,
            PlotKind::HeatmapSource(points) => KindModel::HeatmapSource(points@),
        }
    }
}

/// A plot. `derivative_names` are the names of the derivatives of the series; `x_range` and
/// `y_range` are the lowest and the highest of the numbers, the latter only for lines.
#[derive(Debug, PartialEq, Eq)]
pub struct PlotData {
    pub kind: PlotKind,
    pub x_axis: AxisDescriptor,
    pub y_axis_label: String,
    pub title: String,
    pub series: Vec<PlotSeries>,
    pub derivative_names: Vec<String>,
    pub x_range: (i64, i64),
    pub y_range: Option<(i64, i64)>,
    pub state_bands: Option<StateBands>,
    pub allow_derivative_panel: bool,
    pub allow_fft_panel: bool,
}

/// What a [`PlotData`] says.
#[verifier::ext_equal]
pub struct PlotModel {
    pub kind: KindModel,
    pub x_label: Seq<char>,
    pub x_kind: AxisKind,
    pub y_label: Seq<char>,
    pub title: Seq<char>,
    pub series: Seq<SeriesModel>,
    pub derivative_names: Seq<Seq<char>>,
    pub x_range: (i64, i64),
    pub y_range: Option<(i64, i64)>,
    pub bands: Option<BandsModel>,
    pub allow_derivative_panel: bool,
    pub allow_fft_panel: bool,
}

/// What states that may be missing say.
pub open spec fn some_bands(bands: Option<StateBands>) -> Option<BandsModel> {
    match bands {
        Some(bands) => Some(bands@),
        None => None,
    }
}

impl View for PlotData {
    type V = PlotModel;

    open spec fn view(&self) -> PlotModel {
        PlotModel {
            kind: self.kind@,
            x_label: self.x_axis.label@,
            x_kind: self.x_axis.kind,
            y_label: self.y_axis_label@,
            title: self.title@,
            series: series_models(self.series@),
            derivative_names: texts(self.derivative_names@),
            x_range: self.x_range,
            y_range: self.y_range,
            bands: some_bands(self.state_bands),
            allow_derivative_panel: self.allow_derivative_panel,
            allow_fft_panel: self.allow_fft_panel,
        }
    }
}

/// What a plot that may be missing says.
pub open spec fn plot_result(result: Result<PlotData, String>) -> Result<PlotModel, Seq<char>> {
    match result {
        Ok(plot) => Ok(plot@),
        Err(message) => Err(message@),
    }
}

/// The name of the derivative of a series.
pub open spec fn derivative_name(name: Seq<char>, x_label: Seq<char>) -> Seq<char> {
    "d("@ + name + ")/d"@ + x_label
}

/// The series with its points in order.
pub open spec fn series_in_order(series: SeriesModel) -> SeriesModel {
    SeriesModel { name: series.name, points: sorted(series.points) }
}

/// The plot of the series as lines, or why there is none. `xs` and `ys` are the numbers of all
/// series.
pub open spec fn line_plot(
    x_label: Seq<char>,
    x_kind: AxisKind,
    y_label: Seq<char>,
    title: Seq<char>,
    series: Seq<SeriesModel>,
    xs: Seq<i64>,
    ys: Seq<i64>,
) -> Result<PlotModel, Seq<char>> {
    if xs.len() == 0 {
        Err("csv_plot requires at least one row"@)
    } else {
        Ok(
            PlotModel {
                kind: KindModel::Line,
                x_label,
                x_kind,
                y_label,
                title,
                series: Seq::new(series.len(), |i: int| series_in_order(series[i])),
                derivative_names: Seq::new(
                    series.len(),
                    |i: int| derivative_name(series[i].name, x_label),
                ),
                x_range: (lowest(xs), highest(xs)),
                y_range: Some((lowest(ys), highest(ys))),
                bands: None,
                allow_derivative_panel: true,
                allow_fft_panel: true,
            },
        )
    }
}

/// The plot of the series as lines.
pub fn build_plot_data(
    x_axis: AxisDescriptor,
    y_axis_label: String,
    title: String,
    series: &Vec<PlotSeries>,
    x_values: &Vec<i64>,
    y_values: &Vec<i64>,
) -> (result: Result<PlotData, String>)
    requires
        x_values@.len() > 0 ==> y_values@.len() > 0,
    ensures
        plot_result(result) == line_plot(
            x_axis.label@,
            x_axis.kind,
            y_axis_label@,
            title@,
            series_models(series@),
            x_values@,
            y_values@,
        ),
{
    if x_values.len() == 0 {
        return Err("csv_plot requires at least one row".to_owned());
    }
    let ghost models = series_models(series@);
    let mut ordered: Vec<PlotSeries> = Vec::new();
    let mut derivative_names: Vec<String> = Vec::new();
    for i in 0..series.len()
        invariant
            models == series_models(series@),
            ordered@.len() == i,
            derivative_names@.len() == i,
            forall|k: int|
                0 <= k < i ==> (#[trigger] ordered@[k])@ == series_in_order(models[k]),
            forall|k: int|
                0 <= k < i ==> (#[trigger] derivative_names@[k])@ == derivative_name(
                    models[k].name,
                    x_axis.label@,
                ),
    {
        let item = &series[i];
        assert(models[i as int] == item@);
        let mut name = "d(".to_owned();
        name.append(item.name.as_str());
        name.append(")/d");
        name.append(x_axis.label.as_str());
        derivative_names.push(name);
        ordered.push(PlotSeries { name: item.name.clone(), points: sort_pairs(&item.points) });
    }
    let plot = PlotData {
        kind: PlotKind::Line,
        x_axis,
        y_axis_label,
        title,
        series: ordered,
        derivative_names,
        x_range: range_of(x_values),
        y_range: Some(range_of(y_values)),
        state_bands: None,
        allow_derivative_panel: true,
        allow_fft_panel: true,
    };
    proof {
        let wanted = line_plot(
            x_axis.label@,
            x_axis.kind,
            y_axis_label@,
            title@,
            models,
            x_values@,
            y_values@,
        )->Ok_0;
        assert(plot@.series == wanted.series);
        assert(plot@.derivative_names == wanted.derivative_names);
        assert(plot@ == wanted);
    }
    Ok(plot)
}

/// The numbers of the first `count` of the columns in a row, or why one is missing.
pub open spec fn row_values(
    row: Seq<Seq<char>>,
    numbers: Seq<NumberModel>,
    indices: Seq<int>,
    names: Seq<Seq<char>>,
    row_index: int,
    count: int,
) -> Result<Seq<i64>, Seq<char>>
    decreases count,
{
    if count <= 0 {
        Ok(Seq::empty())
    } else {
        match row_values(row, numbers, indices, names, row_index, count - 1) {
            Err(message) => Err(message),
            Ok(before) => match number_in(
                row,
                numbers,
                indices[count - 1],
                names[count - 1],
                row_index,
            ) {
                Err(message) => Err(message),
                Ok(value) => Ok(before.push(value)),
            },
        }
    }
}

/// The numbers of the columns in the first `count` rows, or why one is missing.
pub open spec fn table_values(
    rows: Seq<Seq<Seq<char>>>,
    numbers: Seq<Seq<NumberModel>>,
    indices: Seq<int>,
    names: Seq<Seq<char>>,
    count: int,
) -> Result<Seq<Seq<i64>>, Seq<char>>
    decreases count,
{
    if count <= 0 {
        Ok(Seq::empty())
    } else {
        match table_values(rows, numbers, indices, names, count - 1) {
            Err(message) => Err(message),
            Ok(before) => match row_values(
                rows[count - 1],
                numbers[count - 1],
                indices,
                names,
                count - 1,
                indices.len() as int,
            ) {
                Err(message) => Err(message),
                Ok(values) => Ok(before.push(values)),
            },
        }
    }
}

proof fn row_values_stop(
    row: Seq<Seq<char>>,
    numbers: Seq<NumberModel>,
    indices: Seq<int>,
    names: Seq<Seq<char>>,
    row_index: int,
    count: int,
    total: int,
)
    requires
        count <= total,
        row_values(row, numbers, indices, names, row_index, count) is Err,
    ensures
        row_values(row, numbers, indices, names, row_index, total) == row_values(
            row,
            numbers,
            indices,
            names,
            row_index,
            count,
        ),
    decreases total - count,
{
    if count < total {
        row_values_stop(row, numbers, indices, names, row_index, count, total - 1);
    }
}

proof fn row_values_count(
    row: Seq<Seq<char>>,
    numbers: Seq<NumberModel>,
    indices: Seq<int>,
    names: Seq<Seq<char>>,
    row_index: int,
    count: int,
)
    requires
        0 <= count,
    ensures
        row_values(row, numbers, indices, names, row_index, count) matches Ok(values)
            ==> values.len() == count,
    decreases count,
{
    if count > 0 {
        row_values_count(row, numbers, indices, names, row_index, count - 1);
    }
}

proof fn table_values_stop(
    rows: Seq<Seq<Seq<char>>>,
    numbers: Seq<Seq<NumberModel>>,
    indices: Seq<int>,
    names: Seq<Seq<char>>,
    count: int,
    total: int,
)
    requires
        count <= total,
        table_values(rows, numbers, indices, names, count) is Err,
    ensures
        table_values(rows, numbers, indices, names, total) == table_values(
            rows,
            numbers,
            indices,
            names,
            count,
        ),
    decreases total - count,
{
    if count < total {
        table_values_stop(rows, numbers, indices, names, count, total - 1);
    }
}

/// Each row of the numbers has one for each column.
pub proof fn table_values_fit(
    rows: Seq<Seq<Seq<char>>>,
    numbers: Seq<Seq<NumberModel>>,
    indices: Seq<int>,
    names: Seq<Seq<char>>,
    count: int,
)
    requires
        0 <= count,
    ensures
        table_values(rows, numbers, indices, names, count) matches Ok(table) ==> table.len()
            == count && forall|i: int|
            0 <= i < count ==> (#[trigger] table[i]).len() == indices.len(),
    decreases count,
{
    if count > 0 {
        table_values_fit(rows, numbers, indices, names, count - 1);
        row_values_count(
            rows[count - 1],
            numbers[count - 1],
            indices,
            names,
            count - 1,
            indices.len() as int,
        );
    }
}

/// What a list of places says.
pub open spec fn places(indices: Seq<usize>) -> Seq<int> {
    Seq::new(indices.len(), |i: int| indices[i] as int)
}

/// What the rows of a table of numbers say.
pub open spec fn value_rows(rows: Seq<Vec<i64>>) -> Seq<Seq<i64>> {
    Seq::new(rows.len(), |i: int| rows[i]@)
}

/// What a table of numbers that may be missing says.
pub open spec fn table_result(result: Result<Vec<Vec<i64>>, String>) -> Result<
    Seq<Seq<i64>>,
    Seq<char>,
> {
    match result {
        Ok(rows) => Ok(value_rows(rows@)),
        Err(message) => Err(message@),
    }
}

fn read_row(
    row: &Vec<String>,
    numbers: &Vec<Number>,
    indices: &Vec<usize>,
    names: &Vec<String>,
    row_index: usize,
) -> (result: Result<Vec<i64>, String>)
    requires
        numbers@.len() == row@.len(),
        names@.len() == indices@.len(),
        row_index < usize::MAX,
    ensures
        match result {
            Ok(values) => row_values(
                texts(row@),
                number_models(numbers@),
                places(indices@),
                texts(names@),
                row_index as int,
                indices@.len() as int,
            ) == Ok::<Seq<i64>, Seq<char>>(values@),
            Err(message) => row_values(
                texts(row@),
                number_models(numbers@),
                places(indices@),
                texts(names@),
                row_index as int,
                indices@.len() as int,
            ) == Err::<Seq<i64>, Seq<char>>(message@),
        },
{
    let mut values: Vec<i64> = Vec::new();
    for i in 0..indices.len()
        invariant
            numbers@.len() == row@.len(),
            names@.len() == indices@.len(),
            row_index < usize::MAX,
            row_values(
                texts(row@),
                number_models(numbers@),
                places(indices@),
                texts(names@),
                row_index as int,
                i as int,
            ) == Ok::<Seq<i64>, Seq<char>>(values@),
    {
        assert(texts(names@)[i as int] == names@[i as int]@);
        match parse_f64_cell(row, numbers, indices[i], names[i].as_str(), row_index) {
            Ok(value) => {
                values.push(value);
            },
            Err(message) => {
                proof {
                    row_values_stop(
                        texts(row@),
                        number_models(numbers@),
                        places(indices@),
                        texts(names@),
                        row_index as int,
                        i + 1,
                        indices@.len() as int,
                    );
                }
                return Err(message);
            },
        }
    }
    Ok(values)
}

/// The numbers of the columns.
pub fn read_table(
    rows: &Vec<Vec<String>>,
    numbers: &Vec<Vec<Number>>,
    indices: &Vec<usize>,
    names: &Vec<String>,
) -> (result: Result<Vec<Vec<i64>>, String>)
    requires
        numbers_fit(text_rows(rows@), number_rows(numbers@)),
        names@.len() == indices@.len(),
    ensures
        table_result(result) == table_values(
            text_rows(rows@),
            number_rows(numbers@),
            places(indices@),
            texts(names@),
            rows@.len() as int,
        ),
{
    let ghost all = text_rows(rows@);
    let ghost models = number_rows(numbers@);
    let mut table: Vec<Vec<i64>> = Vec::new();
    assert(value_rows(table@) == Seq::<Seq<i64>>::empty());
    for i in 0..rows.len()
        invariant
            all == text_rows(rows@),
            models == number_rows(numbers@),
            numbers_fit(all, models),
            names@.len() == indices@.len(),
            table_values(all, models, places(indices@), texts(names@), i as int) == Ok::<
                Seq<Seq<i64>>,
                Seq<char>,
            >(value_rows(table@)),
    {
        assert(all[i as int] == texts(rows@[i as int]@));
        assert(models[i as int] == number_models(numbers@[i as int]@));
        assert(models[i as int].len() == all[i as int].len());
        match read_row(&rows[i], &numbers[i], indices, names, i) {
            Ok(values) => {
                let ghost before = table@;
                table.push(values);
                assert(value_rows(table@) == value_rows(before).push(values@));
            },
            Err(message) => {
                proof {
                    table_values_stop(
                        all,
                        models,
                        places(indices@),
                        texts(names@),
                        i + 1,
                        rows@.len() as int,
                    );
                }
                return Err(message);
            },
        }
    }
    Ok(table)
}

/// The numbers of a column of the table.
pub open spec fn column(table: Seq<Seq<i64>>, index: int) -> Seq<i64> {
    Seq::new(table.len(), |i: int| table[i][index])
}

/// The numbers of the columns behind the first, row by row.
pub open spec fn values_behind_first(table: Seq<Seq<i64>>) -> Seq<i64>
    decreases table.len(),
{
    if table.len() == 0 {
        Seq::empty()
    } else {
        values_behind_first(table.drop_last()) + table.last().skip(1)
    }
}

fn take_column(table: &Vec<Vec<i64>>, index: usize) -> (values: Vec<i64>)
    requires
        forall|i: int| 0 <= i < table@.len() ==> index < (#[trigger] table@[i])@.len(),
    ensures
        values@ == column(value_rows(table@), index as int),
{
    let mut values: Vec<i64> = Vec::new();
    for i in 0..table.len()
        invariant
            forall|i: int| 0 <= i < table@.len() ==> index < (#[trigger] table@[i])@.len(),
            values@ == column(value_rows(table@), index as int).take(i as int),
    {
        assert(index < table@[i as int]@.len());
        values.push(table[i][index]);
        assert(column(value_rows(table@), index as int).take(i + 1) == column(
            value_rows(table@),
            index as int,
        ).take(i as int).push(table@[i as int]@[index as int]));
    }
    assert(values@ == column(value_rows(table@), index as int));
    values
}

fn take_behind_first(table: &Vec<Vec<i64>>) -> (values: Vec<i64>)
    requires
        forall|i: int| 0 <= i < table@.len() ==> 1 <= (#[trigger] table@[i])@.len(),
    ensures
        values@ == values_behind_first(value_rows(table@)),
{
    let ghost all = value_rows(table@);
    let mut values: Vec<i64> = Vec::new();
    assert(all.take(0) == Seq::<Seq<i64>>::empty());
    for i in 0..table.len()
        invariant
            all == value_rows(table@),
            forall|i: int| 0 <= i < table@.len() ==> 1 <= (#[trigger] table@[i])@.len(),
            values@ == values_behind_first(all.take(i as int)),
    {
        let row = &table[i];
        let ghost start = values@;
        assert(row@.subrange(1, 1) == Seq::<i64>::empty());
        for k in 1..row.len()
            invariant
                values@ == start + row@.subrange(1, k as int),
        {
            values.push(row[k]);
            assert(row@.subrange(1, k + 1) == row@.subrange(1, k as int).push(row@[k as int]));
        }
        assert(row@.subrange(1, row@.len() as int) == row@.skip(1));
        assert(all.take(i + 1).drop_last() == all.take(i as int));
        assert(all.take(i + 1).last() == row@);
    }
    assert(all.take(all.len() as int) == all);
    values
}

/// The places of the columns, or why one is missing.
pub open spec fn column_places(headers: Seq<Seq<char>>, names: Seq<Seq<char>>) -> Result<
    Seq<int>,
    Seq<char>,
>
    decreases names.len(),
{
    if names.len() == 0 {
        Ok(Seq::empty())
    } else {
        match column_places(headers, names.drop_last()) {
            Err(message) => Err(message),
            Ok(before) => match place_in(headers, names.last()) {
                None => Err(no_column_text(names.last())),
                Some(place) => Ok(before.push(place)),
            },
        }
    }
}

proof fn column_places_stop(headers: Seq<Seq<char>>, names: Seq<Seq<char>>, count: int)
    requires
        0 <= count <= names.len(),
        column_places(headers, names.take(count)) is Err,
    ensures
        column_places(headers, names) == column_places(headers, names.take(count)),
    decreases names.len() - count,
{
    if count < names.len() {
        assert(names.take(count + 1).drop_last() == names.take(count));
        column_places_stop(headers, names, count + 1);
    } else {
        assert(names.take(count) == names);
    }
}

/// The places of the columns.
pub fn find_columns(headers: &Vec<String>, names: &Vec<String>) -> (result: Result<
    Vec<usize>,
    String,
>)
    ensures
        match result {
            Ok(indices) => column_places(texts(headers@), texts(names@)) == Ok::<
                Seq<int>,
                Seq<char>,
            >(places(indices@)) && indices@.len() == names@.len(),
            Err(message) => column_places(texts(headers@), texts(names@)) == Err::<
                Seq<int>,
                Seq<char>,
            >(message@),
        },
{
    let ghost all = texts(names@);
    let mut indices: Vec<usize> = Vec::new();
    assert(places(indices@) == Seq::<int>::empty());
    assert(all.take(0) == Seq::<Seq<char>>::empty());
    for i in 0..names.len()
        invariant
            all == texts(names@),
            indices@.len() == i,
            column_places(texts(headers@), all.take(i as int)) == Ok::<Seq<int>, Seq<char>>(
                places(indices@),
            ),
    {
        assert(all.take(i + 1).drop_last() == all.take(i as int));
        assert(all.take(i + 1).last() == names@[i as int]@);
        match find_column_index(headers, names[i].as_str()) {
            Ok(index) => {
                let ghost before = indices@;
                indices.push(index);
                assert(places(indices@) == places(before).push(index as int));
            },
            Err(message) => {
                proof {
                    column_places_stop(texts(headers@), all, i + 1);
                }
                return Err(message);
            },
        }
    }
    assert(all.take(all.len() as int) == all);
    Ok(indices)
}

/// The column that holds the states and the table that defines them, or why that could not be
/// read.
pub type StateConfig<'a> = Option<(&'a str, &'a Result<CsvData, String>)>;

/// What a [`StateConfig`] says.
pub open spec fn config_model(config: StateConfig<'_>) -> Option<
    (Seq<char>, Result<CsvModel, Seq<char>>),
> {
    match config {
        Some((column, table)) => Some((column@, csv_result(*table))),
        None => None,
    }
}

/// The plot with its states, or why there is none.
pub open spec fn with_states(
    plot: Result<PlotModel, Seq<char>>,
    csv: CsvModel,
    xs: Seq<i64>,
    labels: Option<Seq<Seq<char>>>,
    config: Option<(Seq<char>, Result<CsvModel, Seq<char>>)>,
) -> Result<PlotModel, Seq<char>> {
    match plot {
        Err(message) => Err(message),
        Ok(plot) => match config {
            None => Ok(plot),
            Some((column, table)) => match bands_of(csv, xs, labels, column, table) {
                Err(message) => Err(message),
                Ok(bands) => Ok(PlotModel { bands: Some(bands), ..plot }),
            },
        },
    }
}

fn add_states(
    plot: PlotData,
    csv: &CsvData,
    xs: &Vec<i64>,
    labels: Option<&Vec<String>>,
    config: StateConfig<'_>,
) -> (result: Result<PlotData, String>)
    requires
        xs@.len() == csv.rows@.len(),
        labels matches Some(labels) ==> labels@.len() == csv.rows@.len(),
        plot.state_bands is None,
    ensures
        plot_result(result) == with_states(
            Ok(plot@),
            csv@,
            xs@,
            some_texts(labels),
            config_model(config),
        ),
{
    match config {
        None => Ok(plot),
        Some((column, table)) => match load_state_bands(csv, xs, labels, column, table) {
            Err(message) => Err(message),
            Ok(bands) => {
                let mut plot = plot;
                plot.state_bands = Some(bands);
                Ok(plot)
            },
        },
    }
}

/// The series of the columns behind the first, over the first.
pub open spec fn column_series(table: Seq<Seq<i64>>, names: Seq<Seq<char>>) -> Seq<SeriesModel> {
    Seq::new(
        names.len(),
        |k: int| SeriesModel { name: names[k], points: pairs(column(table, 0), column(table, k + 1)) },
    )
}

/// The plot of the y columns over the x column, or why there is none.
pub open spec fn xy_plot(
    csv: CsvModel,
    numbers: Seq<Seq<NumberModel>>,
    x_column: Seq<char>,
    y_columns: Seq<Seq<char>>,
    config: Option<(Seq<char>, Result<CsvModel, Seq<char>>)>,
) -> Result<PlotModel, Seq<char>> {
    match place_in(csv.headers, x_column) {
        None => Err(no_column_text(x_column)),
        Some(x_index) => if y_columns.len() == 0 {
            Err("csv_plot requires at least one y column"@)
        } else {
            match column_places(csv.headers, y_columns) {
                Err(message) => Err(message),
                Ok(y_indices) => match table_values(
                    csv.rows,
                    numbers,
                    seq![x_index] + y_indices,
                    seq![x_column] + y_columns,
                    csv.rows.len() as int,
                ) {
                    Err(message) => Err(message),
                    Ok(table) => with_states(
                        line_plot(
                            x_column,
                            AxisKind::Numeric,
                            "y"@,
                            joined(y_columns, ", "@) + " vs "@ + x_column,
                            column_series(table, y_columns),
                            column(table, 0),
                            values_behind_first(table),
                        ),
                        csv,
                        column(table, 0),
                        None,
                        config,
                    ),
                },
            }
        },
    }
}

fn pair_up(left: &Vec<i64>, right: &Vec<i64>) -> (result: Vec<(i64, i64)>)
    requires
        left@.len() == right@.len(),
    ensures
        result@ == pairs(left@, right@),
{
    let mut result: Vec<(i64, i64)> = Vec::new();
    for i in 0..left.len()
        invariant
            left@.len() == right@.len(),
            result@ == pairs(left@, right@).take(i as int),
    {
        result.push((left[i], right[i]));
        assert(pairs(left@, right@).take(i + 1) == pairs(left@, right@).take(i as int).push(
            (left@[i as int], right@[i as int]),
        ));
    }
    assert(result@ == pairs(left@, right@));
    result
}

fn make_column_series(table: &Vec<Vec<i64>>, xs: &Vec<i64>, names: &Vec<String>) -> (series: Vec<
    PlotSeries,
>)
    requires
        xs@ == column(value_rows(table@), 0),
        names@.len() < usize::MAX,
        forall|i: int| 0 <= i < table@.len() ==> (#[trigger] table@[i])@.len() == names@.len() + 1,
    ensures
        series_models(series@) == column_series(value_rows(table@), texts(names@)),
{
    let ghost wanted = column_series(value_rows(table@), texts(names@));
    let mut series: Vec<PlotSeries> = Vec::new();
    for k in 0..names.len()
        invariant
            xs@ == column(value_rows(table@), 0),
            names@.len() < usize::MAX,
            forall|i: int|
                0 <= i < table@.len() ==> (#[trigger] table@[i])@.len() == names@.len() + 1,
            wanted == column_series(value_rows(table@), texts(names@)),
            series@.len() == k,
            forall|j: int| 0 <= j < k ==> (#[trigger] series@[j])@ == wanted[j],
    {
        let ys = take_column(table, k + 1);
        let points = pair_up(xs, &ys);
        assert(texts(names@)[k as int] == names@[k as int]@);
        series.push(PlotSeries { name: names[k].clone(), points });
        assert(series@[k as int]@ == wanted[k as int]);
    }
    assert(series_models(series@) == wanted);
    series
}

proof fn some_values_behind_first(table: Seq<Seq<i64>>)
    requires
        table.len() > 0,
        forall|i: int| 0 <= i < table.len() ==> 2 <= (#[trigger] table[i]).len(),
    ensures
        values_behind_first(table).len() > 0,
{
    assert(table.last() == table[table.len() - 1]);
    assert(table.last().skip(1).len() > 0);
}

/// The plot of the y columns over the x column.
pub fn load_xy_plot_data_with_state(
    csv: &CsvData,
    numbers: &Vec<Vec<Number>>,
    x_column: &str,
    y_columns: &Vec<String>,
    config: StateConfig<'_>,
) -> (result: Result<PlotData, String>)
    requires
        numbers_fit(csv@.rows, number_rows(numbers@)),
    ensures
        plot_result(result) == xy_plot(
            csv@,
            number_rows(numbers@),
            x_column@,
            texts(y_columns@),
            config_model(config),
        ),
{
    let x_index = match find_column_index(&csv.headers, x_column) {
        Ok(index) => index,
        Err(message) => {
            return Err(message);
        },
    };
    if y_columns.len() == 0 {
        return Err("csv_plot requires at least one y column".to_owned());
    }
    let y_indices = match find_columns(&csv.headers, y_columns) {
        Ok(indices) => indices,
        Err(message) => {
            return Err(message);
        },
    };
    let mut indices: Vec<usize> = vec![x_index];
    let mut names: Vec<String> = vec![x_column.to_owned()];
    assert(places(indices@) == seq![x_index as int] + places(y_indices@).take(0));
    assert(texts(names@) == seq![x_column@] + texts(y_columns@).take(0));
    for i in 0..y_columns.len()
        invariant
            y_indices@.len() == y_columns@.len(),
            indices@.len() == i + 1,
            names@.len() == i + 1,
            places(indices@) == seq![x_index as int] + places(y_indices@).take(i as int),
            texts(names@) == seq![x_column@] + texts(y_columns@).take(i as int),
    {
        let name = y_columns[i].clone();
        let ghost before = indices@;
        let ghost old_names = names@;
        indices.push(y_indices[i]);
        proof {
            texts_push(names@, name);
        }
        names.push(name);
        assert(places(indices@) == places(before).push(y_indices@[i as int] as int));
        assert(places(y_indices@).take(i + 1) == places(y_indices@).take(i as int).push(
            y_indices@[i as int] as int,
        ));
        assert(texts(y_columns@).take(i + 1) == texts(y_columns@).take(i as int).push(name@));
        assert(texts(names@) == texts(old_names).push(name@));
    }
    assert(places(y_indices@).take(y_columns@.len() as int) == places(y_indices@));
    assert(texts(y_columns@).take(y_columns@.len() as int) == texts(y_columns@));
    let table = match read_table(&csv.rows, numbers, &indices, &names) {
        Ok(table) => table,
        Err(message) => {
            return Err(message);
        },
    };
    let ghost all = value_rows(table@);
    proof {
        table_values_fit(
            csv@.rows,
            number_rows(numbers@),
            places(indices@),
            texts(names@),
            csv.rows@.len() as int,
        );
        assert forall|i: int| 0 <= i < table@.len() implies (#[trigger] table@[i])@.len()
            == y_columns@.len() + 1 by {
            assert(all[i].len() == y_columns@.len() + 1);
        }
        if all.len() > 0 {
            some_values_behind_first(all);
        }
    }
    assert(indices@.len() == indices.len());
    let xs = take_column(&table, 0);
    let ys = take_behind_first(&table);
    let series = make_column_series(&table, &xs, y_columns);
    let mut title = join(y_columns, ", ");
    title.append(" vs ");
    title.append(x_column);
    let x_axis = AxisDescriptor { label: x_column.to_owned(), kind: AxisKind::Numeric };
    let plot = match build_plot_data(x_axis, "y".to_owned(), title, &series, &xs, &ys) {
        Ok(plot) => plot,
        Err(message) => {
            return Err(message);
        },
    };
    add_states(plot, csv, &xs, None, config)
}

/// The plot of the y columns over the x column, without states.
pub fn load_xy_plot_data(
    csv: &CsvData,
    numbers: &Vec<Vec<Number>>,
    x_column: &str,
    y_columns: &Vec<String>,
) -> (result: Result<PlotData, String>)
    requires
        numbers_fit(csv@.rows, number_rows(numbers@)),
    ensures
        plot_result(result) == xy_plot(
            csv@,
            number_rows(numbers@),
            x_column@,
            texts(y_columns@),
            None,
        ),
{
    load_xy_plot_data_with_state(csv, numbers, x_column, y_columns, None)
}

/// The point in time of a row, or why there is none. `time` is that of the row's cell.
pub open spec fn time_in(
    row: Seq<Seq<char>>,
    index: int,
    column: Seq<char>,
    time: Option<i64>,
    row_index: int,
) -> Result<i64, Seq<char>> {
    if index >= row.len() {
        Err(no_value_text(column))
    } else {
        match time {
            Some(time) => Ok(time),
            None => Err(
                "failed to parse row "@ + decimal((row_index + 1) as nat) + " column "@ + column
                    + " as timestamp: "@ + row[index],
            ),
        }
    }
}

/// The point in time of the row.
pub fn parse_timestamp_cell(
    row: &Vec<String>,
    index: usize,
    column: &str,
    time: Option<i64>,
    row_index: usize,
) -> (result: Result<i64, String>)
    requires
        row_index < usize::MAX,
    ensures
        crate::cells::order_result(result) == time_in(
            texts(row@),
            index as int,
            column@,
            time,
            row_index as int,
        ),
{
    if index >= row.len() {
        return Err(crate::cells::say_no_value(column));
    }
    match time {
        Some(time) => Ok(time),
        None => {
            let mut message = "failed to parse row ".to_owned();
            message.append(to_decimal((row_index + 1) as u64).as_str());
            message.append(" column ");
            message.append(column);
            message.append(" as timestamp: ");
            message.append(row[index].as_str());
            Err(message)
        },
    }
}

/// The columns of a plot of labeled series.
pub struct LabeledColumns {
    pub label: Seq<char>,
    pub time: Seq<char>,
    pub value: Seq<char>,
    pub label_index: int,
    pub time_index: int,
    pub value_index: int,
}

/// Labels, points in time, and values, row by row.
#[verifier::ext_equal]
pub struct LabeledModel {
    pub labels: Seq<Seq<char>>,
    pub times: Seq<i64>,
    pub values: Seq<i64>,
}

/// The label, the point in time and the value of a row, or why one is missing.
pub open spec fn labeled_row(
    row: Seq<Seq<char>>,
    numbers: Seq<NumberModel>,
    time: Option<i64>,
    columns: LabeledColumns,
    row_index: int,
) -> Result<(Seq<char>, i64, i64), Seq<char>> {
    match (
        label_of(row, columns.label_index, columns.label, row_index),
        time_in(row, columns.time_index, columns.time, time, row_index),
        number_in(row, numbers, columns.value_index, columns.value, row_index),
    ) {
        (Err(message), _, _) => Err(message),
        (Ok(_), Err(message), _) => Err(message),
        (Ok(_), Ok(_), Err(message)) => Err(message),
        (Ok(label), Ok(time), Ok(value)) => Ok((label, time, value)),
    }
}

/// Those of the first `count` rows, or why one is missing.
pub open spec fn labeled_rows(
    rows: Seq<Seq<Seq<char>>>,
    numbers: Seq<Seq<NumberModel>>,
    times: Seq<Option<i64>>,
    columns: LabeledColumns,
    count: int,
) -> Result<LabeledModel, Seq<char>>
    decreases count,
{
    if count <= 0 {
        Ok(LabeledModel { labels: Seq::empty(), times: Seq::empty(), values: Seq::empty() })
    } else {
        match labeled_rows(rows, numbers, times, columns, count - 1) {
            Err(message) => Err(message),
            Ok(before) => match labeled_row(
                rows[count - 1],
                numbers[count - 1],
                times[count - 1],
                columns,
                count - 1,
            ) {
                Err(message) => Err(message),
                Ok((label, time, value)) => Ok(
                    LabeledModel {
                        labels: before.labels.push(label),
                        times: before.times.push(time),
                        values: before.values.push(value),
                    },
                ),
            },
        }
    }
}

proof fn labeled_rows_stop(
    rows: Seq<Seq<Seq<char>>>,
    numbers: Seq<Seq<NumberModel>>,
    times: Seq<Option<i64>>,
    columns: LabeledColumns,
    count: int,
    total: int,
)
    requires
        count <= total,
        labeled_rows(rows, numbers, times, columns, count) is Err,
    ensures
        labeled_rows(rows, numbers, times, columns, total) == labeled_rows(
            rows,
            numbers,
            times,
            columns,
            count,
        ),
    decreases total - count,
{
    if count < total {
        labeled_rows_stop(rows, numbers, times, columns, count, total - 1);
    }
}

/// One series for each label, in the order of the labels.
pub open spec fn label_series(data: LabeledModel) -> Seq<SeriesModel> {
    let names = sorted_labels(data.labels);
    Seq::new(
        names.len(),
        |i: int|
            SeriesModel {
                name: names[i],
                points: with_label(pairs(data.times, data.values), data.labels, names[i]),
            },
    )
}

/// The plot of the values over the points in time, one series for each label, or why there is
/// none.
pub open spec fn labeled_plot(
    csv: CsvModel,
    numbers: Seq<Seq<NumberModel>>,
    times: Seq<Option<i64>>,
    label_column: Seq<char>,
    timestamp_column: Seq<char>,
    value_column: Seq<char>,
    config: Option<(Seq<char>, Result<CsvModel, Seq<char>>)>,
) -> Result<PlotModel, Seq<char>> {
    match (
        place_in(csv.headers, label_column),
        place_in(csv.headers, timestamp_column),
        place_in(csv.headers, value_column),
    ) {
        (None, _, _) => Err(no_column_text(label_column)),
        (Some(_), None, _) => Err(no_column_text(timestamp_column)),
        (Some(_), Some(_), None) => Err(no_column_text(value_column)),
        (Some(label_index), Some(time_index), Some(value_index)) => {
            let columns = LabeledColumns {
                label: label_column,
                time: timestamp_column,
                value: value_column,
                label_index,
                time_index,
                value_index,
            };
            match labeled_rows(csv.rows, numbers, times, columns, csv.rows.len() as int) {
                Err(message) => Err(message),
                Ok(data) => with_states(
                    line_plot(
                        timestamp_column,
                        AxisKind::Timestamp,
                        value_column,
                        value_column + " vs "@ + timestamp_column,
                        label_series(data),
                        data.times,
                        data.values,
                    ),
                    csv,
                    data.times,
                    Some(data.labels),
                    config,
                ),
            }
        },
    }
}

/// Labels, points in time, and values, row by row.
#[derive(Debug, Clone, PartialEq, Eq)]
pub struct LabeledData {
    pub labels: Vec<String>,
    pub times: Vec<i64>,
    pub values: Vec<i64>,
}

impl View for LabeledData {
    type V = LabeledModel;

    open spec fn view(&self) -> LabeledModel {
        LabeledModel {
            labels: texts(self.labels@),
            times: self.times@,
            values: self.values@,
        }
    }
}

fn read_labeled_rows(
    rows: &Vec<Vec<String>>,
    numbers: &Vec<Vec<Number>>,
    times: &Vec<Option<i64>>,
    label_index: usize,
    label_column: &str,
    time_index: usize,
    time_column: &str,
    value_index: usize,
    value_column: &str,
) -> (result: Result<LabeledData, String>)
    requires
        numbers_fit(text_rows(rows@), number_rows(numbers@)),
        times@.len() == rows@.len(),
    ensures
        ({
            let columns = LabeledColumns {
                label: label_column@,
                time: time_column@,
                value: value_column@,
                label_index: label_index as int,
                time_index: time_index as int,
                value_index: value_index as int,
            };
            match result {
                Ok(data) => labeled_rows(
                    text_rows(rows@),
                    number_rows(numbers@),
                    times@,
                    columns,
                    rows@.len() as int,
                ) == Ok::<LabeledModel, Seq<char>>(data@) && data.labels@.len() == rows@.len()
                    && data.times@.len() == rows@.len() && data.values@.len() == rows@.len(),
                Err(message) => labeled_rows(
                    text_rows(rows@),
                    number_rows(numbers@),
                    times@,
                    columns,
                    rows@.len() as int,
                ) == Err::<LabeledModel, Seq<char>>(message@),
            }
        }),
{
    let ghost columns = LabeledColumns {
        label: label_column@,
        time: time_column@,
        value: value_column@,
        label_index: label_index as int,
        time_index: time_index as int,
        value_index: value_index as int,
    };
    let ghost all = text_rows(rows@);
    let ghost models = number_rows(numbers@);
    let mut data = LabeledData { labels: Vec::new(), times: Vec::new(), values: Vec::new() };
    assert(texts(data.labels@) == Seq::<Seq<char>>::empty());
    for i in 0..rows.len()
        invariant
            columns == (LabeledColumns {
                label: label_column@,
                time: time_column@,
                value: value_column@,
                label_index: label_index as int,
                time_index: time_index as int,
                value_index: value_index as int,
            }),
            all == text_rows(rows@),
            models == number_rows(numbers@),
            numbers_fit(all, models),
            times@.len() == rows@.len(),
            data.labels@.len() == i,
            data.times@.len() == i,
            data.values@.len() == i,
            labeled_rows(all, models, times@, columns, i as int) == Ok::<LabeledModel, Seq<char>>(
                data@,
            ),
    {
        assert(all[i as int] == texts(rows@[i as int]@));
        assert(models[i as int] == number_models(numbers@[i as int]@));
        assert(models[i as int].len() == all[i as int].len());
        let row = &rows[i];
        let label = match read_label(row, label_index, label_column, i) {
            Ok(label) => label,
            Err(message) => {
                proof {
                    labeled_rows_stop(all, models, times@, columns, i + 1, rows@.len() as int);
                }
                return Err(message);
            },
        };
        let time = match parse_timestamp_cell(row, time_index, time_column, times[i], i) {
            Ok(time) => time,
            Err(message) => {
                proof {
                    labeled_rows_stop(all, models, times@, columns, i + 1, rows@.len() as int);
                }
                return Err(message);
            },
        };
        let value = match parse_f64_cell(row, &numbers[i], value_index, value_column, i) {
            Ok(value) => value,
            Err(message) => {
                proof {
                    labeled_rows_stop(all, models, times@, columns, i + 1, rows@.len() as int);
                }
                return Err(message);
            },
        };
        proof {
            texts_push(data.labels@, label);
        }
        data.labels.push(label);
        data.times.push(time);
        data.values.push(value);
    }
    Ok(data)
}

fn make_label_series(data: &LabeledData) -> (series: Vec<PlotSeries>)
    requires
        data.labels@.len() == data.times@.len(),
        data.values@.len() == data.times@.len(),
    ensures
        series_models(series@) == label_series(data@),
{
    let names = sort_labels(&data.labels);
    let points = pair_up(&data.times, &data.values);
    let ghost wanted = label_series(data@);
    let mut series: Vec<PlotSeries> = Vec::new();
    for i in 0..names.len()
        invariant
            data.labels@.len() == data.times@.len(),
            texts(names@) == sorted_labels(texts(data.labels@)),
            points@ == pairs(data.times@, data.values@),
            wanted == label_series(data@),
            series@.len() == i,
            forall|j: int| 0 <= j < i ==> (#[trigger] series@[j])@ == wanted[j],
    {
        assert(texts(names@)[i as int] == names@[i as int]@);
        let own = take_with_label(&points, &data.labels, names[i].as_str());
        series.push(PlotSeries { name: names[i].clone(), points: own });
        assert(series@[i as int]@ == wanted[i as int]);
    }
    assert(series_models(series@) == wanted);
    series
}

/// The plot of the values over the points in time, one series for each label. `times` are the
/// points in time of the rows, where their cells name any.
pub fn load_labeled_series_plot_data_with_state(
    csv: &CsvData,
    numbers: &Vec<Vec<Number>>,
    times: &Vec<Option<i64>>,
    label_column: &str,
    timestamp_column: &str,
    value_column: &str,
    config: StateConfig<'_>,
) -> (result: Result<PlotData, String>)
    requires
        numbers_fit(csv@.rows, number_rows(numbers@)),
        times@.len() == csv.rows@.len(),
    ensures
        plot_result(result) == labeled_plot(
            csv@,
            number_rows(numbers@),
            times@,
            label_column@,
            timestamp_column@,
            value_column@,
            config_model(config),
        ),
{
    let label_index = match find_column_index(&csv.headers, label_column) {
        Ok(index) => index,
        Err(message) => {
            return Err(message);
        },
    };
    let time_index = match find_column_index(&csv.headers, timestamp_column) {
        Ok(index) => index,
        Err(message) => {
            return Err(message);
        },
    };
    let value_index = match find_column_index(&csv.headers, value_column) {
        Ok(index) => index,
        Err(message) => {
            return Err(message);
        },
    };
    let data = match read_labeled_rows(
        &csv.rows,
        numbers,
        times,
        label_index,
        label_column,
        time_index,
        timestamp_column,
        value_index,
        value_column,
    ) {
        Ok(data) => data,
        Err(message) => {
            return Err(message);
        },
    };
    let series = make_label_series(&data);
    let mut title = value_column.to_owned();
    title.append(" vs ");
    title.append(timestamp_column);
    let x_axis = AxisDescriptor {
        label: timestamp_column.to_owned(),
        kind: AxisKind::Timestamp,
    };
    let plot = match build_plot_data(
        x_axis,
        value_column.to_owned(),
        title,
        &series,
        &data.times,
        &data.values,
    ) {
        Ok(plot) => plot,
        Err(message) => {
            return Err(message);
        },
    };
    add_states(plot, csv, &data.times, Some(&data.labels), config)
}

/// The plot of the values over the points in time, one series for each label, without states.
pub fn load_labeled_series_plot_data(
    csv: &CsvData,
    numbers: &Vec<Vec<Number>>,
    times: &Vec<Option<i64>>,
    label_column: &str,
    timestamp_column: &str,
    value_column: &str,
) -> (result: Result<PlotData, String>)
    requires
        numbers_fit(csv@.rows, number_rows(numbers@)),
        times@.len() == csv.rows@.len(),
    ensures
        plot_result(result) == labeled_plot(
            csv@,
            number_rows(numbers@),
            times@,
            label_column@,
            timestamp_column@,
            value_column@,
            None,
        ),
{
    load_labeled_series_plot_data_with_state(
        csv,
        numbers,
        times,
        label_column,
        timestamp_column,
        value_column,
        None,
    )
}

/// The points of a spectrum in order, or why there are none.
pub open spec fn spectrum_points(
    csv: CsvModel,
    numbers: Seq<Seq<NumberModel>>,
    x_column: Seq<char>,
    y_column: Seq<char>,
) -> Result<Seq<(i64, i64)>, Seq<char>> {
    match (place_in(csv.headers, x_column), place_in(csv.headers, y_column)) {
        (None, _) => Err(no_column_text(x_column)),
        (Some(_), None) => Err(no_column_text(y_column)),
        (Some(x_index), Some(y_index)) => match table_values(
            csv.rows,
            numbers,
            seq![x_index, y_index],
            seq![x_column, y_column],
            csv.rows.len() as int,
        ) {
            Err(message) => Err(message),
            Ok(table) => if table.len() < 4 {
                Err("csv_power_spectrum requires at least four rows"@)
            } else {
                Ok(sorted(pairs(column(table, 0), column(table, 1))))
            },
        },
    }
}

/// What points that may be missing say.
pub open spec fn points_result(result: Result<Vec<(i64, i64)>, String>) -> Result<
    Seq<(i64, i64)>,
    Seq<char>,
> {
    match result {
        Ok(points) => Ok(points@),
        Err(message) => Err(message@),
    }
}

/// The points of the spectrum in order.
pub fn power_spectrum_points(
    csv: &CsvData,
    numbers: &Vec<Vec<Number>>,
    x_column: &str,
    y_column: &str,
) -> (result: Result<Vec<(i64, i64)>, String>)
    requires
        numbers_fit(csv@.rows, number_rows(numbers@)),
    ensures
        points_result(result) == spectrum_points(
            csv@,
            number_rows(numbers@),
            x_column@,
            y_column@,
        ),
        result matches Ok(points) ==> points@.len() >= 4,
{
    let x_index = match find_column_index(&csv.headers, x_column) {
        Ok(index) => index,
        Err(message) => {
            return Err(message);
        },
    };
    let y_index = match find_column_index(&csv.headers, y_column) {
        Ok(index) => index,
        Err(message) => {
            return Err(message);
        },
    };
    let indices: Vec<usize> = vec![x_index, y_index];
    let names: Vec<String> = vec![x_column.to_owned(), y_column.to_owned()];
    assert(places(indices@) == seq![x_index as int, y_index as int]);
    assert(texts(names@) == seq![x_column@, y_column@]);
    let table = match read_table(&csv.rows, numbers, &indices, &names) {
        Ok(table) => table,
        Err(message) => {
            return Err(message);
        },
    };
    if table.len() < 4 {
        return Err("csv_power_spectrum requires at least four rows".to_owned());
    }
    proof {
        let all = value_rows(table@);
        table_values_fit(
            csv@.rows,
            number_rows(numbers@),
            places(indices@),
            texts(names@),
            csv.rows@.len() as int,
        );
        assert forall|i: int| 0 <= i < table@.len() implies (#[trigger] table@[i])@.len() == 2 by {
            assert(all[i].len() == 2);
        }
    }
    let xs = take_column(&table, 0);
    let ys = take_column(&table, 1);
    let points = pair_up(&xs, &ys);
    proof {
        sorted_is_sorted(points@);
    }
    Ok(sort_pairs(&points))
}

/// Whether the distance of a point to the next is known to be a number. It is, unless it is said
/// not to be.
pub open spec fn gap_is_finite(gaps: Seq<bool>, i: int) -> bool {
    i < gaps.len() ==> gaps[i]
}

/// Whether the next point lies behind this one, at a distance that is a number.
pub open spec fn advances(points: Seq<(i64, i64)>, gaps: Seq<bool>, i: int) -> bool {
    !equals(points[i].0, points[i + 1].0) && gap_is_finite(gaps, i)
}

/// Whether each point lies behind the one before it, at a distance that is a number.
pub open spec fn points_advance(points: Seq<(i64, i64)>, gaps: Seq<bool>) -> bool {
    forall|i: int| 0 <= i < points.len() - 1 ==> #[trigger] advances(points, gaps, i)
}

/// The map of the frequencies of the y column over the x column, or why there is none.
pub open spec fn spectrum_plot(
    csv: CsvModel,
    numbers: Seq<Seq<NumberModel>>,
    x_column: Seq<char>,
    y_column: Seq<char>,
    gaps: Seq<bool>,
) -> Result<PlotModel, Seq<char>> {
    match spectrum_points(csv, numbers, x_column, y_column) {
        Err(message) => Err(message),
        Ok(points) => if !points_advance(points, gaps) {
            Err("csv_power_spectrum requires strictly increasing x values"@)
        } else {
            Ok(
                PlotModel {
                    kind: KindModel::HeatmapSource(points),
                    x_label: x_column,
                    x_kind: AxisKind::Numeric,
                    y_label: "frequency"@,
                    title: "spectrogram("@ + y_column + ")"@,
                    series: Seq::empty(),
                    derivative_names: Seq::empty(),
                    x_range: (
                        lowest(Seq::new(points.len(), |i: int| points[i].0)),
                        highest(Seq::new(points.len(), |i: int| points[i].0)),
                    ),
                    y_range: None,
                    bands: None,
                    allow_derivative_panel: false,
                    allow_fft_panel: false,
                },
            )
        },
    }
}

fn all_advance(points: &Vec<(i64, i64)>, gaps: &Vec<bool>) -> (advance: bool)
    requires
        points@.len() >= 1,
    ensures
        advance == points_advance(points@, gaps@),
{
    for j in 1..points.len()
        invariant
            forall|i: int| 0 <= i < j - 1 ==> #[trigger] advances(points@, gaps@, i),
    {
        if crate::cells::is_equal(points[j - 1].0, points[j].0) || (j - 1 < gaps.len()
            && !gaps[j - 1]) {
            assert(!advances(points@, gaps@, j - 1));
            return false;
        }
        assert(advances(points@, gaps@, j - 1));
    }
    true
}

/// The map of the frequencies of the y column over the x column. `gaps` says of each point in
/// order whether its distance to the next is a number.
pub fn load_power_spectrum_plot_data(
    csv: &CsvData,
    numbers: &Vec<Vec<Number>>,
    x_column: &str,
    y_column: &str,
    gaps: &Vec<bool>,
) -> (result: Result<PlotData, String>)
    requires
        numbers_fit(csv@.rows, number_rows(numbers@)),
    ensures
        plot_result(result) == spectrum_plot(
            csv@,
            number_rows(numbers@),
            x_column@,
            y_column@,
            gaps@,
        ),
{
    let points = match power_spectrum_points(csv, numbers, x_column, y_column) {
        Ok(points) => points,
        Err(message) => {
            return Err(message);
        },
    };
    if !all_advance(&points, gaps) {
        return Err("csv_power_spectrum requires strictly increasing x values".to_owned());
    }
    let mut xs: Vec<i64> = Vec::new();
    let ghost wanted = Seq::new(points@.len(), |i: int| points@[i].0);
    for i in 0..points.len()
        invariant
            wanted == Seq::new(points@.len(), |i: int| points@[i].0),
            xs@ == wanted.take(i as int),
    {
        xs.push(points[i].0);
        assert(wanted.take(i + 1) == wanted.take(i as int).push(points@[i as int].0));
    }
    assert(xs@ == wanted);
    let mut title = "spectrogram(".to_owned();
    title.append(y_column);
    title.append(")");
    let plot = PlotData {
        kind: PlotKind::HeatmapSource(points),
        x_axis: AxisDescriptor { label: x_column.to_owned(), kind: AxisKind::Numeric },
        y_axis_label: "frequency".to_owned(),
        title,
        series: Vec::new(),
        derivative_names: Vec::new(),
        x_range: range_of(&xs),
        y_range: None,
        state_bands: None,
        allow_derivative_panel: false,
        allow_fft_panel: false,
    };
    assert(plot@.series == Seq::<SeriesModel>::empty());
    assert(plot@.derivative_names == Seq::<Seq<char>>::empty());
    Ok(plot)
}

/// What the table that defines the states says, if one is given.
pub open spec fn given_table(table: Option<&Result<CsvData, String>>) -> Option<
    Result<CsvModel, Seq<char>>,
> {
    match table {
        Some(table) => Some(csv_result(*table)),
        None => None,
    }
}

/// What a text says, if one is given.
pub open spec fn given_text(text: Option<&str>) -> Option<Seq<char>> {
    match text {
        Some(text) => Some(text@),
        None => None,
    }
}

/// The column that holds the states and the table that defines them: both are given, or neither.
pub open spec fn config_of(
    column: Option<Seq<char>>,
    table: Option<Result<CsvModel, Seq<char>>>,
) -> Result<Option<(Seq<char>, Result<CsvModel, Seq<char>>)>, Seq<char>> {
    match (column, table) {
        (Some(column), Some(table)) => Ok(Some((column, table))),
        (None, None) => Ok(None),
        _ => Err("--state-column and --state-csv must be specified together"@),
    }
}

/// The column that holds the states and the table that defines them.
pub fn state_config_from_args<'a>(
    state_column: Option<&'a str>,
    state_csv: Option<&'a Result<CsvData, String>>,
) -> (result: Result<StateConfig<'a>, String>)
    ensures
        match result {
            Ok(config) => config_of(given_text(state_column), given_table(state_csv)) == Ok::<
                Option<(Seq<char>, Result<CsvModel, Seq<char>>)>,
                Seq<char>,
            >(config_model(config)),
            Err(message) => config_of(given_text(state_column), given_table(state_csv)) == Err::<
                Option<(Seq<char>, Result<CsvModel, Seq<char>>)>,
                Seq<char>,
            >(message@),
        },
{
    match (state_column, state_csv) {
        (Some(column), Some(table)) => Ok(Some((column, table))),
        (None, None) => Ok(None),
        _ => Err("--state-column and --state-csv must be specified together".to_owned()),
    }
}

/// The plot of the y columns over the x column with the states that are asked for, or why there
/// is none.
pub open spec fn xy_plot_asked(
    csv: CsvModel,
    numbers: Seq<Seq<NumberModel>>,
    x_column: Seq<char>,
    y_columns: Seq<Seq<char>>,
    state_column: Option<Seq<char>>,
    state_csv: Option<Result<CsvModel, Seq<char>>>,
) -> Result<PlotModel, Seq<char>> {
    match config_of(state_column, state_csv) {
        Err(message) => Err(message),
        Ok(config) => xy_plot(csv, numbers, x_column, y_columns, config),
    }
}

/// The plot of labeled series with the states that are asked for, or why there is none.
pub open spec fn labeled_plot_asked(
    csv: CsvModel,
    numbers: Seq<Seq<NumberModel>>,
    times: Seq<Option<i64>>,
    label_column: Seq<char>,
    timestamp_column: Seq<char>,
    value_column: Seq<char>,
    state_column: Option<Seq<char>>,
    state_csv: Option<Result<CsvModel, Seq<char>>>,
) -> Result<PlotModel, Seq<char>> {
    match config_of(state_column, state_csv) {
        Err(message) => Err(message),
        Ok(config) => labeled_plot(
            csv,
            numbers,
            times,
            label_column,
            timestamp_column,
            value_column,
            config,
        ),
    }
}

/// The plot of the y columns over the x column that is shown.
pub fn run_xy(
    csv: &CsvData,
    numbers: &Vec<Vec<Number>>,
    x_column: &str,
    y_columns: &Vec<String>,
) -> (result: Result<PlotData, String>)
    requires
        numbers_fit(csv@.rows, number_rows(numbers@)),
    ensures
        plot_result(result) == xy_plot(
            csv@,
            number_rows(numbers@),
            x_column@,
            texts(y_columns@),
            None,
        ),
{
    run_xy_with_state(csv, numbers, x_column, y_columns, None, None)
}

/// The plot of the y columns over the x column that is shown, with states.
pub fn run_xy_with_state(
    csv: &CsvData,
    numbers: &Vec<Vec<Number>>,
    x_column: &str,
    y_columns: &Vec<String>,
    state_column: Option<&str>,
    state_csv: Option<&Result<CsvData, String>>,
) -> (result: Result<PlotData, String>)
    requires
        numbers_fit(csv@.rows, number_rows(numbers@)),
    ensures
        plot_result(result) == xy_plot_asked(
            csv@,
            number_rows(numbers@),
            x_column@,
            texts(y_columns@),
            given_text(state_column),
            given_table(state_csv),
        ),
{
    match state_config_from_args(state_column, state_csv) {
        Ok(config) => load_xy_plot_data_with_state(csv, numbers, x_column, y_columns, config),
        Err(message) => Err(message),
    }
}

/// The plot of labeled series that is shown.
pub fn run_labeled_series(
    csv: &CsvData,
    numbers: &Vec<Vec<Number>>,
    times: &Vec<Option<i64>>,
    label_column: &str,
    timestamp_column: &str,
    value_column: &str,
) -> (result: Result<PlotData, String>)
    requires
        numbers_fit(csv@.rows, number_rows(numbers@)),
        times@.len() == csv.rows@.len(),
    ensures
        plot_result(result) == labeled_plot(
            csv@,
            number_rows(numbers@),
            times@,
            label_column@,
            timestamp_column@,
            value_column@,
            None,
        ),
{
    run_labeled_series_with_state(
        csv,
        numbers,
        times,
        label_column,
        timestamp_column,
        value_column,
        None,
        None,
    )
}

/// The plot of labeled series that is shown, with states.
pub fn run_labeled_series_with_state(
    csv: &CsvData,
    numbers: &Vec<Vec<Number>>,
    times: &Vec<Option<i64>>,
    label_column: &str,
    timestamp_column: &str,
    value_column: &str,
    state_column: Option<&str>,
    state_csv: Option<&Result<CsvData, String>>,
) -> (result: Result<PlotData, String>)
    requires
        numbers_fit(csv@.rows, number_rows(numbers@)),
        times@.len() == csv.rows@.len(),
    ensures
        plot_result(result) == labeled_plot_asked(
            csv@,
            number_rows(numbers@),
            times@,
            label_column@,
            timestamp_column@,
            value_column@,
            given_text(state_column),
            given_table(state_csv),
        ),
{
    match state_config_from_args(state_column, state_csv) {
        Ok(config) => load_labeled_series_plot_data_with_state(
            csv,
            numbers,
            times,
            label_column,
            timestamp_column,
            value_column,
            config,
        ),
        Err(message) => Err(message),
    }
}

/// The map of the frequencies of the y column over the x column that is shown.
pub fn run_power_spectrum(
    csv: &CsvData,
    numbers: &Vec<Vec<Number>>,
    x_column: &str,
    y_column: &str,
    gaps: &Vec<bool>,
) -> (result: Result<PlotData, String>)
    requires
        numbers_fit(csv@.rows, number_rows(numbers@)),
    ensures
        plot_result(result) == spectrum_plot(
            csv@,
            number_rows(numbers@),
            x_column@,
            y_column@,
            gaps@,
        ),
{
    load_power_spectrum_plot_data(csv, numbers, x_column, y_column, gaps)
}

/// An image that is to be drawn.
#[derive(Debug, PartialEq, Eq)]
pub struct PlotImage {
    pub plot: PlotData,
    pub width: u32,
    pub height: u32,
}

/// What a [`PlotImage`] says.
#[verifier::ext_equal]
pub struct ImageModel {
    pub plot: PlotModel,
    pub width: u32,
    pub height: u32,
}

/// What an image that may be missing says.
pub open spec fn image_result(result: Result<PlotImage, String>) -> Result<ImageModel, Seq<char>> {
    match result {
        Ok(image) => Ok(
            ImageModel { plot: image.plot@, width: image.width, height: image.height },
        ),
        Err(message) => Err(message@),
    }
}

/// The image of the plot, or why there is none.
pub open spec fn image_of(plot: Result<PlotModel, Seq<char>>, size: (u32, u32)) -> Result<
    ImageModel,
    Seq<char>,
> {
    match plot {
        Err(message) => Err(message),
        Ok(plot) => if plot.kind is Line {
            Ok(ImageModel { plot, width: size.0, height: size.1 })
        } else {
            Err("image export supports line plots only"@)
        },
    }
}

/// The image of the plot.
pub fn save_line_plot_image(plot: PlotData, image_size: (u32, u32)) -> (result: Result<
    PlotImage,
    String,
>)
    ensures
        image_result(result) == image_of(Ok(plot@), image_size),
{
    match plot.kind {
        PlotKind::Line => Ok(PlotImage { plot, width: image_size.0, height: image_size.1 }),
        PlotKind::HeatmapSource(_) => Err("image export supports line plots only".to_owned()),
    }
}

/// The image of the y columns over the x column.
pub fn save_image_xy(
    csv: &CsvData,
    numbers: &Vec<Vec<Number>>,
    x_column: &str,
    y_columns: &Vec<String>,
) -> (result: Result<PlotImage, String>)
    requires
        numbers_fit(csv@.rows, number_rows(numbers@)),
    ensures
        image_result(result) == image_of(
            xy_plot(csv@, number_rows(numbers@), x_column@, texts(y_columns@), None),
            DEFAULT_IMAGE_SIZE,
        ),
{
    save_image_xy_with_state(csv, numbers, x_column, y_columns, None, None)
}

/// The image of the y columns over the x column, with states.
pub fn save_image_xy_with_state(
    csv: &CsvData,
    numbers: &Vec<Vec<Number>>,
    x_column: &str,
    y_columns: &Vec<String>,
    state_column: Option<&str>,
    state_csv: Option<&Result<CsvData, String>>,
) -> (result: Result<PlotImage, String>)
    requires
        numbers_fit(csv@.rows, number_rows(numbers@)),
    ensures
        image_result(result) == image_of(
            xy_plot_asked(
                csv@,
                number_rows(numbers@),
                x_column@,
                texts(y_columns@),
                given_text(state_column),
                given_table(state_csv),
            ),
            DEFAULT_IMAGE_SIZE,
        ),
{
    save_image_xy_with_state_and_size(
        csv,
        numbers,
        x_column,
        y_columns,
        state_column,
        state_csv,
        DEFAULT_IMAGE_SIZE,
    )
}

/// The image of the y columns over the x column, with states, in the given size.
pub fn save_image_xy_with_state_and_size(
    csv: &CsvData,
    numbers: &Vec<Vec<Number>>,
    x_column: &str,
    y_columns: &Vec<String>,
    state_column: Option<&str>,
    state_csv: Option<&Result<CsvData, String>>,
    image_size: (u32, u32),
) -> (result: Result<PlotImage, String>)
    requires
        numbers_fit(csv@.rows, number_rows(numbers@)),
    ensures
        image_result(result) == image_of(
            xy_plot_asked(
                csv@,
                number_rows(numbers@),
                x_column@,
                texts(y_columns@),
                given_text(state_column),
                given_table(state_csv),
            ),
            image_size,
        ),
{
    match run_xy_with_state(csv, numbers, x_column, y_columns, state_column, state_csv) {
        Ok(plot) => save_line_plot_image(plot, image_size),
        Err(message) => Err(message),
    }
}

/// The image of labeled series.
pub fn save_image_labeled_series(
    csv: &CsvData,
    numbers: &Vec<Vec<Number>>,
    times: &Vec<Option<i64>>,
    label_column: &str,
    timestamp_column: &str,
    value_column: &str,
) -> (result: Result<PlotImage, String>)
    requires
        numbers_fit(csv@.rows, number_rows(numbers@)),
        times@.len() == csv.rows@.len(),
    ensures
        image_result(result) == image_of(
            labeled_plot(
                csv@,
                number_rows(numbers@),
                times@,
                label_column@,
                timestamp_column@,
                value_column@,
                None,
            ),
            DEFAULT_IMAGE_SIZE,
        ),
{
    save_image_labeled_series_with_state(
        csv,
        numbers,
        times,
        label_column,
        timestamp_column,
        value_column,
        None,
        None,
    )
}

/// The image of labeled series, with states, in the given size.
pub fn save_image_labeled_series_with_state_and_size(
    csv: &CsvData,
    numbers: &Vec<Vec<Number>>,
    times: &Vec<Option<i64>>,
    label_column: &str,
    timestamp_column: &str,
    value_column: &str,
    state: StateConfig<'_>,
    image_size: (u32, u32),
) -> (result: Result<PlotImage, String>)
    requires
        numbers_fit(csv@.rows, number_rows(numbers@)),
        times@.len() == csv.rows@.len(),
    ensures
        image_result(result) == image_of(
            labeled_plot(
                csv@,
                number_rows(numbers@),
                times@,
                label_column@,
                timestamp_column@,
                value_column@,
                config_model(state),
            ),
            image_size,
        ),
{
    match load_labeled_series_plot_data_with_state(
        csv,
        numbers,
        times,
        label_column,
        timestamp_column,
        value_column,
        state,
    ) {
        Ok(plot) => save_line_plot_image(plot, image_size),
        Err(message) => Err(message),
    }
}

/// Both the column that holds the states and the table that defines them; none, unless both are
/// given.
pub open spec fn both_given(
    column: Option<Seq<char>>,
    table: Option<Result<CsvModel, Seq<char>>>,
) -> Option<(Seq<char>, Result<CsvModel, Seq<char>>)> {
    match (column, table) {
        (Some(column), Some(table)) => Some((column, table)),
        _ => None,
    }
}

/// The image of labeled series, with states where both the column that holds them and the table
/// that defines them are given.
pub fn save_image_labeled_series_with_state(
    csv: &CsvData,
    numbers: &Vec<Vec<Number>>,
    times: &Vec<Option<i64>>,
    label_column: &str,
    timestamp_column: &str,
    value_column: &str,
    state_column: Option<&str>,
    state_csv: Option<&Result<CsvData, String>>,
) -> (result: Result<PlotImage, String>)
    requires
        numbers_fit(csv@.rows, number_rows(numbers@)),
        times@.len() == csv.rows@.len(),
    ensures
        image_result(result) == image_of(
            labeled_plot(
                csv@,
                number_rows(numbers@),
                times@,
                label_column@,
                timestamp_column@,
                value_column@,
                both_given(given_text(state_column), given_table(state_csv)),
            ),
            DEFAULT_IMAGE_SIZE,
        ),
{
    let state = match (state_column, state_csv) {
        (Some(column), Some(table)) => Some((column, table)),
        _ => None,
    };
    save_image_labeled_series_with_state_and_size(
        csv,
        numbers,
        times,
        label_column,
        timestamp_column,
        value_column,
        state,
        DEFAULT_IMAGE_SIZE,
    )
}

} // verus!
