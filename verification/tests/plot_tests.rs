use my_dev_tools::cells::Number;
use my_dev_tools::csv_key_diff::{read_csv, CsvData};
use my_dev_tools::csv_plot::{
    load_labeled_series_plot_data, load_labeled_series_plot_data_with_state,
    load_power_spectrum_plot_data, load_xy_plot_data, load_xy_plot_data_with_state,
    power_spectrum_points, run_labeled_series, run_labeled_series_with_state, run_power_spectrum,
    run_xy, run_xy_with_state, save_image_labeled_series, save_image_labeled_series_with_state,
    save_image_labeled_series_with_state_and_size, save_image_xy, save_image_xy_with_state,
    save_image_xy_with_state_and_size, save_line_plot_image, state_config_from_args, AxisKind,
    PlotKind, DEFAULT_IMAGE_SIZE,
};
use my_dev_tools::plot_states::{
    auto_state_color, is_active, load_state_definitions, merge_state_points, parse_state_color,
    parse_u64_value, state_lane_count, state_lane_labels, state_lanes, state_mask_at,
    state_stretches, StateColor, Stretch,
};
use my_dev_tools::plot_view::{
    fft_name, help_text, image_series_color, panel_shares, press, shown_panels, shows_derivative,
    shows_fft, state_caption, state_height, Allowed, Bounds, Change, Key, Move, Panel, Panels, Step,
};
use my_dev_tools::points::{
    fft_sample_count, image_series_envelope, range_of, sort_pairs, visible_points, window_size, Bar,
};
use my_dev_tools::text::trim;
use my_dev_tools::timestamps::{
    choose_stamp, format_timestamp_label, parse_timestamp_value, settle_timestamp, Stamp,
};

fn order(value: f64) -> i64 {
    let bits = value.to_bits() as i64;
    bits ^ (((bits >> 63) as u64) >> 1) as i64
}

fn value(order: i64) -> f64 {
    f64::from_bits((order ^ (((order >> 63) as u64) >> 1) as i64) as u64)
}

fn number(text: &str) -> Number {
    match text.parse::<f64>() {
        Err(error) => Number::Invalid(error.to_string()),
        Ok(value) if !value.is_finite() => Number::NotFinite,
        Ok(value) => Number::Finite { order: order(value), shown: value.to_string() },
    }
}

fn numbers(csv: &CsvData) -> Vec<Vec<Number>> {
    csv.rows
        .iter()
        .map(|row| row.iter().map(|cell| number(cell)).collect())
        .collect()
}

fn seconds_of(text: &str) -> Option<f64> {
    match parse_timestamp_value(text, &number(&trim(text)))? {
        Stamp::Seconds(order) => Some(value(order)),
        Stamp::Nanos(nanos) => Some(nanos as f64 / 1_000_000_000.0),
    }
}

fn times(csv: &CsvData, column: &str) -> Vec<Option<i64>> {
    let index = csv.headers.iter().position(|name| name == column);
    csv.rows
        .iter()
        .map(|row| {
            let text = index.and_then(|index| row.get(index))?;
            seconds_of(text).map(order)
        })
        .collect()
}

fn texts(list: &[&str]) -> Vec<String> {
    list.iter().map(|text| String::from(*text)).collect()
}

fn table(headers: &[&str], rows: &[&[&str]]) -> CsvData {
    CsvData {
        path: String::from("input.csv"),
        headers: texts(headers),
        rows: rows.iter().map(|row| texts(row)).collect(),
    }
}

fn read(contents: &str) -> CsvData {
    read_csv("input.csv", "input.csv", contents.as_bytes().to_vec()).unwrap()
}

fn floats(points: &[(i64, i64)]) -> Vec<(f64, f64)> {
    points.iter().map(|(x, y)| (value(*x), value(*y))).collect()
}

fn derivative(points: &[(f64, f64)]) -> Vec<(f64, f64)> {
    points
        .windows(2)
        .filter_map(|window| {
            let dx = window[1].0 - window[0].0;
            if dx.is_finite() && dx != 0.0 {
                Some((window[1].0, (window[1].1 - window[0].1) / dx))
            } else {
                None
            }
        })
        .collect()
}

#[test]
fn loads_xy_plot_data() {
    let csv = table(&["t", "x", "v"], &[&["0.0", "1.0", "2.0"], &["1.0", "3.0", "4.0"]]);

    let plot = load_xy_plot_data(&csv, &numbers(&csv), "t", &texts(&["x", "v"])).unwrap();

    assert_eq!(floats(&plot.series[0].points), vec![(0.0, 1.0), (1.0, 3.0)]);
    assert_eq!(floats(&plot.series[1].points), vec![(0.0, 2.0), (1.0, 4.0)]);
    assert_eq!(derivative(&floats(&plot.series[0].points)), vec![(1.0, 2.0)]);
    assert_eq!(derivative(&floats(&plot.series[1].points)), vec![(1.0, 2.0)]);
    assert_eq!(plot.derivative_names, texts(&["d(x)/dt", "d(v)/dt"]));
    assert_eq!(plot.title, "x, v vs t");
    assert_eq!(plot.x_range, (order(0.0), order(1.0)));
    assert_eq!(plot.y_range, Some((order(1.0), order(4.0))));
}

#[test]
fn loads_labeled_series_plot_data() {
    let csv = table(
        &["label", "stamp", "signal"],
        &[
            &["beta", "2026-01-01T00:00:02Z", "5.0"],
            &["alpha", "2026-01-01T00:00:01Z", "1.5"],
            &["alpha", "2026-01-01T00:00:03Z", "2.5"],
        ],
    );

    let plot = load_labeled_series_plot_data(
        &csv,
        &numbers(&csv),
        &times(&csv, "stamp"),
        "label",
        "stamp",
        "signal",
    )
    .unwrap();

    assert_eq!(plot.x_axis.kind, AxisKind::Timestamp);
    assert_eq!(plot.series.len(), 2);
    assert_eq!(plot.series[0].name, "alpha");
    assert_eq!(floats(&plot.series[0].points)[0].1, 1.5);
    assert!(floats(&plot.series[0].points)[0].0 < floats(&plot.series[0].points)[1].0);
    assert_eq!(plot.series[1].name, "beta");
}

#[test]
fn parses_timestamp_values() {
    let rfc3339 = seconds_of("2026-01-01T12:00:00Z").unwrap();
    let naive = seconds_of("2026-01-01 12:00:00").unwrap();
    let unix = seconds_of("1735732800").unwrap();

    assert_eq!(rfc3339, naive);
    assert_eq!(unix, 1_735_732_800.0);
}

#[test]
fn reads_xy_plot_data_from_zst_csv() {
    let bytes = zstd::encode_all("t,x\n0,1\n1,3\n".as_bytes(), 0).unwrap();
    let csv = read_csv("plot.csv.zst", "plot.csv.zst", bytes).unwrap();

    let plot = load_xy_plot_data(&csv, &numbers(&csv), "t", &texts(&["x"])).unwrap();

    assert_eq!(floats(&plot.series[0].points), vec![(0.0, 1.0), (1.0, 3.0)]);
}

#[test]
fn reads_labeled_series_plot_data_from_plain_csv() {
    let csv = read(
        "label,stamp,signal\nalpha,2026-01-01T00:00:00Z,1.0\nalpha,2026-01-01T00:00:01Z,2.0\n",
    );

    let plot = load_labeled_series_plot_data(
        &csv,
        &numbers(&csv),
        &times(&csv, "stamp"),
        "label",
        "stamp",
        "signal",
    )
    .unwrap();

    assert_eq!(plot.series[0].name, "alpha");
    assert_eq!(plot.series[0].points.len(), 2);
}

#[test]
fn image_envelope_preserves_minimum_and_maximum_values() {
    let points = (0..100)
        .map(|index| (order(index as f64), order(if index % 2 == 0 { -2.0 } else { 3.0 })))
        .collect::<Vec<_>>();
    let columns = |points: &[(i64, i64)], last: f64| {
        points
            .iter()
            .map(|(x, _)| (value(*x) / last * 10.0) as usize)
            .collect::<Vec<_>>()
    };

    let envelope = image_series_envelope(
        &points,
        (order(0.0), order(99.0)),
        true,
        &columns(&points, 99.0),
        10,
    )
    .unwrap();

    assert_eq!(envelope.len(), 10);
    assert!(envelope
        .iter()
        .all(|bar| (value(bar.lowest), value(bar.highest)) == (-2.0, 3.0)));
    let few = points[..10].to_vec();
    assert!(image_series_envelope(
        &few,
        (order(0.0), order(9.0)),
        true,
        &columns(&few, 9.0),
        10
    )
    .is_none());
}

#[test]
fn loads_state_bands_with_automatic_and_explicit_colors() {
    let csv = read("t,signal,state\n0,1,0\n1,2,5\n2,3,4\n");
    let definitions = Ok(read("bit,label,color\n1,spike,\n4,step,#00ff00\n"));

    let plot = load_xy_plot_data_with_state(
        &csv,
        &numbers(&csv),
        "t",
        &texts(&["signal"]),
        Some(("state", &definitions)),
    )
    .unwrap();
    let state_bands = plot.state_bands.unwrap();

    assert_eq!(state_bands.definitions.len(), 2);
    assert_eq!(state_bands.definitions[0].color, auto_state_color(0));
    assert_eq!(state_bands.definitions[1].color, StateColor(0, 255, 0));
    assert_eq!(state_bands.tracks.len(), 1);
    assert_eq!(state_mask_at(&state_bands.tracks[0], order(1.5)), 5);
    assert_eq!(state_mask_at(&state_bands.tracks[0], order(2.0)), 4);
}

#[test]
fn keeps_state_masks_separate_for_each_labeled_series() {
    let csv = read(
        "label,stamp,signal,state\nalpha,0,1,1\nbeta,0,2,2\nalpha,1,3,0\nbeta,1,4,1\n",
    );
    let definitions = Ok(read("bit,label\n1,spike\n2,step\n"));

    let plot = load_labeled_series_plot_data_with_state(
        &csv,
        &numbers(&csv),
        &times(&csv, "stamp"),
        "label",
        "stamp",
        "signal",
        Some(("state", &definitions)),
    )
    .unwrap();
    let state_bands = plot.state_bands.unwrap();

    assert_eq!(state_bands.tracks.len(), 2);
    assert_eq!(state_bands.tracks[0].label.as_deref(), Some("alpha"));
    assert_eq!(state_mask_at(&state_bands.tracks[0], order(0.5)), 1);
    assert_eq!(state_bands.tracks[1].label.as_deref(), Some("beta"));
    assert_eq!(state_mask_at(&state_bands.tracks[1], order(0.5)), 2);
}

#[test]
fn rejects_state_bits_missing_from_definition_csv() {
    let csv = read("t,signal,state\n0,1,2\n1,2,2\n");
    let definitions = Ok(read("bit,label\n1,spike\n"));

    let error = load_xy_plot_data_with_state(
        &csv,
        &numbers(&csv),
        "t",
        &texts(&["signal"]),
        Some(("state", &definitions)),
    )
    .unwrap_err();

    assert!(error.contains("bits missing from the state CSV"));
}

#[test]
fn rejects_duplicate_timestamps_for_power_spectrum() {
    let csv = table(
        &["t", "signal"],
        &[&["0", "0"], &["1", "1"], &["1", "0"], &["2", "-1"]],
    );

    let error =
        load_power_spectrum_plot_data(&csv, &numbers(&csv), "t", "signal", &Vec::new()).unwrap_err();

    assert!(error.contains("strictly increasing x values"));
}

#[test]
fn rejects_incomplete_state_configuration() {
    let error = state_config_from_args(Some("state"), None).unwrap_err();

    assert!(error.contains("--state-column and --state-csv must be specified together"));
}

#[test]
fn loads_power_spectrum_plot_data() {
    let rows = (0..128)
        .map(|index| {
            let x = index as f64 * 0.1;
            let y = (2.0 * std::f64::consts::PI * x).sin();
            vec![x.to_string(), y.to_string()]
        })
        .collect();
    let csv = CsvData {
        path: String::from("input.csv"),
        headers: texts(&["t", "signal"]),
        rows,
    };

    let plot =
        load_power_spectrum_plot_data(&csv, &numbers(&csv), "t", "signal", &Vec::new()).unwrap();

    assert_eq!(plot.x_axis.label, "t");
    assert_eq!(plot.y_axis_label, "frequency");
    assert!(matches!(plot.kind, PlotKind::HeatmapSource(_)));
    assert!(plot.series.is_empty());
    assert!(!plot.allow_derivative_panel);
    assert!(!plot.allow_fft_panel);
    assert_eq!(plot.title, "spectrogram(signal)");
}

#[test]
fn image_of_columns_has_the_standard_size() {
    let csv = read("t,x,v\n0,1,2\n1,3,4\n2,5,6\n");
    let image = save_image_xy(&csv, &numbers(&csv), "t", &texts(&["x", "v"])).unwrap();
    assert_eq!((image.width, image.height), DEFAULT_IMAGE_SIZE);
    assert_eq!(DEFAULT_IMAGE_SIZE, (1600, 900));
    assert_eq!(image.plot.series.len(), 2);
    assert_eq!(
        image.plot,
        run_xy(&csv, &numbers(&csv), "t", &texts(&["x", "v"])).unwrap()
    );
}

#[test]
fn image_of_columns_has_the_requested_size() {
    let csv = read("t,signal\n0,1\n1,3\n2,2\n");
    let image = save_image_xy_with_state_and_size(
        &csv,
        &numbers(&csv),
        "t",
        &texts(&["signal"]),
        None,
        None,
        (640, 480),
    )
    .unwrap();
    assert_eq!((image.width, image.height), (640, 480));
}

#[test]
fn image_of_labeled_series_shows_each_label() {
    let csv = read(
        "label,stamp,signal\nalpha,2026-01-01T00:00:00Z,1.0\nbeta,2026-01-01T00:00:00Z,2.0\nalpha,2026-01-01T00:00:01Z,1.5\nbeta,2026-01-01T00:00:01Z,2.5\n",
    );
    let stamps = times(&csv, "stamp");
    let image =
        save_image_labeled_series(&csv, &numbers(&csv), &stamps, "label", "stamp", "signal").unwrap();
    assert_eq!(image.plot.series.len(), 2);
    assert_eq!(image.plot.title, "signal vs stamp");
    assert_eq!(
        image.plot,
        run_labeled_series(&csv, &numbers(&csv), &stamps, "label", "stamp", "signal").unwrap()
    );
}

#[test]
fn image_with_states_has_them() {
    let csv = read("t,signal,state\n0,1,0\n1,2,1\n2,3,3\n");
    let definitions = Ok(read("bit,label\n1,spike\n2,step\n"));
    let image = save_image_xy_with_state(
        &csv,
        &numbers(&csv),
        "t",
        &texts(&["signal"]),
        Some("state"),
        Some(&definitions),
    )
    .unwrap();
    let bands = image.plot.state_bands.unwrap();
    assert_eq!(state_lanes(&bands), vec![(0, 0), (0, 1)]);
    assert_eq!(state_lane_count(&bands), 2);
    assert_eq!(state_lane_labels(&bands), texts(&["spike", "step"]));
    assert_eq!(state_caption(&bands), "states (top to bottom): spike | step");
    assert_eq!(
        state_stretches(&bands, (order(0.0), order(5.0))),
        vec![
            Stretch { lane: 0, from: order(1.0), to: order(2.0) },
            Stretch { lane: 0, from: order(2.0), to: order(5.0) },
            Stretch { lane: 1, from: order(2.0), to: order(5.0) },
        ]
    );
    assert_eq!(
        state_stretches(&bands, (order(1.5), order(1.75))),
        vec![Stretch { lane: 0, from: order(1.5), to: order(1.75) }]
    );
    assert!(is_active(&bands.tracks[0], &bands.definitions[1], order(2.5)));
    assert!(!is_active(&bands.tracks[0], &bands.definitions[1], order(1.5)));
    assert!(!is_active(&bands.tracks[0], &bands.definitions[0], order(-1.0)));
}

#[test]
fn states_of_labeled_series_need_both_arguments_on_the_terminal() {
    let csv = read("label,stamp,signal,state\nalpha,0,1,1\n");
    let stamps = times(&csv, "stamp");
    assert!(run_labeled_series_with_state(
        &csv,
        &numbers(&csv),
        &stamps,
        "label",
        "stamp",
        "signal",
        Some("state"),
        None,
    )
    .is_err());
    let image = save_image_labeled_series_with_state(
        &csv,
        &numbers(&csv),
        &stamps,
        "label",
        "stamp",
        "signal",
        Some("state"),
        None,
    )
    .unwrap();
    assert_eq!(image.plot.state_bands, None);
    let definitions = Ok(read("bit,label\n1,spike\n"));
    let image = save_image_labeled_series_with_state_and_size(
        &csv,
        &numbers(&csv),
        &stamps,
        "label",
        "stamp",
        "signal",
        Some(("state", &definitions)),
        (320, 200),
    )
    .unwrap();
    assert_eq!((image.width, image.height), (320, 200));
    assert_eq!(
        state_lane_labels(&image.plot.state_bands.unwrap()),
        texts(&["alpha / spike"])
    );
}

#[test]
fn heatmaps_have_no_image() {
    let csv = read("t,s\n0,1\n1,2\n2,3\n3,4\n");
    let plot = run_power_spectrum(&csv, &numbers(&csv), "t", "s", &Vec::new()).unwrap();
    assert_eq!(
        save_line_plot_image(plot, (10, 10)).unwrap_err(),
        "image export supports line plots only"
    );
}

#[test]
fn spectra_need_rows_in_order() {
    let few = read("t,s\n0,1\n1,2\n2,3\n");
    assert_eq!(
        run_power_spectrum(&few, &numbers(&few), "t", "s", &Vec::new()).unwrap_err(),
        "csv_power_spectrum requires at least four rows"
    );
    let csv = read("t,s\n3,1\n1,2\n2,3\n0,4\n");
    let points = power_spectrum_points(&csv, &numbers(&csv), "t", "s").unwrap();
    assert_eq!(floats(&points), vec![(0.0, 4.0), (1.0, 2.0), (2.0, 3.0), (3.0, 1.0)]);
    assert!(run_power_spectrum(&csv, &numbers(&csv), "t", "s", &vec![true, true, true]).is_ok());
    assert!(run_power_spectrum(&csv, &numbers(&csv), "t", "s", &vec![true, false, true]).is_err());
}

#[test]
fn plots_without_rows_or_columns_are_refused() {
    let csv = table(&["t", "x"], &[]);
    assert_eq!(
        run_xy(&csv, &numbers(&csv), "t", &texts(&["x"])).unwrap_err(),
        "csv_plot requires at least one row"
    );
    assert_eq!(
        run_xy(&csv, &numbers(&csv), "t", &Vec::new()).unwrap_err(),
        "csv_plot requires at least one y column"
    );
    assert_eq!(
        run_xy(&csv, &numbers(&csv), "z", &texts(&["x"])).unwrap_err(),
        "column not found: z"
    );
    assert_eq!(
        run_labeled_series(&csv, &numbers(&csv), &Vec::new(), "t", "t", "x").unwrap_err(),
        "csv_plot requires at least one row"
    );
}

#[test]
fn bad_times_are_named() {
    let csv = read("label,stamp,signal\nalpha,soon,1\n");
    assert_eq!(
        run_labeled_series(&csv, &numbers(&csv), &times(&csv, "stamp"), "label", "stamp", "signal")
            .unwrap_err(),
        "failed to parse row 1 column stamp as timestamp: soon"
    );
    let csv = read("label,stamp,signal\n ,0,1\n");
    assert_eq!(
        run_labeled_series(&csv, &numbers(&csv), &times(&csv, "stamp"), "label", "stamp", "signal")
            .unwrap_err(),
        "row 1 column label must not be empty"
    );
}

#[test]
fn errors_of_the_state_table_come_through() {
    let csv = read("t,signal,state\n0,1,0\n");
    let missing = Err(String::from("no such file"));
    assert_eq!(
        run_xy_with_state(
            &csv,
            &numbers(&csv),
            "t",
            &texts(&["signal"]),
            Some("state"),
            Some(&missing)
        )
        .unwrap_err(),
        "no such file"
    );
    assert_eq!(
        run_xy_with_state(
            &csv,
            &numbers(&csv),
            "t",
            &texts(&["signal"]),
            Some("mask"),
            Some(&missing)
        )
        .unwrap_err(),
        "column not found: mask"
    );
}

#[test]
fn state_definitions_are_checked() {
    let error = |contents: &str| load_state_definitions(&read(contents)).unwrap_err();
    assert_eq!(error("label\na\n"), "column not found: bit");
    assert_eq!(error("bit\n1\n"), "column not found: label");
    assert_eq!(error("bit,label\n"), "state CSV requires at least one state definition");
    assert_eq!(
        error("bit,label\n1,a\n2,b\n4,c\n8,d\n"),
        "state CSV supports at most 3 state definitions"
    );
    assert_eq!(error("bit,label\n3,a\n"), "row 1 column bit must contain one bit");
    assert_eq!(error("bit,label\n0,a\n"), "row 1 column bit must contain one bit");
    assert_eq!(error("bit,label\n1,a\n0x1,b\n"), "duplicate state bit: 1");
    assert_eq!(error("bit,label\n1, \n"), "row 1 column label must not be empty");
    assert_eq!(
        error("bit,label\nx,a\n"),
        "failed to parse row 1 column bit: invalid digit found in string"
    );
    assert_eq!(
        load_state_definitions(&table(&["label", "bit"], &[&["a"]])).unwrap_err(),
        "row 1 is missing column value: bit"
    );
    assert_eq!(
        error("bit,label,color\n1,a,red\n"),
        "state color must be #RRGGBB: red"
    );
}

#[test]
fn colors_are_read_in_hexadecimal() {
    assert_eq!(parse_state_color(" #e15759 "), Ok(StateColor(225, 87, 89)));
    assert_eq!(parse_state_color("4fA8dC"), Ok(StateColor(79, 168, 220)));
    assert_eq!(parse_state_color("##").unwrap_err(), "state color must not be empty");
    assert_eq!(parse_state_color("#12345g").unwrap_err(), "invalid digit found in string");
    assert_eq!(
        parse_state_color("\u{e9}\u{e9}\u{e9}").unwrap_err(),
        "invalid digit found in string"
    );
    assert_eq!(auto_state_color(1), StateColor(80, 170, 220));
    assert_eq!(auto_state_color(2), StateColor(244, 180, 0));
}

#[test]
fn masks_are_read_in_two_ways() {
    assert_eq!(parse_u64_value(" 0x1F ", 0, "state"), Ok(31));
    assert_eq!(parse_u64_value("0Xff", 0, "state"), Ok(255));
    assert_eq!(parse_u64_value("12", 0, "state"), Ok(12));
    assert_eq!(
        parse_u64_value("0x", 4, "state").unwrap_err(),
        "failed to parse row 5 column state: cannot parse integer from empty string"
    );
    assert_eq!(
        parse_u64_value("18446744073709551616", 0, "state").unwrap_err(),
        "failed to parse row 1 column state: number too large to fit in target type"
    );
}

#[test]
fn masks_at_the_same_place_are_combined() {
    let points = vec![(order(2.0), 1), (order(0.0), 4), (order(2.0), 2), (order(-0.0), 1)];
    let (merged, places) = merge_state_points(&points);
    assert_eq!(merged, vec![(order(-0.0), 5), (order(2.0), 3)]);
    assert_eq!(places, vec![order(0.0), order(2.0)]);
}

#[test]
fn timestamps_are_read_in_several_forms() {
    assert_eq!(
        parse_timestamp_value("1970-01-01T00:00:01.5Z", &number("1970-01-01T00:00:01.5Z")),
        Some(Stamp::Nanos(1_500_000_000))
    );
    assert_eq!(seconds_of("1970/01/01 00:01:00"), Some(60.0));
    assert_eq!(seconds_of("1970-01-01T00:01:00.25"), Some(60.25));
    assert_eq!(seconds_of(" 1970/01/01T00:01:00 "), Some(60.0));
    assert_eq!(seconds_of("1970-01-01T01:00:00+01:00"), Some(0.0));
    assert_eq!(seconds_of(" 12.5 "), Some(12.5));
    assert_eq!(seconds_of("inf"), None);
    assert_eq!(seconds_of("today"), None);
    assert_eq!(choose_stamp(None, Some(3)), Some(Stamp::Nanos(3)));
    assert_eq!(choose_stamp(Some(2), Some(3)), Some(Stamp::Nanos(2)));
    assert_eq!(choose_stamp(None, None), None);
}

#[test]
fn timestamps_are_shown_without_the_year() {
    assert_eq!(
        format_timestamp_label(1_735_732_800, 0),
        Some(String::from("01-01 12:00:00"))
    );
    assert_eq!(format_timestamp_label(i64::MAX, 0), None);
    assert_eq!(settle_timestamp(5, 1_000_000_000), Some((6, 0)));
    assert_eq!(settle_timestamp(5, -1), Some((4, 999_999_999)));
    assert_eq!(settle_timestamp(5, 7), Some((5, 7)));
    assert_eq!(settle_timestamp(5, 2_000_000_000), None);
}

#[test]
fn points_are_sorted_and_keep_their_order() {
    let points = vec![(3, 'a'), (1, 'b'), (3, 'c'), (2, 'd'), (1, 'e')];
    assert_eq!(
        sort_pairs(&points),
        vec![(1, 'b'), (1, 'e'), (2, 'd'), (3, 'a'), (3, 'c')]
    );
    assert_eq!(range_of(&vec![3, -1, 2]), (-1, 3));
}

#[test]
fn visible_points_are_thinned_out() {
    let points = (0..100).map(|i| (i, i * 2)).collect::<Vec<(i64, i64)>>();
    assert_eq!(visible_points(&points, (10, 14), 80).len(), 5);
    let thin = visible_points(&points, (0, 99), 22);
    assert_eq!(thin.len(), 11);
    assert_eq!(thin[0], (0, 0));
    assert_eq!(thin[1], (10, 20));
    assert_eq!(thin[10], (99, 198));
    assert_eq!(visible_points(&points, (0, 99), 0), vec![(0, 0), (50, 100), (99, 198)]);
    assert_eq!(visible_points(&points, (200, 300), 80), Vec::new());
}

#[test]
fn bars_hold_the_extremes_of_their_columns() {
    let points = vec![(0, 5), (1, -5), (2, 7), (3, 1), (9, 100)];
    let bars = image_series_envelope(&points, (0, 3), true, &vec![0, 0, 1, 9, 9], 3).unwrap();
    assert_eq!(
        bars,
        vec![
            Bar { column: 0, lowest: -5, highest: 5 },
            Bar { column: 1, lowest: 7, highest: 7 },
            Bar { column: 2, lowest: 1, highest: 1 },
        ]
    );
    assert_eq!(image_series_envelope(&points, (0, 3), false, &vec![0; 5], 3), None);
    assert_eq!(image_series_envelope(&points, (0, 3), true, &vec![0; 5], 0), None);
}

#[test]
fn spectra_are_made_of_powers_of_two() {
    assert_eq!(fft_sample_count(3), None);
    assert_eq!(fft_sample_count(4), Some(4));
    assert_eq!(fft_sample_count(129), Some(256));
    assert_eq!(fft_sample_count(5000), Some(1024));
    assert_eq!(window_size(1), 32);
    assert_eq!(window_size(33), 64);
    assert_eq!(window_size(9999), 512);
}

#[test]
fn keys_move_and_toggle() {
    let allowed = Allowed { derivative: true, fft: true };
    let mut panels = Panels { show_derivative: false, show_fft: false };
    assert_eq!(press(&mut panels, allowed, Key::Char('q')), Step::Quit);
    assert_eq!(press(&mut panels, allowed, Key::Esc), Step::Quit);
    assert_eq!(press(&mut panels, allowed, Key::Enter), Step::Quit);
    assert_eq!(press(&mut panels, allowed, Key::Char('0')), Step::Reset);
    assert_eq!(press(&mut panels, allowed, Key::Char('z')), Step::Stay);
    assert_eq!(
        press(&mut panels, allowed, Key::Left),
        Step::Moves(vec![Move { bounds: Bounds::MainX, change: Change::PanBack }])
    );
    assert_eq!(
        press(&mut panels, allowed, Key::Char('k')),
        Step::Moves(vec![
            Move { bounds: Bounds::MainY, change: Change::PanForward },
            Move { bounds: Bounds::DerivativeY, change: Change::PanForward },
        ])
    );
    assert_eq!(press(&mut panels, allowed, Key::Char('f')), Step::Stay);
    assert!(shows_fft(panels, allowed));
    assert!(!shows_derivative(panels, allowed));
    assert_eq!(
        press(&mut panels, allowed, Key::Char('=')),
        Step::Moves(vec![
            Move { bounds: Bounds::MainX, change: Change::ZoomIn },
            Move { bounds: Bounds::MainY, change: Change::ZoomIn },
            Move { bounds: Bounds::DerivativeY, change: Change::ZoomIn },
            Move { bounds: Bounds::FftY, change: Change::ZoomIn },
        ])
    );
    press(&mut panels, allowed, Key::Char('f'));
    assert_eq!(panels, Panels { show_derivative: false, show_fft: false });
    let none = Allowed { derivative: false, fft: false };
    press(&mut panels, none, Key::Char('d'));
    assert_eq!(panels, Panels { show_derivative: false, show_fft: false });
}

#[test]
fn layout_follows_the_panels() {
    assert_eq!(panel_shares(false, false), vec![100]);
    assert_eq!(panel_shares(true, false), vec![50, 50]);
    assert_eq!(panel_shares(true, true), vec![34, 33, 33]);
    assert_eq!(shown_panels(false, false), vec![Panel::Main]);
    assert_eq!(shown_panels(false, true), vec![Panel::Main, Panel::Fft]);
    assert_eq!(shown_panels(true, true), vec![Panel::Main, Panel::Derivative, Panel::Fft]);
    assert_eq!(state_height(3), 5);
    assert_eq!(
        help_text(Allowed { derivative: true, fft: false }),
        "q/Esc/Enter: exit  d: derivative panel  arrows/hjkl: pan  +/-: zoom  x/X: x zoom  y/Y: y zoom  0: reset"
    );
    assert_eq!(fft_name("signal"), "fft(signal)");
    assert_eq!(image_series_color(7), (255, 193, 7));
    assert_eq!(image_series_color(5), (52, 73, 94));
}
