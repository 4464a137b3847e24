use std::path::PathBuf;

use my_dev_tools::cli::{
    extend_unique_names, parse_args, usage, Arg, Command, CsvPlotCommand, StateOverlayCommand,
};

fn arg(text: &str) -> Arg {
    Arg {
        text: Some(String::from(text)),
        path: PathBuf::from(text),
        number_error: text.parse::<f64>().err().map(|error| error.to_string()),
    }
}

fn os_args(args: &[&str]) -> Vec<Arg> {
    args.iter().map(|text| arg(text)).collect()
}

fn names(list: &[&str]) -> Vec<String> {
    list.iter().map(|name| String::from(*name)).collect()
}

#[test]
fn parses_csv_key_diff_command() {
    let command = parse_args(&os_args(&[
        "csv_key_diff",
        "left.csv",
        "right.csv",
        "--key",
        "id",
        "--key",
        "sub_id",
    ]))
    .unwrap();

    assert_eq!(
        command,
        Command::KeyDiff {
            left: PathBuf::from("left.csv"),
            right: PathBuf::from("right.csv"),
            keys: vec![String::from("id"), String::from("sub_id")],
        }
    );
}

#[test]
fn parses_csv_key_diff_extract_command() {
    let command = parse_args(&os_args(&[
        "csv_key_diff_extract",
        "left.csv",
        "right.csv",
        "diff.txt",
        "--output_left",
        "left_out.csv",
        "--output_right",
        "right_out.csv",
    ]))
    .unwrap();

    assert_eq!(
        command,
        Command::KeyDiffExtract {
            left: PathBuf::from("left.csv"),
            right: PathBuf::from("right.csv"),
            diff: PathBuf::from("diff.txt"),
            output_left: PathBuf::from("left_out.csv"),
            output_right: PathBuf::from("right_out.csv"),
        }
    );
}

#[test]
fn parses_csv_pseudo_diff_command() {
    let command = parse_args(&os_args(&[
        "csv_pseudo_diff",
        "input.csv",
        "--time-column",
        "t",
        "--value-column",
        "x",
        "--time-scale",
        "0.5",
        "--output",
        "out.csv",
    ]))
    .unwrap();

    assert_eq!(
        command,
        Command::PseudoDiff {
            input: PathBuf::from("input.csv"),
            time_column: String::from("t"),
            value_column: String::from("x"),
            time_scale: String::from("0.5"),
            output: Some(PathBuf::from("out.csv")),
        }
    );
    match command {
        Command::PseudoDiff { time_scale, .. } => {
            assert_eq!(time_scale.parse::<f64>(), Ok(0.5));
        }
        _ => unreachable!(),
    }
}

#[test]
fn parses_csv_anomaly_detect_command() {
    let command = parse_args(&os_args(&[
        "csv_anomaly_detect",
        "input.csv",
        "--x-column",
        "stamp",
        "--y-columns",
        "signal, velocity",
    ]))
    .unwrap();

    assert_eq!(
        command,
        Command::AnomalyDetect {
            input: PathBuf::from("input.csv"),
            x_column: String::from("stamp"),
            y_columns: vec![String::from("signal"), String::from("velocity")],
        }
    );
}

#[test]
fn parses_csv_label_split_command() {
    let command = parse_args(&os_args(&[
        "csv_label_split",
        "input.csv",
        "--label-column",
        "label",
        "--output-dir",
        "out",
    ]))
    .unwrap();

    assert_eq!(
        command,
        Command::LabelSplit {
            input: PathBuf::from("input.csv"),
            label_column: String::from("label"),
            output_dir: Some(PathBuf::from("out")),
        }
    );
}

#[test]
fn parses_csv_plot_command() {
    let command = parse_args(&os_args(&[
        "csv_plot",
        "input.csv",
        "--x-column",
        "stamp",
        "--y-columns",
        "signal, velocity",
    ]))
    .unwrap();

    assert_eq!(
        command,
        Command::Plot {
            input: PathBuf::from("input.csv"),
            mode: CsvPlotCommand::XY {
                x_column: String::from("stamp"),
                y_columns: vec![String::from("signal"), String::from("velocity")],
                state: None,
            },
        }
    );
}

#[test]
fn parses_csv_plot_command_with_repeated_y_columns() {
    let command = parse_args(&os_args(&[
        "csv_plot",
        "input.csv",
        "--x-column",
        "stamp",
        "--y-columns",
        "signal",
        "--y-columns",
        "velocity,signal",
    ]))
    .unwrap();

    assert_eq!(
        command,
        Command::Plot {
            input: PathBuf::from("input.csv"),
            mode: CsvPlotCommand::XY {
                x_column: String::from("stamp"),
                y_columns: vec![String::from("signal"), String::from("velocity")],
                state: None,
            },
        }
    );
}

#[test]
fn parses_csv_plot_labeled_series_command() {
    let command = parse_args(&os_args(&[
        "csv_plot",
        "input.csv",
        "--label-column",
        "label",
        "--timestamp-column",
        "stamp",
        "--value-column",
        "signal",
    ]))
    .unwrap();

    assert_eq!(
        command,
        Command::Plot {
            input: PathBuf::from("input.csv"),
            mode: CsvPlotCommand::LabeledSeries {
                label_column: String::from("label"),
                timestamp_column: String::from("stamp"),
                value_column: String::from("signal"),
                state: None,
            },
        }
    );
}

#[test]
fn parses_csv_power_spectrum_command() {
    let command = parse_args(&os_args(&[
        "csv_power_spectrum",
        "input.csv",
        "--x-column",
        "stamp",
        "--y-column",
        "signal",
    ]))
    .unwrap();

    assert_eq!(
        command,
        Command::PowerSpectrum {
            input: PathBuf::from("input.csv"),
            x_column: String::from("stamp"),
            y_column: String::from("signal"),
        }
    );
}

#[test]
fn parses_csv_plot_image_command() {
    let command = parse_args(&os_args(&[
        "csv_plot_image",
        "input.csv",
        "--x-column",
        "stamp",
        "--y-columns",
        "signal, velocity",
        "--output",
        "plot.png",
    ]))
    .unwrap();

    assert_eq!(
        command,
        Command::PlotImage {
            input: PathBuf::from("input.csv"),
            mode: CsvPlotCommand::XY {
                x_column: String::from("stamp"),
                y_columns: vec![String::from("signal"), String::from("velocity")],
                state: None,
            },
            output: PathBuf::from("plot.png"),
        }
    );
}

#[test]
fn parses_csv_plot_image_labeled_series_command() {
    let command = parse_args(&os_args(&[
        "csv_plot_image",
        "input.csv",
        "--label-column",
        "label",
        "--timestamp-column",
        "stamp",
        "--value-column",
        "signal",
        "--output",
        "plot.png",
    ]))
    .unwrap();

    assert_eq!(
        command,
        Command::PlotImage {
            input: PathBuf::from("input.csv"),
            mode: CsvPlotCommand::LabeledSeries {
                label_column: String::from("label"),
                timestamp_column: String::from("stamp"),
                value_column: String::from("signal"),
                state: None,
            },
            output: PathBuf::from("plot.png"),
        }
    );
}

#[test]
fn parses_csv_plot_state_overlay() {
    let command = parse_args(&os_args(&[
        "csv_plot",
        "input.csv",
        "--x-column",
        "stamp",
        "--y-columns",
        "signal",
        "--state-column",
        "anomaly_mask",
        "--state-csv",
        "states.csv",
    ]))
    .unwrap();

    assert_eq!(
        command,
        Command::Plot {
            input: PathBuf::from("input.csv"),
            mode: CsvPlotCommand::XY {
                x_column: String::from("stamp"),
                y_columns: vec![String::from("signal")],
                state: Some(StateOverlayCommand {
                    column: String::from("anomaly_mask"),
                    definitions: PathBuf::from("states.csv"),
                }),
            },
        }
    );
}

#[test]
fn rejects_incomplete_state_overlay_arguments() {
    let error = parse_args(&os_args(&[
        "csv_plot",
        "input.csv",
        "--x-column",
        "stamp",
        "--y-columns",
        "signal",
        "--state-column",
        "anomaly_mask",
    ]))
    .unwrap_err();

    assert!(error.contains("--state-column NAME and --state-csv PATH together"));
}

#[test]
fn image_size_can_be_given() {
    let command = parse_args(&os_args(&[
        "csv_plot_image",
        "input.csv",
        "--x-column",
        "stamp",
        "--y-columns",
        "signal,velocity",
        "--width",
        "3840",
        "--height",
        "2160",
        "--output",
        "plot.png",
    ]))
    .unwrap();

    assert_eq!(
        command,
        Command::PlotImageSized {
            input: PathBuf::from("input.csv"),
            mode: CsvPlotCommand::XY {
                x_column: String::from("stamp"),
                y_columns: names(&["signal", "velocity"]),
                state: None,
            },
            output: PathBuf::from("plot.png"),
            width: 3840,
            height: 2160,
        }
    );
}

#[test]
fn missing_height_is_the_standard_one() {
    let command = parse_args(&os_args(&[
        "csv_plot_image",
        "input.csv",
        "--x-column",
        "t",
        "--y-columns",
        "y",
        "--width",
        "800",
        "--output",
        "plot.png",
    ]))
    .unwrap();

    match command {
        Command::PlotImageSized { width, height, .. } => assert_eq!((width, height), (800, 900)),
        _ => unreachable!(),
    }
}

#[test]
fn no_arguments_and_unknown_commands_show_the_usage() {
    assert_eq!(parse_args(&Vec::new()).unwrap_err(), usage());
    assert!(usage().starts_with("usage:\n  my_dev_tools csv_anomaly_detect INPUT"));
    assert!(parse_args(&os_args(&["no_such_command"])).is_err());
}

#[test]
fn missing_arguments_are_refused() {
    assert!(parse_args(&os_args(&["csv_key_diff", "left.csv"])).is_err());
    assert!(parse_args(&os_args(&["csv_key_diff", "left.csv", "right.csv"])).is_err());
    assert!(parse_args(&os_args(&["csv_power_spectrum", "input.csv", "--x-column", "t"])).is_err());
    assert!(parse_args(&os_args(&["csv_label_split"])).is_err());
    assert!(parse_args(&os_args(&[
        "csv_pseudo_diff",
        "input.csv",
        "--time-column",
        "t",
        "--value-column",
        "x",
        "--time-scale",
        "fast",
    ]))
    .is_err());
}

#[test]
fn names_are_added_once_without_white_space() {
    let mut target = names(&["a"]);
    extend_unique_names(&mut target, " b , a,,c ,b");
    assert_eq!(target, names(&["a", "b", "c"]));
}

#[test]
fn path_arguments_need_not_be_text() {
    let mut args = os_args(&["csv_label_split", "input.csv", "--label-column", "label"]);
    args[1] = Arg {
        text: None,
        path: PathBuf::from("strange"),
        number_error: Some(String::from("not text")),
    };
    assert_eq!(
        parse_args(&args).unwrap(),
        Command::LabelSplit {
            input: PathBuf::from("strange"),
            label_column: String::from("label"),
            output_dir: None,
        }
    );
}
