use my_dev_tools::cells::Number;
use my_dev_tools::csv_anomaly_detect::{
    detect_anomalies, is_between_rows, is_local_peak, median_pair, read_anomaly_columns,
    render_csv, score_neighbors, Judged, Residual, Side, ANOMALY_NEGATIVE_SPIKE,
    ANOMALY_NEGATIVE_STEP, ANOMALY_POSITIVE_SPIKE, ANOMALY_POSITIVE_STEP,
};
use my_dev_tools::csv_key_diff::read_csv;

fn texts(list: &[&str]) -> Vec<String> {
    list.iter().map(|text| String::from(*text)).collect()
}

fn order(value: f64) -> i64 {
    let bits = value.to_bits() as i64;
    bits ^ (((bits >> 63) as u64) >> 1) as i64
}

fn value(order: i64) -> f64 {
    f64::from_bits((order ^ (((order >> 63) as u64) >> 1) as i64) as u64)
}

fn number(text: &str) -> Number {
    match text.parse::<f64>() {
        Err(error) => Number::Invalid(error.to_string()),
        Ok(value) if !value.is_finite() => Number::NotFinite,
        Ok(value) => Number::Finite { order: order(value), shown: value.to_string() },
    }
}

fn numbers(rows: &[Vec<String>]) -> Vec<Vec<Number>> {
    rows.iter()
        .map(|row| row.iter().map(|cell| number(cell)).collect())
        .collect()
}

fn residuals(xs: &[f64], ys: &[f64]) -> Vec<Option<f64>> {
    (0..xs.len())
        .map(|i| {
            if i == 0 || i + 1 >= xs.len() {
                return None;
            }
            let dx = xs[i + 1] - xs[i - 1];
            if !dx.is_finite() || dx == 0.0 {
                return None;
            }
            let expected = ys[i - 1] + (xs[i] - xs[i - 1]) / dx * (ys[i + 1] - ys[i - 1]);
            Some(ys[i] - expected)
        })
        .collect()
}

fn is_jump(ys: &[f64], index: usize) -> bool {
    let change = |place: usize| (ys[place] - ys[place - 1]).abs();
    index >= 2
        && index + 1 < ys.len()
        && change(index) >= 2.0 * change(index - 1).max(change(index + 1))
}

fn judge(residuals: &[Option<f64>], ys: &[f64]) -> Vec<Judged> {
    let present = residuals.iter().map(|residual| residual.is_some()).collect::<Vec<_>>();
    residuals
        .iter()
        .enumerate()
        .map(|(index, residual)| {
            let Some(residual) = *residual else {
                return Judged { residual: None, is_large: false, is_jump: false };
            };
            let near = score_neighbors(&present, index)
                .into_iter()
                .map(|place| order(residuals[place].unwrap().abs()))
                .collect::<Vec<_>>();
            let is_large = if near.is_empty() {
                false
            } else {
                let (low, high) = median_pair(&near);
                let baseline = (value(low) + value(high)) / 2.0;
                let floor = baseline.max(residual.abs()).max(1.0) * 1e-9;
                let score = if residual.abs() <= floor {
                    0.0
                } else if baseline == 0.0 {
                    f64::INFINITY
                } else {
                    residual.abs() / baseline
                };
                !(score < 2.0)
            };
            let side = if residual > 0.0 {
                Side::Above
            } else if residual < 0.0 {
                Side::Below
            } else {
                Side::On
            };
            let size = if residual.is_nan() { None } else { Some(order(residual.abs())) };
            let residual = Some(Residual { size, side });
            Judged { residual, is_large, is_jump: is_jump(ys, index) }
        })
        .collect()
}

fn detect(
    headers: &Vec<String>,
    rows: &Vec<Vec<String>>,
    x_column: &str,
    y_columns: &Vec<String>,
) -> Result<Vec<Vec<u32>>, String> {
    let columns = read_anomaly_columns(headers, rows, &numbers(rows), x_column, y_columns)?;
    let xs = columns.xs.iter().map(|x| value(*x)).collect::<Vec<_>>();
    let judged = columns
        .ys
        .iter()
        .map(|ys| {
            let ys = ys.iter().map(|y| value(*y)).collect::<Vec<_>>();
            judge(&residuals(&xs, &ys), &ys)
        })
        .collect::<Vec<_>>();
    Ok(detect_anomalies(&judged, rows.len()))
}

#[test]
fn labels_positive_and_negative_spikes() {
    let headers = texts(&["t", "y_up", "y_down"]);
    let rows = vec![
        texts(&["0", "0", "0"]),
        texts(&["1", "1", "1"]),
        texts(&["2", "20", "-20"]),
        texts(&["3", "3", "3"]),
        texts(&["4", "4", "4"]),
        texts(&["5", "5", "5"]),
        texts(&["6", "6", "6"]),
    ];

    let masks = detect(&headers, &rows, "t", &texts(&["y_up", "y_down"])).unwrap();

    assert_eq!(masks[2][0], ANOMALY_POSITIVE_SPIKE);
    assert_eq!(masks[2][1], ANOMALY_NEGATIVE_SPIKE);
    assert_eq!(masks[1][0], 0);
    assert_eq!(masks[3][1], 0);
}

#[test]
fn rejects_unsorted_x_values() {
    let headers = texts(&["t", "y"]);
    let rows = vec![texts(&["0", "0"]), texts(&["2", "2"]), texts(&["1", "1"])];

    let error = detect(&headers, &rows, "t", &texts(&["y"])).unwrap_err();

    assert!(error.contains("strictly increasing"));
    assert_eq!(
        error,
        "t must be strictly increasing for anomaly detection: row 3 has 1 after 2"
    );
}

#[test]
fn rejects_conflicting_output_header() {
    let headers = texts(&["t", "y", "y_anomaly_mask"]);
    let rows = vec![
        texts(&["0", "0", "0"]),
        texts(&["1", "1", "0"]),
        texts(&["2", "2", "0"]),
    ];

    let error = detect(&headers, &rows, "t", &texts(&["y"])).unwrap_err();

    assert!(error.contains("output header already exists"));
}

#[test]
fn ignores_numerical_noise_on_flat_residual_baseline() {
    let headers = texts(&["t", "y"]);
    let rows = vec![
        texts(&["0", "0.0"]),
        texts(&["1", "1.0"]),
        texts(&["2", "2.000000000001"]),
        texts(&["3", "3.0"]),
        texts(&["4", "4.0"]),
    ];

    let masks = detect(&headers, &rows, "t", &texts(&["y"])).unwrap();

    assert!(masks.iter().all(|row| row == &[0]));
}

#[test]
fn renders_csv_output_with_anomaly_columns() {
    let output = render_csv(
        &texts(&["time", "signal"]),
        &vec![texts(&["1.0", "10.0"])],
        &texts(&["signal"]),
        &vec![vec![ANOMALY_POSITIVE_SPIKE]],
    )
    .unwrap();

    assert_eq!(output, "time,signal,signal_anomaly_mask\n1.0,10.0,1\n");
}

#[test]
fn reads_tar_zst_csv_input() {
    let contents = "t,y\n0,0\n1,1\n2,20\n3,3\n4,4\n";
    let mut builder = tar::Builder::new(Vec::new());
    let mut header = tar::Header::new_gnu();
    header.set_entry_type(tar::EntryType::Regular);
    header.set_mode(0o644);
    header.set_size(contents.len() as u64);
    header.set_cksum();
    builder.append_data(&mut header, "input.csv", contents.as_bytes()).unwrap();
    let bytes = zstd::encode_all(builder.into_inner().unwrap().as_slice(), 0).unwrap();

    let csv = read_csv("anomaly.tar.zst", "anomaly.tar.zst", bytes).unwrap();
    let masks = detect(&csv.headers, &csv.rows, "t", &texts(&["y"])).unwrap();

    assert_eq!(masks[2][0], ANOMALY_POSITIVE_SPIKE);
}

#[test]
fn missing_columns_and_bad_cells_are_named() {
    let headers = texts(&["t", "y"]);
    let rows = vec![texts(&["0", "0"]), texts(&["1", "abc"])];
    assert_eq!(
        detect(&headers, &rows, "time", &texts(&["y"])).unwrap_err(),
        "column not found: time"
    );
    assert_eq!(
        detect(&headers, &rows, "t", &texts(&["z"])).unwrap_err(),
        "column not found: z"
    );
    assert_eq!(
        detect(&headers, &rows, "t", &texts(&["y"])).unwrap_err(),
        "failed to parse row 2 column y: invalid float literal"
    );
    let short = vec![texts(&["0", "0"]), texts(&["1"])];
    assert_eq!(
        detect(&headers, &short, "t", &texts(&["y"])).unwrap_err(),
        "row is missing column value: y"
    );
    let endless = vec![texts(&["0", "inf"])];
    assert_eq!(
        detect(&headers, &endless, "t", &texts(&["y"])).unwrap_err(),
        "row 1 column y must be finite, got inf"
    );
}

#[test]
fn both_zeros_are_the_same_x_value() {
    let headers = texts(&["t", "y"]);
    let rows = vec![texts(&["-0.0", "0"]), texts(&["0.0", "1"])];
    assert!(detect(&headers, &rows, "t", &texts(&["y"])).is_err());
}

#[test]
fn neighbors_of_a_peak_do_not_stand_out() {
    let sized = |size: i64| Judged {
        residual: Some(Residual { size: Some(size), side: Side::Above }),
        is_large: true,
        is_jump: false,
    };
    let values = vec![sized(1), sized(5), sized(4), sized(4), sized(9)];
    assert!(is_local_peak(&values, 1));
    assert!(!is_local_peak(&values, 0));
    assert!(!is_local_peak(&values, 2));
    assert!(!is_local_peak(&values, 3));
    assert!(is_local_peak(&values, 4));
    let masks = detect_anomalies(&vec![values], 5);
    assert_eq!(masks, vec![vec![0], vec![1], vec![0], vec![0], vec![0]]);
}

fn column_masks(values: &[&str]) -> Vec<u32> {
    let headers = texts(&["t", "y"]);
    let rows = values
        .iter()
        .enumerate()
        .map(|(t, y)| vec![t.to_string(), y.to_string()])
        .collect::<Vec<_>>();
    let masks = detect(&headers, &rows, "t", &texts(&["y"])).unwrap();
    masks.into_iter().map(|row| row[0]).collect()
}

#[test]
fn steps_are_labeled_by_their_way() {
    assert_eq!(ANOMALY_POSITIVE_STEP, 4);
    assert_eq!(ANOMALY_NEGATIVE_STEP, 8);
    assert_eq!(column_masks(&["0", "0", "0", "10", "10", "10"]), vec![0, 0, 0, 4, 0, 0]);
    assert_eq!(column_masks(&["0", "0", "0", "-10", "-10", "-10"]), vec![0, 0, 0, 8, 0, 0]);
    assert_eq!(column_masks(&["0", "1", "2", "3", "4", "5"]), vec![0, 0, 0, 0, 0, 0]);
    assert_eq!(column_masks(&["0", "0", "0", "9", "0", "0", "0"]), vec![0, 0, 0, 1, 0, 0, 0]);
}

#[test]
fn step_with_noise_is_labeled_once() {
    let up = column_masks(&["0", "0.1", "0", "10", "10.1", "10"]);
    assert_eq!(up, vec![0, 0, 6, 0, 0, 0]);
    let down = column_masks(&["0", "-0.1", "0", "-10", "-10.1", "-10"]);
    assert_eq!(down, vec![0, 0, 9, 0, 0, 0]);
}

#[test]
fn rows_between_rows_have_a_trend() {
    assert!(!is_between_rows(0, 3));
    assert!(is_between_rows(1, 3));
    assert!(!is_between_rows(2, 3));
    assert!(!is_between_rows(0, 0));
    assert!(!is_between_rows(5, 3));
}

#[test]
fn scores_are_held_against_near_neighbors() {
    let present = vec![false, true, true, true, true, true, false];
    assert_eq!(score_neighbors(&present, 3), vec![1, 2, 4, 5]);
    assert_eq!(score_neighbors(&present, 1), vec![2, 3]);
    assert_eq!(score_neighbors(&present, 6), vec![4, 5]);
    assert_eq!(median_pair(&vec![5, 1, 3]), (3, 3));
    assert_eq!(median_pair(&vec![5, 1, 3, 4]), (3, 4));
}
