use my_dev_tools::cells::Number;
use my_dev_tools::csv_key_diff::read_csv;
use my_dev_tools::csv_pseudo_diff::{compute_pseudo_diff_rows, render_csv, OutputRow};

fn texts(list: &[&str]) -> Vec<String> {
    list.iter().map(|text| String::from(*text)).collect()
}

fn number(text: &str) -> Number {
    match text.parse::<f64>() {
        Err(error) => Number::Invalid(error.to_string()),
        Ok(value) if !value.is_finite() => Number::NotFinite,
        Ok(value) => {
            let bits = value.to_bits() as i64;
            Number::Finite {
                order: bits ^ (((bits >> 63) as u64) >> 1) as i64,
                shown: value.to_string(),
            }
        }
    }
}

fn compute(
    headers: &Vec<String>,
    rows: &Vec<Vec<String>>,
    time_column: &str,
    value_column: &str,
    time_scale: f64,
) -> Result<Vec<OutputRow>, String> {
    let numbers = rows
        .iter()
        .map(|row| row.iter().map(|cell| number(cell)).collect())
        .collect::<Vec<Vec<_>>>();
    let time_index = headers.iter().position(|name| name == time_column);
    let value_index = headers.iter().position(|name| name == value_column);
    let cell = |row: usize, index: Option<usize>| {
        index
            .and_then(|index| rows[row].get(index))
            .and_then(|text| text.parse::<f64>().ok())
            .unwrap_or(f64::NAN)
    };
    let changes = (0..rows.len())
        .map(|row| {
            if row == 0 {
                return None;
            }
            let delta = (cell(row, time_index) - cell(row - 1, time_index)) * time_scale;
            if !delta.is_finite() || delta == 0.0 {
                return None;
            }
            let change = (cell(row, value_index) - cell(row - 1, value_index)) / delta;
            Some(change.to_string())
        })
        .collect::<Vec<_>>();
    compute_pseudo_diff_rows(
        headers,
        rows,
        &numbers,
        &changes,
        time_column,
        value_column,
        time_scale.is_finite() && time_scale != 0.0,
    )
}

#[test]
fn computes_pseudo_diff_rows() {
    let headers = texts(&["t", "x"]);
    let rows = vec![texts(&["0.0", "1.0"]), texts(&["0.5", "2.0"]), texts(&["1.0", "5.0"])];

    let output = compute(&headers, &rows, "t", "x", 2.0).unwrap();

    assert_eq!(
        output,
        vec![
            OutputRow {
                time: String::from("0.0"),
                value: String::from("1.0"),
                pseudo_diff: String::new(),
            },
            OutputRow {
                time: String::from("0.5"),
                value: String::from("2.0"),
                pseudo_diff: String::from("1"),
            },
            OutputRow {
                time: String::from("1.0"),
                value: String::from("5.0"),
                pseudo_diff: String::from("3"),
            },
        ]
    );
}

#[test]
fn renders_csv_output() {
    let rendered = render_csv(
        &vec![OutputRow {
            time: String::from("0.0"),
            value: String::from("1.0"),
            pseudo_diff: String::new(),
        }],
        "t",
        "x",
    )
    .unwrap();

    assert_eq!(rendered, "t,x,pseudo_diff\n0.0,1.0,\n");
}

#[test]
fn rejects_non_finite_time_scale() {
    let headers = texts(&["t", "x"]);
    let rows = vec![texts(&["0.0", "1.0"])];

    assert!(compute(&headers, &rows, "t", "x", f64::NAN).is_err());
    assert_eq!(
        compute(&headers, &rows, "t", "x", 0.0).unwrap_err(),
        "time_scale must be finite and non-zero"
    );
}

#[test]
fn rejects_non_finite_cell_value() {
    let headers = texts(&["t", "x"]);
    let rows = vec![texts(&["0.0", "1.0"]), texts(&["1.0", "NaN"])];

    assert!(compute(&headers, &rows, "t", "x", 1.0).is_err());
    assert_eq!(
        compute(&headers, &rows, "t", "x", 1.0).unwrap_err(),
        "row 2 column x must be finite, got NaN"
    );
}

#[test]
fn reads_zst_csv_input() {
    let bytes = zstd::encode_all("t,x\n0.0,1.0\n1.0,3.0\n".as_bytes(), 0).unwrap();

    let csv = read_csv("pseudo.csv.zst", "pseudo.csv.zst", bytes).unwrap();
    let output = compute(&csv.headers, &csv.rows, "t", "x", 1.0).unwrap();

    assert_eq!(output[1].pseudo_diff, String::from("2"));
}

#[test]
fn rows_at_the_same_time_are_refused() {
    let headers = texts(&["t", "x"]);
    let rows = vec![texts(&["1.0", "1.0"]), texts(&["1.00", "3.0"])];
    assert_eq!(
        compute(&headers, &rows, "t", "x", 1.0).unwrap_err(),
        "time delta became non-finite or zero at row 2: 1.00"
    );
}

#[test]
fn missing_cells_come_before_bad_ones() {
    let headers = texts(&["t", "x"]);
    assert_eq!(
        compute(&headers, &vec![texts(&["abc"])], "t", "x", 1.0).unwrap_err(),
        "row is missing column value: x"
    );
    assert_eq!(
        compute(&headers, &vec![texts(&["abc", "1"])], "t", "x", 1.0).unwrap_err(),
        "failed to parse row 1 column t: invalid float literal"
    );
    assert_eq!(
        compute(&headers, &Vec::new(), "t", "v", 1.0).unwrap_err(),
        "column not found: v"
    );
    assert_eq!(compute(&headers, &Vec::new(), "t", "x", 1.0), Ok(Vec::new()));
}
