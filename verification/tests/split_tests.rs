use my_dev_tools::csv_key_diff::{read_csv, CsvData};
use my_dev_tools::csv_label_split::{
    base_name_for_output, run, sanitize_label_for_path, split_csv_by_label,
};

fn texts(list: &[&str]) -> Vec<String> {
    list.iter().map(|text| String::from(*text)).collect()
}

#[test]
fn splits_csv_by_label_and_drops_label_column() {
    let csv = CsvData {
        path: String::from("input.csv"),
        headers: texts(&["label", "stamp", "signal"]),
        rows: vec![
            texts(&["beta", "2", "5"]),
            texts(&["alpha", "1", "3"]),
            texts(&["alpha", "4", "8"]),
        ],
    };

    let outputs = split_csv_by_label(&csv, "label", "input").unwrap();

    assert_eq!(outputs.len(), 2);
    let alpha = outputs[0].contents.clone().unwrap();
    let beta = outputs[1].contents.clone().unwrap();
    assert!(alpha.starts_with("stamp,signal\n"));
    assert!(alpha.contains("1,3\n4,8\n"));
    assert!(beta.contains("2,5\n"));
}

#[test]
fn uses_input_stem_and_sanitized_label_in_output_name() {
    let csv = CsvData {
        path: String::from("archive.tar.zst"),
        headers: texts(&["label", "value"]),
        rows: vec![texts(&["a/b", "1"])],
    };

    let outputs = run(&csv, "label", Some("archive.tar.zst"), Some("archive.tar")).unwrap();

    assert_eq!(outputs[0].name, "archive_001_a_b.csv");
}

#[test]
fn reads_zst_input_and_splits_labels() {
    let bytes = zstd::encode_all("label,t,v\nx,1,10\ny,2,20\n".as_bytes(), 0).unwrap();
    let csv = read_csv("labels.csv.zst", "labels.csv.zst", bytes).unwrap();

    let outputs = run(&csv, "label", Some("labels.csv.zst"), Some("labels.csv")).unwrap();

    assert_eq!(outputs.len(), 2);
    let first = outputs[0].contents.clone().unwrap();
    assert!(first.starts_with("t,v\n"));
}

#[test]
fn rejects_empty_label() {
    let csv = read_csv("labels.csv", "labels.csv", b"label,t\n,1\n".to_vec()).unwrap();

    let error = run(&csv, "label", Some("labels.csv"), Some("labels")).unwrap_err();

    assert!(error.contains("must not be empty"));
}

#[test]
fn missing_label_column_is_named() {
    let csv = read_csv("labels.csv", "labels.csv", b"t\n1\n".to_vec()).unwrap();
    assert_eq!(
        run(&csv, "label", None, None).unwrap_err(),
        "column not found: label"
    );
}

#[test]
fn rows_without_a_label_cell_are_refused() {
    let csv = CsvData {
        path: String::from("input.csv"),
        headers: texts(&["t", "label"]),
        rows: vec![texts(&["1"])],
    };
    assert_eq!(
        split_csv_by_label(&csv, "label", "input").unwrap_err(),
        "row is missing column value: label"
    );
}

#[test]
fn names_of_files_differ_though_labels_look_alike() {
    let csv = CsvData {
        path: String::from("input.csv"),
        headers: texts(&["label", "v"]),
        rows: vec![texts(&["a/b", "1"]), texts(&["a:b", "2"]), texts(&["a/b", "3"])],
    };
    let outputs = split_csv_by_label(&csv, "label", "input").unwrap();
    assert_eq!(outputs[0].name, "input_001_a_b.csv");
    assert_eq!(outputs[1].name, "input_002_a_b.csv");
    assert_eq!(outputs[0].contents, Ok(String::from("v\n1\n3\n")));
    assert_eq!(outputs[1].contents, Ok(String::from("v\n2\n")));
}

#[test]
fn labels_are_cleaned_for_paths() {
    assert_eq!(sanitize_label_for_path("a/b"), "a_b");
    assert_eq!(sanitize_label_for_path("///"), "label");
    assert_eq!(sanitize_label_for_path(""), "label");
    assert_eq!(base_name_for_output(Some("data.csv.zst"), Some("data.csv")), "data.csv");
    assert_eq!(base_name_for_output(Some("data.TAR.ZST"), Some("data.TAR")), "data");
    assert_eq!(base_name_for_output(Some("data.txt"), Some("data")), "data");
    assert_eq!(base_name_for_output(None, None), "output");
    assert_eq!(base_name_for_output(Some("data.csv"), Some("data")), "data");
}
