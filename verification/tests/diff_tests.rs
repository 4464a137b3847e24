use my_dev_tools::csv_archive::{read_csv_bytes, wrapping, Wrapping};
use my_dev_tools::csv_key_diff::{
    diff_csv, read_csv, render_cell_value, render_diff, CsvData, KeyValue, RowChangeKind,
};
use my_dev_tools::csv_key_diff_extract::{
    extract_diff_rows, extract_rows, parse_diff_selection, parse_key_columns_line,
    parse_selector_line, RowSelector,
};
use my_dev_tools::csv_text::write_csv;

fn csv(path: &str, headers: &[&str], rows: &[&[&str]]) -> CsvData {
    CsvData {
        path: String::from(path),
        headers: headers.iter().map(|s| (*s).to_string()).collect(),
        rows: rows
            .iter()
            .map(|row| row.iter().map(|s| (*s).to_string()).collect())
            .collect(),
    }
}

fn zst(contents: &str) -> Vec<u8> {
    zstd::encode_all(contents.as_bytes(), 0).unwrap()
}

fn tar_of(members: &[(&str, &str)]) -> Vec<u8> {
    let mut builder = tar::Builder::new(Vec::new());
    for (name, contents) in members {
        let mut header = tar::Header::new_gnu();
        header.set_entry_type(tar::EntryType::Regular);
        header.set_mode(0o644);
        header.set_size(contents.len() as u64);
        header.set_cksum();
        builder.append_data(&mut header, name, contents.as_bytes()).unwrap();
    }
    builder.into_inner().unwrap()
}

fn tar_zst(members: &[(&str, &str)]) -> Vec<u8> {
    zstd::encode_all(tar_of(members).as_slice(), 0).unwrap()
}

#[test]
fn reports_modified_rows_by_key() {
    let left = csv("left.csv", &["id", "name", "value"], &[&["1", "foo", "10"]]);
    let right = csv("right.csv", &["id", "name", "value"], &[&["1", "foo", "20"]]);

    let report = diff_csv(&left, &right, &vec![String::from("id")]);

    assert!(report.has_differences());
    assert_eq!(report.row_changes.len(), 1);
    assert_eq!(report.row_changes[0].kind, RowChangeKind::Modified);
    assert_eq!(report.row_changes[0].columns.len(), 1);
    assert_eq!(report.row_changes[0].columns[0].column, "value");
}

#[test]
fn reports_missing_header_as_difference() {
    let left = csv("left.csv", &["id", "name"], &[&["1", "foo"]]);
    let right = csv("right.csv", &["id", "value"], &[&["1", "10"]]);

    let report = diff_csv(&left, &right, &vec![String::from("id")]);

    assert_eq!(report.header_diff.only_left, vec![String::from("name")]);
    assert_eq!(report.header_diff.only_right, vec![String::from("value")]);
    assert_eq!(report.row_changes.len(), 1);
}

#[test]
fn reports_missing_key_column() {
    let left = csv("left.csv", &["id", "name"], &[&["1", "foo"]]);
    let right = csv("right.csv", &["name"], &[&["foo"]]);

    let report = diff_csv(&left, &right, &vec![String::from("id")]);

    assert_eq!(report.missing_key_columns_right, vec![String::from("id")]);
    assert!(report.row_changes.is_empty());
}

#[test]
fn matches_rows_by_composite_key() {
    let left = csv(
        "left.csv",
        &["id", "sub_id", "value"],
        &[&["1", "a", "10"], &["1", "b", "20"]],
    );
    let right = csv(
        "right.csv",
        &["id", "sub_id", "value"],
        &[&["1", "b", "25"], &["1", "a", "10"]],
    );

    let report = diff_csv(&left, &right, &vec![String::from("id"), String::from("sub_id")]);

    assert_eq!(report.row_changes.len(), 1);
    assert_eq!(report.row_changes[0].kind, RowChangeKind::Modified);
    assert_eq!(
        report.row_changes[0].key,
        KeyValue(vec![
            (String::from("id"), String::from("1")),
            (String::from("sub_id"), String::from("b")),
        ])
    );
    assert_eq!(report.row_changes[0].columns[0].column, "value");
    assert_eq!(report.row_changes[0].columns[0].left, Some(String::from("20")));
    assert_eq!(report.row_changes[0].columns[0].right, Some(String::from("25")));
}

#[test]
fn reads_zst_csv() {
    let csv = read_csv("sample.csv.zst", "sample.csv.zst", zst("id,value\n1,10\n")).unwrap();

    assert_eq!(csv.headers, vec![String::from("id"), String::from("value")]);
    assert_eq!(csv.rows, vec![vec![String::from("1"), String::from("10")]]);
}

#[test]
fn reads_tar_zst_csv() {
    let bytes = tar_zst(&[("nested/data.csv", "id,value\n1,10\n")]);

    let csv = read_csv("sample.tar.zst", "sample.tar.zst", bytes).unwrap();

    assert_eq!(csv.headers, vec![String::from("id"), String::from("value")]);
    assert_eq!(csv.rows, vec![vec![String::from("1"), String::from("10")]]);
}

#[test]
fn rejects_tar_zst_with_multiple_csv_files() {
    let bytes = tar_zst(&[("a.csv", "id\n1\n"), ("b.csv", "id\n2\n")]);

    let error = read_csv("multiple.tar.zst", "multiple.tar.zst", bytes).unwrap_err();

    assert!(error.contains("multiple csv files"));
}

#[test]
fn parses_composite_key_selector() {
    let selector = parse_selector_line("@@ key [id=\"1\", sub_id=\"b\"] occurrence 2 modified @@")
        .unwrap()
        .unwrap();

    assert_eq!(
        selector,
        RowSelector {
            key: KeyValue(vec![
                (String::from("id"), String::from("1")),
                (String::from("sub_id"), String::from("b")),
            ]),
            occurrence: 1,
        }
    );
}

#[test]
fn extracts_differing_rows_from_both_sides() {
    let left = csv(
        "left.csv",
        &["id", "sub_id", "value"],
        &[&["1", "a", "10"], &["1", "b", "20"], &["2", "a", "30"]],
    );
    let right = csv(
        "right.csv",
        &["id", "sub_id", "value"],
        &[&["1", "a", "10"], &["1", "b", "25"], &["3", "a", "40"]],
    );

    let report = diff_csv(&left, &right, &vec![String::from("id"), String::from("sub_id")]);
    let selection = parse_diff_selection(&render_diff(&report)).unwrap();

    let left_rows = extract_rows(&left, &selection);
    let right_rows = extract_rows(&right, &selection);

    assert_eq!(
        left_rows,
        vec![
            vec![String::from("1"), String::from("b"), String::from("20")],
            vec![String::from("2"), String::from("a"), String::from("30")],
        ]
    );
    assert_eq!(
        right_rows,
        vec![
            vec![String::from("1"), String::from("b"), String::from("25")],
            vec![String::from("3"), String::from("a"), String::from("40")],
        ]
    );
}

#[test]
fn parses_key_columns_line() {
    assert_eq!(
        parse_key_columns_line("keys: id, sub_id"),
        Some(vec![String::from("id"), String::from("sub_id")])
    );
}

#[test]
fn rejects_diff_without_key_columns() {
    let error = parse_diff_selection("@@ header differences @@\n").unwrap_err();

    assert!(error.contains("does not contain a keys line"));
}

#[test]
fn rejects_selector_with_different_key_columns() {
    let error = parse_diff_selection("keys: id\n@@ key [other=\"1\"] occurrence 1 modified @@\n")
        .unwrap_err();

    assert!(error.contains("does not match the keys line"));
}

#[test]
fn extracts_rows_from_zst_csv_inputs() {
    let left = read_csv("left.csv.zst", "left.csv.zst", zst("id,value\n1,10\n2,20\n")).unwrap();
    let right = read_csv("right.csv.zst", "right.csv.zst", zst("id,value\n1,15\n2,20\n")).unwrap();
    let diff = "--- left\n+++ right\nkeys: id\n@@ key [id=\"1\"] occurrence 1 modified @@\n- value=\"10\"\n+ value=\"15\"\n";

    let rows = extract_diff_rows(&left, &right, diff).unwrap();

    assert_eq!(rows.left, "id,value\n1,10\n");
    assert_eq!(rows.right, "id,value\n1,15\n");
}

#[test]
fn files_are_unwrapped_by_their_names() {
    assert_eq!(wrapping("data.CSV"), Wrapping::Plain);
    assert_eq!(wrapping("data.csv.ZST"), Wrapping::Zst);
    assert_eq!(wrapping("data.tar"), Wrapping::Tar);
    assert_eq!(wrapping("data.tar.zst"), Wrapping::TarZst);
    assert_eq!(wrapping("data.tzst"), Wrapping::TarZst);
    assert_eq!(
        read_csv_bytes("a.csv", "a.csv", b"id\n1\n".to_vec()),
        Ok(b"id\n1\n".to_vec())
    );
    assert_eq!(
        read_csv_bytes("a.csv.zst", "a.csv.zst", zst("id\n1\n")),
        Ok(b"id\n1\n".to_vec())
    );
    let members = [("notes.txt", "nothing"), ("data.csv", "id\n1\n")];
    assert_eq!(
        read_csv_bytes("a.tar", "a.tar", tar_of(&members)),
        Ok(b"id\n1\n".to_vec())
    );
    assert_eq!(
        read_csv_bytes("a.tar.zst", "a.tar.zst", tar_zst(&members)),
        Ok(b"id\n1\n".to_vec())
    );
}

#[test]
fn archives_without_a_table_are_refused() {
    let bytes = tar_of(&[("notes.txt", "nothing")]);
    assert!(read_csv_bytes("a.tar", "a.tar", bytes).is_err());
    assert!(read_csv_bytes("a.csv.zst", "a.csv.zst", b"no frame".to_vec()).is_err());
    assert!(read_csv_bytes("a.tar.zst", "a.tar.zst", b"no frame".to_vec()).is_err());
}

#[test]
fn uneven_tables_are_refused() {
    let error = read_csv("a.csv", "a.csv", b"a,b\n1\n".to_vec()).unwrap_err();
    assert!(error.contains("found record with 1 fields"));
}

#[test]
fn quoted_fields_are_read_as_they_stand() {
    let csv = read_csv("a.csv", "a.csv", b"a,b\n\"1,2\",\"say \"\"hi\"\"\"\n".to_vec()).unwrap();
    assert_eq!(csv.rows, vec![vec![String::from("1,2"), String::from("say \"hi\"")]]);
}

#[test]
fn written_fields_are_quoted_where_need_be() {
    let text = write_csv(
        &vec![String::from("a"), String::from("b")],
        &vec![vec![String::from("1,2"), String::from("say \"hi\"")]],
    )
    .unwrap();
    assert_eq!(text, "a,b\n\"1,2\",\"say \"\"hi\"\"\"\n");
    let read = read_csv("a.csv", "a.csv", text.into_bytes()).unwrap();
    assert_eq!(read.rows[0][0], "1,2");
}

#[test]
fn uneven_rows_are_not_written() {
    let error = write_csv(
        &vec![String::from("a"), String::from("b")],
        &vec![vec![String::from("1")]],
    )
    .unwrap_err();
    assert_eq!(
        error,
        "CSV error: found record with 1 fields, but the previous record has 2 fields"
    );
}

#[test]
fn same_tables_do_not_differ() {
    let left = csv("left.csv", &["id", "value"], &[&["1", "10"], &["1", "11"]]);
    let report = diff_csv(&left, &left, &vec![String::from("id")]);
    assert!(!report.has_differences());
    assert_eq!(render_diff(&report), "--- left.csv\n+++ left.csv\nkeys: id\nno differences");
}

#[test]
fn difference_is_rendered_line_by_line() {
    let left = csv("left.csv", &["id", "value"], &[&["1", "10"], &["2", "20"]]);
    let right = csv("right.csv", &["id", "value"], &[&["1", "15"], &["3", "30"]]);
    let text = render_diff(&diff_csv(&left, &right, &vec![String::from("id")]));
    assert!(text.starts_with("--- left.csv\n+++ right.csv\nkeys: id\n"));
    assert!(text.contains("@@ key [id=\"1\"] occurrence 1 modified @@\n"));
    assert!(text.contains("- value=\"10\"\n+ value=\"15\"\n"));
}

#[test]
fn rendered_differences_are_read_back() {
    let left = csv("left.csv", &["id", "v"], &[&["a\"b\\", "1"], &["c\nd", "2"]]);
    let right = csv("right.csv", &["id", "v"], &[&["a\"b\\", "2"], &["c\nd", "3"]]);
    let report = diff_csv(&left, &right, &vec![String::from("id")]);
    let selection = parse_diff_selection(&render_diff(&report)).unwrap();
    assert_eq!(selection.rows.len(), 2);
    assert_eq!(selection.rows[0].key, report.row_changes[0].key);
    assert_eq!(selection.rows[1].key, report.row_changes[1].key);
    assert_eq!(extract_rows(&left, &selection), left.rows);
    assert_eq!(extract_rows(&right, &selection), right.rows);
}

#[test]
fn names_over_several_lines_do_not_hide_rows() {
    let left = csv("left\nkeys: x", &["id", "v\r\nw"], &[&["1", "1"], &["2", "2"]]);
    let right = csv("right\n.csv", &["id", "v\r\nw"], &[&["1", "2"], &["2", "2"]]);
    let report = diff_csv(&left, &right, &vec![String::from("id")]);
    let selection = parse_diff_selection(&render_diff(&report)).unwrap();
    assert_eq!(selection.key_columns, vec![String::from("id")]);
    assert_eq!(selection.rows.len(), 1);
    assert_eq!(selection.rows[0].key, report.row_changes[0].key);
    assert_eq!(extract_rows(&right, &selection), vec![right.rows[0].clone()]);
}

#[test]
fn key_columns_of_equal_tables_are_read_back() {
    let left = csv("left.csv", &[" a=b "], &[&["1"]]);
    let report = diff_csv(&left, &left, &vec![String::from(" a=b ")]);
    let selection = parse_diff_selection(&render_diff(&report)).unwrap();
    assert_eq!(selection.key_columns, vec![String::from(" a=b ")]);
    assert_eq!(selection.rows.len(), 0);
}

#[test]
fn missing_cells_are_rendered_as_such() {
    assert_eq!(render_cell_value(&Some(String::from("a\"b"))), "\"a\\\"b\"");
    assert_ne!(render_cell_value(&None), render_cell_value(&Some(String::new())));
}

#[test]
fn values_beyond_ascii_are_shown_escaped_or_not_as_by_debug() {
    let value = String::from("\u{65e5}\u{672c}\u{200b}");
    assert_eq!(render_cell_value(&Some(value.clone())), format!("{value:?}"));
}
