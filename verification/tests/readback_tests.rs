use my_dev_tools::csv_key_diff::{diff_csv, read_csv, render_diff, CsvData, KeyValue};
use my_dev_tools::csv_key_diff_extract::{extract_rows, parse_diff_selection, parse_selector_line};

fn csv(path: &str, headers: &[&str], rows: &[&[&str]]) -> CsvData {
    CsvData {
        path: String::from(path),
        headers: headers.iter().map(|s| (*s).to_string()).collect(),
        rows: rows
            .iter()
            .map(|row| row.iter().map(|s| (*s).to_string()).collect())
            .collect(),
    }
}

fn key_of(line: &str) -> KeyValue {
    parse_selector_line(line).unwrap().unwrap().key
}

fn id(value: &str) -> KeyValue {
    KeyValue(vec![(String::from("id"), String::from(value))])
}

#[test]
fn rows_with_any_characters_in_their_key_are_read_back() {
    let keys = [
        "あ",
        "日本語",
        "é",
        "e\u{301}",
        "\u{301}",
        "\u{0}",
        "\u{7f}",
        "\u{200b}",
        "\u{1f600}",
        "'",
        "\"",
        "\\",
        "\\u{41}",
        "a\tb\r\n",
        "x] occurrence 2 y",
        "a=\"b\", c=\"d",
        "",
    ];
    for key in keys {
        let left = csv("left.csv", &["id", "value"], &[&[key, "1"], &["other", "1"]]);
        let right = csv("right.csv", &["id", "value"], &[&[key, "2"], &["other", "1"]]);
        let report = diff_csv(&left, &right, &vec![String::from("id")]);
        let selection = parse_diff_selection(&render_diff(&report)).unwrap();
        assert_eq!(selection.rows.len(), 1);
        assert_eq!(selection.rows[0].key, report.row_changes[0].key);
        assert_eq!(extract_rows(&left, &selection), vec![left.rows[0].clone()]);
        assert_eq!(extract_rows(&right, &selection), vec![right.rows[0].clone()]);
    }
}

#[test]
fn key_columns_with_separators_are_read_back() {
    for name in ["a=b", "a, b", "=", "a] b", "a\"b", "日, 本="] {
        let left = csv("left.csv", &["id", name], &[&["1", "x"]]);
        let right = csv("right.csv", &["id", name], &[&["1", "y"]]);
        let keys = vec![String::from(name), String::from("id")];
        let report = diff_csv(&left, &right, &keys);
        let selection = parse_diff_selection(&render_diff(&report)).unwrap();
        assert_eq!(selection.key_columns, keys);
        assert_eq!(selection.rows.len(), 2);
        assert_eq!(extract_rows(&left, &selection), left.rows);
        assert_eq!(extract_rows(&right, &selection), right.rows);
    }
}

#[test]
fn escapes_in_key_values_are_decoded() {
    assert_eq!(
        key_of(r#"@@ key [id="\\\"\'\n\r\t\0\u{3042}\x"] occurrence 1 modified @@"#),
        id("\\\"'\n\r\t\0あx")
    );
    assert_eq!(
        key_of(r#"@@ key [id="\u{zz}\u{}\u{d800}\u{110000}\u41"] occurrence 1 modified @@"#),
        id("u{zz}u{}u{d800}u{110000}u41")
    );
    assert_eq!(key_of("@@ key [] occurrence 1 modified @@"), KeyValue(vec![]));
}

#[test]
fn unreadable_keys_are_refused() {
    let error = |line: &str| parse_selector_line(line).unwrap_err();
    assert_eq!(
        error(r#"@@ key [id="1" modified @@"#),
        r#"invalid diff row header: @@ key [id="1" modified @@"#
    );
    assert_eq!(
        error(r#"@@ key [id="1"] occurrence 1"#),
        r#"invalid occurrence section: @@ key [id="1"] occurrence 1"#
    );
    assert_eq!(
        error(r#"@@ key [id="1"] occurrence 0 modified @@"#),
        r#"occurrence must be 1 or greater: @@ key [id="1"] occurrence 0 modified @@"#
    );
    assert_eq!(error("@@ key [id] occurrence 1 modified @@"), "invalid key entry: id");
    assert_eq!(error("@@ key [id=1] occurrence 1 modified @@"), "expected quoted value: id=1");
    assert_eq!(
        error(r#"@@ key [id="1] occurrence 1 modified @@"#),
        r#"unterminated quoted value: id="1"#
    );
    assert_eq!(
        error(r#"@@ key [id="\] occurrence 1 modified @@"#),
        r#"unterminated escape sequence: id="\"#
    );
    assert_eq!(
        error(r#"@@ key [a="1";b="2"] occurrence 1 modified @@"#),
        r#"invalid key separator: a="1";b="2""#
    );
}

#[test]
fn exchanged_tables_exchange_the_sides() {
    let left = csv("left.csv", &["id", "a", "l"], &[&["1", "x", "p"], &["2", "y", "q"]]);
    let right = csv("right.csv", &["id", "a", "r"], &[&["3", "z", "s"], &["1", "w", "t"]]);
    let keys = vec![String::from("id")];
    let report = diff_csv(&left, &right, &keys);
    let other = diff_csv(&right, &left, &keys);
    assert_eq!(report.header_diff.only_left, other.header_diff.only_right);
    assert_eq!(report.header_diff.only_right, other.header_diff.only_left);
    assert_eq!(report.row_changes.len(), 3);
    assert_eq!(other.row_changes.len(), 3);
    for change in &report.row_changes {
        let same = other.row_changes.iter().find(|other| other.key == change.key).unwrap();
        assert_eq!(same.columns.len(), change.columns.len());
        for column in &change.columns {
            assert!(same.columns.iter().any(|other| other.column == column.column
                && other.left == column.right
                && other.right == column.left));
        }
    }
}

#[test]
fn tables_that_agree_key_by_key_do_not_differ() {
    let left = csv("left.csv", &["id", "a"], &[&["1", "x"], &["2", "y"], &["1", "z"]]);
    let right = csv("right.csv", &["a", "id"], &[&["y", "2"], &["x", "1"], &["z", "1"]]);
    let moved = csv("right.csv", &["a", "id"], &[&["y", "2"], &["z", "1"], &["x", "1"]]);
    let keys = vec![String::from("id")];
    assert!(!diff_csv(&left, &right, &keys).has_differences());
    assert!(render_diff(&diff_csv(&left, &right, &keys)).ends_with("\nno differences"));
    assert!(diff_csv(&left, &moved, &keys).has_differences());
    assert!(!render_diff(&diff_csv(&left, &moved, &keys)).ends_with("no differences"));
}

#[test]
fn wrapping_does_not_change_the_table() {
    let text = "id,v\n1,a\n2,b\n";
    let mut builder = tar::Builder::new(Vec::new());
    for (name, contents) in [("notes.txt", "no table"), ("T.CSV", text)] {
        let mut header = tar::Header::new_gnu();
        header.set_entry_type(tar::EntryType::Regular);
        header.set_mode(0o644);
        header.set_size(contents.len() as u64);
        header.set_cksum();
        builder.append_data(&mut header, name, contents.as_bytes()).unwrap();
    }
    let archive = builder.into_inner().unwrap();
    let plain = read_csv("x.csv", "x.csv", text.as_bytes().to_vec()).unwrap();
    let packed = zstd::encode_all(text.as_bytes(), 0).unwrap();
    let packed_archive = zstd::encode_all(archive.as_slice(), 0).unwrap();
    let others = [
        read_csv("x.csv.zst", "x.csv.zst", packed).unwrap(),
        read_csv("x.tar", "x.tar", archive).unwrap(),
        read_csv("x.tar.zst", "x.tar.zst", packed_archive).unwrap(),
    ];
    for other in others {
        assert_eq!(other.headers, plain.headers);
        assert_eq!(other.rows, plain.rows);
    }
}
