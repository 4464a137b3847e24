//! What holds of the text of a report on two tables.
use vstd::prelude::*;

use crate::csv_key_diff::RowChangeKind;

verus! {

use crate::csv_key_diff::{
    cell_text, change_at, change_head, change_lines, changes_in, changes_lines, changes_of_key, changes_of_keys, column_lines,
    columns_lines, differs, distinct, head_lines, header_lines, key_order, keys_of, key_text, missing_lines,
    name_lines, names_without, occurrences, report_lines, report_of, snapshot_of, value_in,
    ColumnModel, CsvModel, ReportModel, RowModel,
};
use crate::key_laws::{has_occurrence, is_occurrence, occurrence_is_in_its_group, other_names_go};
use crate::list_laws::{are_all_wanted, distinct_keeps_the_first};
use crate::report_laws::{
    changes_are_placed, key_is_in_order, no_change_is_same, no_names_left, same_values,
};
use crate::text::{decimal, first_place, joined, quoted, split};
use crate::text_laws::{each_on_one_line, joined_lines_split, pieces_on_one_line};

/// Whether the names are all among others.
pub open spec fn are_all_among(names: Seq<Seq<char>>, others: Seq<Seq<char>>) -> bool {
    forall|name: Seq<char>| #[trigger] names.contains(name) ==> others.contains(name)
}

/// Whether a line stands in a text, between line feeds or its ends.
pub open spec fn stands_on_a_line(text: Seq<char>, line: Seq<char>) -> bool {
    exists|front: Seq<char>, behind: Seq<char>| #[trigger]
        is_line_between(text, front, line, behind)
}

/// Whether a text is a line between what stands before and behind it.
pub open spec fn is_line_between(
    text: Seq<char>,
    front: Seq<char>,
    line: Seq<char>,
    behind: Seq<char>,
) -> bool {
    &&& text == front + line + behind
    &&& front.len() == 0 || front[front.len() - 1] == '\n'
    &&& behind.len() == 0 || behind[0] == '\n'
}

/// The beginning of the heading of a row: its key, and its occurrence, counted from one.
pub open spec fn heading(key: Seq<(Seq<char>, Seq<char>)>, at: int) -> Seq<char> {
    "@@ key ["@ + key_text(key) + "] occurrence "@ + decimal((at + 1) as nat) + " "@
}

/// Whether two rows differ in some column.
pub open spec fn rows_differ(
    left: CsvModel,
    right: CsvModel,
    left_row: int,
    right_row: int,
) -> bool {
    !same_values(left, right, left.rows[left_row], right.rows[right_row])
}

/// Whether the left and the right table both have the row, and it differs.
pub open spec fn is_modified(
    left: CsvModel,
    right: CsvModel,
    key_columns: Seq<Seq<char>>,
    key: Seq<(Seq<char>, Seq<char>)>,
    at: int,
) -> bool {
    exists|left_row: int, right_row: int|
        #![trigger is_occurrence(left, key_columns, key, at, left_row), is_occurrence(
            right,
            key_columns,
            key,
            at,
            right_row,
        )]
        is_occurrence(left, key_columns, key, at, left_row) && is_occurrence(
            right,
            key_columns,
            key,
            at,
            right_row,
        ) && rows_differ(left, right, left_row, right_row)
}

/// Whether a line is the heading of a row that names the side which has it: it ends with
/// "only in left @@" where only the left table has a row with the key and the occurrence, with
/// "only in right @@" where only the right one has, and with "modified @@" where both have one
/// and the two differ.
pub open spec fn heads_a_row(
    line: Seq<char>,
    left: CsvModel,
    right: CsvModel,
    key_columns: Seq<Seq<char>>,
    key: Seq<(Seq<char>, Seq<char>)>,
    at: int,
) -> bool {
    ||| line == heading(key, at) + "only in left @@"@ && has_occurrence(left, key_columns, key, at)
        && !has_occurrence(right, key_columns, key, at)
    ||| line == heading(key, at) + "only in right @@"@ && !has_occurrence(
        left,
        key_columns,
        key,
        at,
    ) && has_occurrence(right, key_columns, key, at)
    ||| line == heading(key, at) + "modified @@"@ && is_modified(left, right, key_columns, key, at)
}

proof fn lines_stand_in_text(parts: Seq<Seq<char>>, feed: Seq<char>, i: int)
    requires
        0 <= i < parts.len(),
        feed == seq!['\n'],
    ensures
        stands_on_a_line(joined(parts, feed), parts[i]),
    decreases parts.len(),
{
    let text = joined(parts, feed);
    let none = Seq::<char>::empty();
    if parts.len() == 1 {
        assert(is_line_between(text, none, parts[i], none)) by {
            assert(none + parts[i] + none == parts[i]);
        }
    } else {
        let rest = parts.drop_last();
        if i == parts.len() - 1 {
            let front = joined(rest, feed) + feed;
            assert(front + parts[i] + none == text);
            assert(is_line_between(text, front, parts[i], none));
        } else {
            lines_stand_in_text(rest, feed, i);
            let before = joined(rest, feed);
            let (front, behind) = choose|front: Seq<char>, behind: Seq<char>| #[trigger]
                is_line_between(before, front, rest[i], behind);
            let tail = behind + feed + parts.last();
            assert(front + parts[i] + tail == text);
            assert(is_line_between(text, front, parts[i], tail));
        }
    }
}

proof fn heads_are_headings(change: RowModel)
    ensures
        change.kind == RowChangeKind::OnlyLeft ==> change_head(change) == heading(
            change.key,
            change.occurrence as int,
        ) + "only in left @@"@,
        change.kind == RowChangeKind::OnlyRight ==> change_head(change) == heading(
            change.key,
            change.occurrence as int,
        ) + "only in right @@"@,
        change.kind == RowChangeKind::Modified ==> change_head(change) == heading(
            change.key,
            change.occurrence as int,
        ) + "modified @@"@,
{
    reveal_strlit("only in left @@");
    reveal_strlit("only in right @@");
    reveal_strlit("modified @@");
    reveal_strlit("only in left");
    reveal_strlit("only in right");
    reveal_strlit("modified");
    reveal_strlit(" @@");
    assert("only in left"@ + " @@"@ == "only in left @@"@);
    assert("only in right"@ + " @@"@ == "only in right @@"@);
    assert("modified"@ + " @@"@ == "modified @@"@);
    let front = heading(change.key, change.occurrence as int);
    assert(front + "only in left"@ + " @@"@ == front + ("only in left"@ + " @@"@));
    assert(front + "only in right"@ + " @@"@ == front + ("only in right"@ + " @@"@));
    assert(front + "modified"@ + " @@"@ == front + ("modified"@ + " @@"@));
}

/// The lines of a change stand together, and behind them the next one begins.
proof fn change_stands_together(changes: Seq<RowModel>, m: int) -> (start: int)
    requires
        0 <= m < changes.len(),
    ensures
        0 <= start,
        start + change_lines(changes[m]).len() <= changes_lines(changes).len(),
        changes_lines(changes).subrange(start, start + change_lines(changes[m]).len())
            == change_lines(changes[m]),
        m + 1 == changes.len() ==> start + change_lines(changes[m]).len() == changes_lines(
            changes,
        ).len(),
        m + 1 < changes.len() ==> start + change_lines(changes[m]).len() < changes_lines(
            changes,
        ).len() && changes_lines(changes)[start + change_lines(changes[m]).len()] == change_head(
            changes[m + 1],
        ),
    decreases changes.len(),
{
    let rest = changes.drop_last();
    let all = changes_lines(changes);
    let own = change_lines(changes[m]);
    if m == rest.len() {
        let start = changes_lines(rest).len() as int;
        assert(changes.last() == changes[m]);
        assert(all.subrange(start, start + own.len()) == own);
        start
    } else {
        let start = change_stands_together(rest, m);
        assert(rest[m] == changes[m]);
        assert(all.subrange(start, start + own.len()) == changes_lines(rest).subrange(
            start,
            start + own.len(),
        ));
        if m + 1 == rest.len() {
            assert(changes.last() == changes[m + 1]);
            assert(all[start + own.len()] == change_lines(changes[m + 1])[0]);
        } else {
            assert(rest[m + 1] == changes[m + 1]);
            assert(all[start + own.len()] == changes_lines(rest)[start + own.len()]);
        }
        start
    }
}

spec fn heads_one_of(line: Seq<char>, changes: Seq<RowModel>) -> bool {
    exists|m: int| 0 <= m < changes.len() && line == change_head(#[trigger] changes[m])
}

spec fn begins_with_sign(line: Seq<char>) -> bool {
    line.len() > 0 && (line[0] == '-' || line[0] == '+')
}

proof fn column_lines_have_signs(kind: RowChangeKind, columns: Seq<ColumnModel>)
    ensures
        forall|i: int|
            0 <= i < columns_lines(kind, columns).len() ==> begins_with_sign(
                #[trigger] columns_lines(kind, columns)[i],
            ),
    decreases columns.len(),
{
    reveal_strlit("- ");
    reveal_strlit("+ ");
    if columns.len() > 0 {
        let rest = columns.drop_last();
        column_lines_have_signs(kind, rest);
        let before = columns_lines(kind, rest);
        let own = column_lines(kind, columns.last());
        assert forall|i: int| 0 <= i < own.len() implies begins_with_sign(#[trigger] own[i]) by {
            assert(own[i].len() > 0);
        }
        assert forall|i: int| 0 <= i < columns_lines(kind, columns).len() implies begins_with_sign(
            #[trigger] columns_lines(kind, columns)[i],
        ) by {
            if i < before.len() {
                assert(begins_with_sign(before[i]));
            } else {
                assert(begins_with_sign(own[i - before.len()]));
            }
        }
    }
}

proof fn lines_head_or_have_signs(changes: Seq<RowModel>)
    ensures
        forall|i: int|
            0 <= i < changes_lines(changes).len() ==> heads_one_of(
                #[trigger] changes_lines(changes)[i],
                changes,
            ) || begins_with_sign(changes_lines(changes)[i]),
    decreases changes.len(),
{
    if changes.len() > 0 {
        let rest = changes.drop_last();
        let last = changes.last();
        lines_head_or_have_signs(rest);
        column_lines_have_signs(last.kind, last.columns);
        let before = changes_lines(rest);
        let all = changes_lines(changes);
        assert forall|i: int| 0 <= i < all.len() implies heads_one_of(#[trigger] all[i], changes)
            || begins_with_sign(all[i]) by {
            if i < before.len() {
                assert(all[i] == before[i]);
                if heads_one_of(before[i], rest) {
                    let m = choose|m: int|
                        0 <= m < rest.len() && before[i] == change_head(#[trigger] rest[m]);
                    assert(changes[m] == rest[m]);
                }
            } else if i == before.len() {
                assert(changes[changes.len() - 1] == last);
                assert(all[i] == change_lines(last)[0]);
            } else {
                assert(all[i] == columns_lines(last.kind, last.columns)[i - before.len() - 1]);
            }
        }
    }
}

proof fn begins_otherwise(line: Seq<char>)
    requires
        line.len() > 0,
        line[0] != '@' || line.len() > 3 && line[3] != 'k',
    ensures
        !"@@ key ["@.is_prefix_of(line),
{
    reveal_strlit("@@ key [");
    if "@@ key ["@.is_prefix_of(line) {
        assert(line.subrange(0, 8)[0] == '@' && line.subrange(0, 8)[3] == 'k');
        assert(line[0] == '@' && line[3] == 'k');
    }
}

/// What stands before the changes, and what stands behind them.
spec fn lines_before(report: ReportModel) -> Seq<Seq<char>> {
    head_lines(report) + missing_lines(report) + header_lines(report)
}

spec fn lines_behind(report: ReportModel) -> Seq<Seq<char>> {
    if differs(report) {
        Seq::empty()
    } else {
        seq!["no differences"@]
    }
}

proof fn other_lines_head_nothing(report: ReportModel, i: int)
    ensures
        0 <= i < lines_before(report).len() ==> lines_before(report)[i].len() > 0
            && lines_before(report)[i][0] != 'n' && !"@@ key ["@.is_prefix_of(
            lines_before(report)[i],
        ),
        0 <= i < lines_behind(report).len() ==> !"@@ key ["@.is_prefix_of(lines_behind(report)[i]),
{
    reveal_strlit("--- ");
    reveal_strlit("+++ ");
    reveal_strlit("keys: ");
    reveal_strlit("@@ missing key columns @@");
    reveal_strlit("- left is missing key column ");
    reveal_strlit("+ right is missing key column ");
    reveal_strlit("@@ header differences @@");
    reveal_strlit("- column only in left: ");
    reveal_strlit("+ column only in right: ");
    reveal_strlit("no differences");
    let head = head_lines(report);
    let missing = missing_lines(report);
    if 0 <= i < lines_before(report).len() {
        let line = lines_before(report)[i];
        if i < head.len() {
            assert(line == head[i]);
            assert(line[0] == '-' || line[0] == '+' || line[0] == 'k');
        } else if i < head.len() + missing.len() {
            assert(line == missing[i - head.len()]);
            assert(line[0] == '-' || line[0] == '+' || line[0] == '@' && line[3] == 'm');
        } else {
            let k = i - head.len() - missing.len();
            assert(line == header_lines(report)[k]);
            assert(line[0] == '-' || line[0] == '+' || line[0] == '@' && line[3] == 'h');
        }
        begins_otherwise(line);
    }
    if 0 <= i < lines_behind(report).len() {
        begins_otherwise(lines_behind(report)[i]);
    }
}

/// A row that the report tells of is headed as its side and its differences ask.
proof fn change_heads_its_row(
    left: CsvModel,
    right: CsvModel,
    key_columns: Seq<Seq<char>>,
    key: Seq<(Seq<char>, Seq<char>)>,
    at: int,
)
    requires
        0 <= at,
        change_at(left, right, key_columns, key, at) is Some,
    ensures
        heads_a_row(
            change_head(change_at(left, right, key_columns, key, at)->0),
            left,
            right,
            key_columns,
            key,
            at,
        ),
{
    let change = change_at(left, right, key_columns, key, at)->0;
    heads_are_headings(change);
    occurrence_is_in_its_group(left, key_columns, key, at);
    occurrence_is_in_its_group(right, key_columns, key, at);
    if change.kind == RowChangeKind::Modified {
        let l = choose|row: int| #[trigger] is_occurrence(left, key_columns, key, at, row);
        let r = choose|row: int| #[trigger] is_occurrence(right, key_columns, key, at, row);
        no_change_is_same(left, right, left.rows[l], right.rows[r]);
        assert(rows_differ(left, right, l, r));
    }
}

proof fn report_has_the_changes(
    left: CsvModel,
    right: CsvModel,
    key_columns: Seq<Seq<char>>,
)
    requires
        are_all_among(key_columns, left.headers),
        are_all_among(key_columns, right.headers),
    ensures
        ({
            let changes = report_of(left, right, key_columns).changes;
            &&& forall|m: int|
                0 <= m < changes.len() ==> change_at(
                    left,
                    right,
                    key_columns,
                    (#[trigger] changes[m]).key,
                    changes[m].occurrence as int,
                ) == Some(changes[m])
            &&& forall|key: Seq<(Seq<char>, Seq<char>)>, at: int|
                0 <= at && (#[trigger] change_at(left, right, key_columns, key, at)) is Some
                    ==> changes.contains(change_at(left, right, key_columns, key, at)->0)
        }),
{
    no_names_left(key_columns, left.headers);
    no_names_left(key_columns, right.headers);
    let order = key_order(left, right, key_columns);
    let changes = report_of(left, right, key_columns).changes;
    key_is_in_order(left, right, key_columns, Seq::empty());
    changes_are_placed(left, right, key_columns, order);
    assert forall|key: Seq<(Seq<char>, Seq<char>)>, at: int|
        0 <= at && (#[trigger] change_at(left, right, key_columns, key, at))
            is Some implies changes.contains(
        change_at(left, right, key_columns, key, at)->0,
    ) by {
        key_is_in_order(left, right, key_columns, key);
        assert(at < occurrences(left, right, key_columns, key));
    }
}

/// The heading of a row in the text of the report names the side that has the row: where only the
/// left table has a row with the key and the occurrence, there is a line that ends with
/// "only in left @@", where only the right one has, a line that ends with "only in right @@", and
/// where both have one and the two differ, a line that ends with "modified @@".
pub proof fn rows_are_headed_by_their_side(
    left: CsvModel,
    right: CsvModel,
    key_columns: Seq<Seq<char>>,
    key: Seq<(Seq<char>, Seq<char>)>,
    at: int,
)
    requires
        are_all_among(key_columns, left.headers),
        are_all_among(key_columns, right.headers),
    ensures
        has_occurrence(left, key_columns, key, at) && !has_occurrence(right, key_columns, key, at)
            ==> stands_on_a_line(
            joined(report_lines(report_of(left, right, key_columns)), "\n"@),
            heading(key, at) + "only in left @@"@,
        ),
        !has_occurrence(left, key_columns, key, at) && has_occurrence(right, key_columns, key, at)
            ==> stands_on_a_line(
            joined(report_lines(report_of(left, right, key_columns)), "\n"@),
            heading(key, at) + "only in right @@"@,
        ),
        is_modified(left, right, key_columns, key, at) ==> stands_on_a_line(
            joined(report_lines(report_of(left, right, key_columns)), "\n"@),
            heading(key, at) + "modified @@"@,
        ),
{
    let report = report_of(left, right, key_columns);
    let lines = report_lines(report);
    reveal_strlit("\n");
    assert("\n"@ == seq!['\n']);
    occurrence_is_in_its_group(left, key_columns, key, at);
    occurrence_is_in_its_group(right, key_columns, key, at);
    let in_left = has_occurrence(left, key_columns, key, at);
    let in_right = has_occurrence(right, key_columns, key, at);
    let modified = is_modified(left, right, key_columns, key, at);
    if modified {
        let (l, r) = choose|left_row: int, right_row: int|
            #![trigger is_occurrence(left, key_columns, key, at, left_row), is_occurrence(
                right,
                key_columns,
                key,
                at,
                right_row,
            )]
            is_occurrence(left, key_columns, key, at, left_row) && is_occurrence(
                right,
                key_columns,
                key,
                at,
                right_row,
            ) && rows_differ(left, right, left_row, right_row);
        no_change_is_same(left, right, left.rows[l], right.rows[r]);
    }
    if (in_left && !in_right) || (in_right && !in_left) || modified {
        let change = change_at(left, right, key_columns, key, at)->0;
        assert(change_at(left, right, key_columns, key, at) is Some);
        report_has_the_changes(left, right, key_columns);
        let m = choose|m: int| 0 <= m < report.changes.len() && report.changes[m] == change;
        let start = change_stands_together(report.changes, m);
        let place = lines_before(report).len() + start;
        assert(changes_lines(report.changes).subrange(
            start,
            start + change_lines(change).len(),
        )[0] == change_head(change));
        assert(lines == lines_before(report) + changes_lines(report.changes) + lines_behind(report));
        assert(lines[place] == change_head(change));
        lines_stand_in_text(lines, "\n"@, place);
        heads_are_headings(change);
    }
}

/// Whether a line is the heading of some row.
pub open spec fn heads_some_row(
    line: Seq<char>,
    left: CsvModel,
    right: CsvModel,
    key_columns: Seq<Seq<char>>,
) -> bool {
    exists|key: Seq<(Seq<char>, Seq<char>)>, at: int| #[trigger]
        heads_a_row(line, left, right, key_columns, key, at)
}

/// Every line of the report that begins as the heading of a row is the heading of a row of one of
/// the tables, or of both, and names the side that has it.
pub proof fn headings_name_the_side_of_their_row(
    left: CsvModel,
    right: CsvModel,
    key_columns: Seq<Seq<char>>,
    i: int,
)
    requires
        are_all_among(key_columns, left.headers),
        are_all_among(key_columns, right.headers),
        0 <= i < report_lines(report_of(left, right, key_columns)).len(),
        "@@ key ["@.is_prefix_of(report_lines(report_of(left, right, key_columns))[i]),
    ensures
        heads_some_row(
            report_lines(report_of(left, right, key_columns))[i],
            left,
            right,
            key_columns,
        ),
{
    let report = report_of(left, right, key_columns);
    let lines = report_lines(report);
    let before = lines_before(report);
    let shown = changes_lines(report.changes);
    assert(lines == before + shown + lines_behind(report));
    if i < before.len() {
        other_lines_head_nothing(report, i);
    } else if i >= before.len() + shown.len() {
        other_lines_head_nothing(report, i - before.len() - shown.len());
    } else {
        let line = shown[i - before.len()];
        assert(lines[i] == line);
        lines_head_or_have_signs(report.changes);
        if begins_with_sign(line) {
            begins_otherwise(line);
        }
        let m = choose|m: int|
            0 <= m < report.changes.len() && line == change_head(#[trigger] report.changes[m]);
        let change = report.changes[m];
        report_has_the_changes(left, right, key_columns);
        change_heads_its_row(left, right, key_columns, change.key, change.occurrence as int);
        assert(heads_a_row(line, left, right, key_columns, change.key, change.occurrence as int));
    }
}

/// Where no line of the report holds a line feed, every piece of its text between line feeds that
/// begins as the heading of a row is one, and names the side that has the row.
pub proof fn headings_in_the_text_name_the_side_of_their_row(
    left: CsvModel,
    right: CsvModel,
    key_columns: Seq<Seq<char>>,
    i: int,
)
    requires
        are_all_among(key_columns, left.headers),
        are_all_among(key_columns, right.headers),
        each_on_one_line(report_lines(report_of(left, right, key_columns))),
        0 <= i < split(
            joined(report_lines(report_of(left, right, key_columns)), "\n"@),
            '\n',
        ).len(),
        "@@ key ["@.is_prefix_of(
            split(joined(report_lines(report_of(left, right, key_columns)), "\n"@), '\n')[i],
        ),
    ensures
        heads_some_row(
            split(joined(report_lines(report_of(left, right, key_columns)), "\n"@), '\n')[i],
            left,
            right,
            key_columns,
        ),
{
    let lines = report_lines(report_of(left, right, key_columns));
    reveal_strlit("\n");
    assert("\n"@ == seq!['\n']);
    assert(lines[0] == "--- "@ + left.path);
    joined_lines_split(lines, "\n"@);
    pieces_on_one_line(lines);
    headings_name_the_side_of_their_row(left, right, key_columns, i);
}

/// Whether lines stand together behind a heading, up to the next one or the end.
pub open spec fn stand_under(
    lines: Seq<Seq<char>>,
    head: Seq<char>,
    block: Seq<Seq<char>>,
    start: int,
) -> bool {
    let next = start + 1 + block.len();
    &&& 0 <= start
    &&& next <= lines.len()
    &&& lines[start] == head
    &&& lines.subrange(start + 1, next) == block
    &&& next == lines.len() || "@@ key ["@.is_prefix_of(lines[next])
}

/// Whether a row has a value in a column, by the place of the column's name.
pub open spec fn has_cell(
    csv: CsvModel,
    row: Seq<Seq<char>>,
    columns: Seq<Seq<char>>,
) -> spec_fn(int) -> bool {
    |k: int| value_in(csv.headers, row, columns[k]) is Some
}

/// Whether lines show all values of a row, behind a sign, in the order of the columns.
pub open spec fn show_the_cells(
    lines: Seq<Seq<char>>,
    sign: Seq<char>,
    csv: CsvModel,
    row: Seq<Seq<char>>,
    columns: Seq<Seq<char>>,
) -> bool {
    exists|places: Seq<int>|
        #![trigger are_all_wanted(places, columns.len() as int, has_cell(csv, row, columns))]
        are_all_wanted(places, columns.len() as int, has_cell(csv, row, columns))
            && show_the_cells_at(lines, sign, csv, row, columns, places)
}

/// Whether lines show the values of a row at the places.
pub open spec fn show_the_cells_at(
    lines: Seq<Seq<char>>,
    sign: Seq<char>,
    csv: CsvModel,
    row: Seq<Seq<char>>,
    columns: Seq<Seq<char>>,
    places: Seq<int>,
) -> bool {
    &&& lines.len() == places.len()
    &&& forall|i: int|
        0 <= i < places.len() ==> #[trigger] lines[i] == sign + columns[places[i]] + "="@ + quoted(
            value_in(csv.headers, row, columns[places[i]])->0,
        )
}

/// Whether two rows differ in a column, by the place of its name.
pub open spec fn has_difference(
    left: CsvModel,
    right: CsvModel,
    left_row: Seq<Seq<char>>,
    right_row: Seq<Seq<char>>,
    columns: Seq<Seq<char>>,
) -> spec_fn(int) -> bool {
    |k: int|
        value_in(left.headers, left_row, columns[k]) != value_in(
            right.headers,
            right_row,
            columns[k],
        )
}

/// Whether a text shows a value, or that there is none.
pub open spec fn shows_value(text: Seq<char>, value: Option<Seq<char>>) -> bool {
    match value {
        Some(cell) => text == quoted(cell),
        None => text == "<missing>"@,
    }
}

/// Whether a line shows a value, or that there is none, behind a sign and a name.
pub open spec fn is_cell_line(
    line: Seq<char>,
    sign: Seq<char>,
    name: Seq<char>,
    value: Option<Seq<char>>,
) -> bool {
    exists|text: Seq<char>| #[trigger]
        shows_value(text, value) && line == sign + name + "="@ + text
}

/// Whether lines show the values of two rows in all columns in which they differ, in the order of
/// the columns: first that of the left one, then that of the right one.
pub open spec fn show_the_differences(
    lines: Seq<Seq<char>>,
    left: CsvModel,
    right: CsvModel,
    left_row: Seq<Seq<char>>,
    right_row: Seq<Seq<char>>,
    columns: Seq<Seq<char>>,
) -> bool {
    exists|places: Seq<int>|
        #![trigger are_all_wanted(
            places,
            columns.len() as int,
            has_difference(left, right, left_row, right_row, columns),
        )]
        are_all_wanted(
            places,
            columns.len() as int,
            has_difference(left, right, left_row, right_row, columns),
        ) && show_the_differences_at(lines, left, right, left_row, right_row, columns, places)
}

/// Whether lines show the values of two rows at the places.
pub open spec fn show_the_differences_at(
    lines: Seq<Seq<char>>,
    left: CsvModel,
    right: CsvModel,
    left_row: Seq<Seq<char>>,
    right_row: Seq<Seq<char>>,
    columns: Seq<Seq<char>>,
    places: Seq<int>,
) -> bool {
    &&& lines.len() == 2 * places.len()
    &&& forall|i: int|
        0 <= i < places.len() ==> {
            let name = columns[#[trigger] places[i]];
            &&& is_cell_line(lines[2 * i], "- "@, name, value_in(left.headers, left_row, name))
            &&& is_cell_line(
                lines[2 * i + 1],
                "+ "@,
                name,
                value_in(right.headers, right_row, name),
            )
        }
}

proof fn snapshot_shows_the_cells(
    csv: CsvModel,
    row: Seq<Seq<char>>,
    columns: Seq<Seq<char>>,
    is_left: bool,
) -> (places: Seq<int>)
    ensures
        are_all_wanted(places, columns.len() as int, has_cell(csv, row, columns)),
        is_left ==> show_the_cells_at(
            columns_lines(RowChangeKind::OnlyLeft, snapshot_of(csv, row, columns, is_left)),
            "- "@,
            csv,
            row,
            columns,
            places,
        ),
        !is_left ==> show_the_cells_at(
            columns_lines(RowChangeKind::OnlyRight, snapshot_of(csv, row, columns, is_left)),
            "+ "@,
            csv,
            row,
            columns,
            places,
        ),
    decreases columns.len(),
{
    let kind = if is_left {
        RowChangeKind::OnlyLeft
    } else {
        RowChangeKind::OnlyRight
    };
    let snapshot = snapshot_of(csv, row, columns, is_left);
    let wanted = has_cell(csv, row, columns);
    if columns.len() == 0 {
        let places = Seq::<int>::empty();
        assert(are_all_wanted(places, 0, wanted));
        places
    } else {
        let rest = columns.drop_last();
        let last = columns.len() - 1;
        let before = snapshot_shows_the_cells(csv, row, rest, is_left);
        let below = has_cell(csv, row, rest);
        let value = value_in(csv.headers, row, columns.last());
        let places = if value is Some {
            before.push(last)
        } else {
            before
        };
        assert forall|i: int| 0 <= i < places.len() implies 0 <= #[trigger] places[i]
            < columns.len() && wanted(places[i]) by {
            if i < before.len() {
                assert(below(before[i]));
                assert(rest[before[i]] == columns[before[i]]);
            }
        }
        assert forall|k: int| 0 <= k < columns.len() && #[trigger] wanted(
            k,
        ) implies places.contains(k) by {
            if k < last {
                assert(rest[k] == columns[k]);
                assert(below(k));
                let m = choose|m: int| 0 <= m < before.len() && before[m] == k;
                assert(places[m] == k);
            } else {
                assert(places[places.len() - 1] == k);
            }
        }
        let earlier = columns_lines(kind, snapshot_of(csv, row, rest, is_left));
        let all = columns_lines(kind, snapshot);
        if value is Some {
            assert(snapshot.drop_last() == snapshot_of(csv, row, rest, is_left));
            assert(all == earlier + column_lines(kind, snapshot.last()));
        }
        let sign = if is_left {
            "- "@
        } else {
            "+ "@
        };
        assert forall|i: int| 0 <= i < places.len() implies #[trigger] all[i] == sign
            + columns[places[i]] + "="@ + quoted(
            value_in(csv.headers, row, columns[places[i]])->0,
        ) by {
            if i < before.len() {
                assert(all[i] == earlier[i]);
                assert(rest[before[i]] == columns[before[i]]);
            }
        }
        assert(are_all_wanted(places, columns.len() as int, wanted));
        places
    }
}

proof fn changes_show_the_differences(
    left: CsvModel,
    right: CsvModel,
    left_row: Seq<Seq<char>>,
    right_row: Seq<Seq<char>>,
    columns: Seq<Seq<char>>,
) -> (places: Seq<int>)
    ensures
        are_all_wanted(
            places,
            columns.len() as int,
            has_difference(left, right, left_row, right_row, columns),
        ),
        show_the_differences_at(
            columns_lines(
                RowChangeKind::Modified,
                changes_in(left, right, left_row, right_row, columns),
            ),
            left,
            right,
            left_row,
            right_row,
            columns,
            places,
        ),
    decreases columns.len(),
{
    let kind = RowChangeKind::Modified;
    let changes = changes_in(left, right, left_row, right_row, columns);
    let wanted = has_difference(left, right, left_row, right_row, columns);
    if columns.len() == 0 {
        let places = Seq::<int>::empty();
        assert(are_all_wanted(places, 0, wanted));
        places
    } else {
        let rest = columns.drop_last();
        let last = columns.len() - 1;
        let before = changes_show_the_differences(left, right, left_row, right_row, rest);
        let below = has_difference(left, right, left_row, right_row, rest);
        let name = columns.last();
        let left_value = value_in(left.headers, left_row, name);
        let right_value = value_in(right.headers, right_row, name);
        let places = if left_value != right_value {
            before.push(last)
        } else {
            before
        };
        assert forall|i: int| 0 <= i < places.len() implies 0 <= #[trigger] places[i]
            < columns.len() && wanted(places[i]) by {
            if i < before.len() {
                assert(below(before[i]));
                assert(rest[before[i]] == columns[before[i]]);
            }
        }
        assert forall|k: int| 0 <= k < columns.len() && #[trigger] wanted(
            k,
        ) implies places.contains(k) by {
            if k < last {
                assert(rest[k] == columns[k]);
                assert(below(k));
                let m = choose|m: int| 0 <= m < before.len() && before[m] == k;
                assert(places[m] == k);
            } else {
                assert(places[places.len() - 1] == k);
            }
        }
        let earlier = columns_lines(kind, changes_in(left, right, left_row, right_row, rest));
        let all = columns_lines(kind, changes);
        if left_value != right_value {
            assert(changes.drop_last() == changes_in(left, right, left_row, right_row, rest));
            assert(all == earlier + column_lines(kind, changes.last()));
            assert(shows_value(cell_text(left_value), left_value));
            assert(shows_value(cell_text(right_value), right_value));
            assert(is_cell_line(all[2 * before.len() as int], "- "@, name, left_value));
            assert(is_cell_line(all[2 * before.len() + 1int], "+ "@, name, right_value));
        }
        assert forall|i: int| 0 <= i < places.len() implies {
            let shown = columns[#[trigger] places[i]];
            &&& is_cell_line(all[2 * i], "- "@, shown, value_in(left.headers, left_row, shown))
            &&& is_cell_line(
                all[2 * i + 1],
                "+ "@,
                shown,
                value_in(right.headers, right_row, shown),
            )
        } by {
            if i < before.len() {
                assert(all[2 * i] == earlier[2 * i] && all[2 * i + 1] == earlier[2 * i + 1]);
                assert(rest[before[i]] == columns[before[i]]);
            }
        }
        assert(are_all_wanted(places, columns.len() as int, wanted));
        places
    }
}

proof fn change_stands_in_the_report(
    left: CsvModel,
    right: CsvModel,
    key_columns: Seq<Seq<char>>,
    key: Seq<(Seq<char>, Seq<char>)>,
    at: int,
) -> (start: int)
    requires
        are_all_among(key_columns, left.headers),
        are_all_among(key_columns, right.headers),
        0 <= at,
        change_at(left, right, key_columns, key, at) is Some,
    ensures
        ({
            let change = change_at(left, right, key_columns, key, at)->0;
            stand_under(
                report_lines(report_of(left, right, key_columns)),
                change_head(change),
                columns_lines(change.kind, change.columns),
                start,
            )
        }),
{
    let report = report_of(left, right, key_columns);
    let lines = report_lines(report);
    let shown = changes_lines(report.changes);
    let change = change_at(left, right, key_columns, key, at)->0;
    let block = columns_lines(change.kind, change.columns);
    report_has_the_changes(left, right, key_columns);
    let m = choose|m: int| 0 <= m < report.changes.len() && report.changes[m] == change;
    let inner = change_stands_together(report.changes, m);
    let start = lines_before(report).len() + inner;
    let own = change_lines(change);
    assert(differs(report));
    assert(lines == lines_before(report) + shown);
    assert(own.len() == block.len() + 1);
    assert(shown.subrange(inner, inner + own.len())[0] == own[0]);
    assert(lines[start] == change_head(change));
    assert(lines.subrange(start + 1, start + 1 + block.len()) == block) by {
        assert forall|i: int| 0 <= i < block.len() implies lines[start + 1 + i] == #[trigger] block[i] by {
            assert(shown.subrange(inner, inner + own.len())[i + 1] == own[i + 1]);
        }
    }
    let next = start + 1 + block.len();
    if m + 1 < report.changes.len() {
        let following = change_head(report.changes[m + 1]);
        assert(lines[next as int] == following);
        reveal_strlit("@@ key [");
        assert(following.subrange(0, 8) == "@@ key ["@);
        assert("@@ key ["@.is_prefix_of(following));
    }
    start
}

/// Under the heading of a row that only the left table has stand all its values, each behind
/// "- ", in the order of the columns.
pub proof fn left_rows_are_shown(
    left: CsvModel,
    right: CsvModel,
    key_columns: Seq<Seq<char>>,
    key: Seq<(Seq<char>, Seq<char>)>,
    at: int,
    row: int,
)
    requires
        are_all_among(key_columns, left.headers),
        are_all_among(key_columns, right.headers),
        is_occurrence(left, key_columns, key, at, row),
        !has_occurrence(right, key_columns, key, at),
    ensures
        exists|block: Seq<Seq<char>>, start: int|
            #![trigger stand_under(
                report_lines(report_of(left, right, key_columns)),
                heading(key, at) + "only in left @@"@,
                block,
                start,
            )]
            stand_under(
                report_lines(report_of(left, right, key_columns)),
                heading(key, at) + "only in left @@"@,
                block,
                start,
            ) && show_the_cells(
                block,
                "- "@,
                left,
                left.rows[row],
                distinct(left.headers + right.headers),
            ),
{
    occurrence_is_in_its_group(left, key_columns, key, at);
    occurrence_is_in_its_group(right, key_columns, key, at);
    assert(has_occurrence(left, key_columns, key, at));
    let columns = distinct(left.headers + right.headers);
    let change = change_at(left, right, key_columns, key, at)->0;
    let start = change_stands_in_the_report(left, right, key_columns, key, at);
    let places = snapshot_shows_the_cells(left, left.rows[row], columns, true);
    heads_are_headings(change);
    let block = columns_lines(change.kind, change.columns);
    assert(show_the_cells(block, "- "@, left, left.rows[row], columns));
    assert(stand_under(
        report_lines(report_of(left, right, key_columns)),
        heading(key, at) + "only in left @@"@,
        block,
        start,
    ));
}

/// Under the heading of a row that only the right table has stand all its values, each behind
/// "+ ", in the order of the columns.
pub proof fn right_rows_are_shown(
    left: CsvModel,
    right: CsvModel,
    key_columns: Seq<Seq<char>>,
    key: Seq<(Seq<char>, Seq<char>)>,
    at: int,
    row: int,
)
    requires
        are_all_among(key_columns, left.headers),
        are_all_among(key_columns, right.headers),
        is_occurrence(right, key_columns, key, at, row),
        !has_occurrence(left, key_columns, key, at),
    ensures
        exists|block: Seq<Seq<char>>, start: int|
            #![trigger stand_under(
                report_lines(report_of(left, right, key_columns)),
                heading(key, at) + "only in right @@"@,
                block,
                start,
            )]
            stand_under(
                report_lines(report_of(left, right, key_columns)),
                heading(key, at) + "only in right @@"@,
                block,
                start,
            ) && show_the_cells(
                block,
                "+ "@,
                right,
                right.rows[row],
                distinct(left.headers + right.headers),
            ),
{
    occurrence_is_in_its_group(left, key_columns, key, at);
    occurrence_is_in_its_group(right, key_columns, key, at);
    assert(has_occurrence(right, key_columns, key, at));
    let columns = distinct(left.headers + right.headers);
    let change = change_at(left, right, key_columns, key, at)->0;
    let start = change_stands_in_the_report(left, right, key_columns, key, at);
    let places = snapshot_shows_the_cells(right, right.rows[row], columns, false);
    heads_are_headings(change);
    let block = columns_lines(change.kind, change.columns);
    assert(show_the_cells(block, "+ "@, right, right.rows[row], columns));
    assert(stand_under(
        report_lines(report_of(left, right, key_columns)),
        heading(key, at) + "only in right @@"@,
        block,
        start,
    ));
}

/// Under the heading of a row that both tables have stand its values in all columns in which the
/// two rows differ, in the order of the columns: that of the left table behind "- ", that of the
/// right one behind "+ ", and "<missing>" where a row has none.
pub proof fn differences_are_shown(
    left: CsvModel,
    right: CsvModel,
    key_columns: Seq<Seq<char>>,
    key: Seq<(Seq<char>, Seq<char>)>,
    at: int,
    left_row: int,
    right_row: int,
)
    requires
        are_all_among(key_columns, left.headers),
        are_all_among(key_columns, right.headers),
        is_occurrence(left, key_columns, key, at, left_row),
        is_occurrence(right, key_columns, key, at, right_row),
        rows_differ(left, right, left_row, right_row),
    ensures
        exists|block: Seq<Seq<char>>, start: int|
            #![trigger stand_under(
                report_lines(report_of(left, right, key_columns)),
                heading(key, at) + "modified @@"@,
                block,
                start,
            )]
            stand_under(
                report_lines(report_of(left, right, key_columns)),
                heading(key, at) + "modified @@"@,
                block,
                start,
            ) && show_the_differences(
                block,
                left,
                right,
                left.rows[left_row],
                right.rows[right_row],
                distinct(left.headers + right.headers),
            ),
{
    occurrence_is_in_its_group(left, key_columns, key, at);
    occurrence_is_in_its_group(right, key_columns, key, at);
    assert(has_occurrence(left, key_columns, key, at));
    assert(has_occurrence(right, key_columns, key, at));
    no_change_is_same(left, right, left.rows[left_row], right.rows[right_row]);
    let columns = distinct(left.headers + right.headers);
    let change = change_at(left, right, key_columns, key, at)->0;
    let start = change_stands_in_the_report(left, right, key_columns, key, at);
    let places = changes_show_the_differences(
        left,
        right,
        left.rows[left_row],
        right.rows[right_row],
        columns,
    );
    heads_are_headings(change);
    let block = columns_lines(change.kind, change.columns);
    assert(show_the_differences(
        block,
        left,
        right,
        left.rows[left_row],
        right.rows[right_row],
        columns,
    ));
    assert(stand_under(
        report_lines(report_of(left, right, key_columns)),
        heading(key, at) + "modified @@"@,
        block,
        start,
    ));
}

/// A report begins with the paths of the left and the right table, and names the key columns
/// where there are any.
pub proof fn report_names_what_is_compared(
    left: CsvModel,
    right: CsvModel,
    key_columns: Seq<Seq<char>>,
)
    ensures
        ({
            let lines = report_lines(report_of(left, right, key_columns));
            &&& lines.len() >= 2
            &&& lines[0] == "--- "@ + left.path
            &&& lines[1] == "+++ "@ + right.path
            &&& key_columns.len() > 0 ==> lines.len() >= 3 && lines[2] == "keys: "@ + joined(
                key_columns,
                ", "@,
            )
        }),
{
}

/// The lines that name those of some names that others lack.
proof fn lacking_are_named(
    words: Seq<char>,
    names: Seq<Seq<char>>,
    others: Seq<Seq<char>>,
    name: Seq<char>,
)
    requires
        names.contains(name),
        !others.contains(name),
    ensures
        name_lines(words, names_without(names, others)).contains(words + quoted(name)),
{
    let places = other_names_go(names, others);
    let wanted = |k: int| !others.contains(names[k]);
    assert(are_all_wanted(places, names.len() as int, wanted));
    let k = choose|k: int| 0 <= k < names.len() && names[k] == name;
    assert(wanted(k));
    let i = choose|i: int| 0 <= i < places.len() && places[i] == k;
    assert(names_without(names, others)[i] == name);
    assert(name_lines(words, names_without(names, others))[i] == words + quoted(name));
}

/// A key column that the left table lacks is told as missing on the left, and one that the right
/// table lacks as missing on the right. Where one is missing, the rows are not compared: no line
/// is the heading of a row.
pub proof fn missing_key_columns_are_told(
    left: CsvModel,
    right: CsvModel,
    key_columns: Seq<Seq<char>>,
    name: Seq<char>,
    i: int,
)
    requires
        key_columns.contains(name),
    ensures
        ({
            let lines = report_lines(report_of(left, right, key_columns));
            &&& !left.headers.contains(name) ==> lines.contains(
                "- left is missing key column "@ + quoted(name),
            )
            &&& !right.headers.contains(name) ==> lines.contains(
                "+ right is missing key column "@ + quoted(name),
            )
            &&& !left.headers.contains(name) || !right.headers.contains(name) ==> lines.contains(
                "@@ missing key columns @@"@,
            ) && (0 <= i < lines.len() ==> !"@@ key ["@.is_prefix_of(lines[i]))
        }),
{
    let report = report_of(left, right, key_columns);
    let lines = report_lines(report);
    let before = lines_before(report);
    let head = head_lines(report);
    let on_left = name_lines("- left is missing key column "@, report.missing_left);
    let on_right = name_lines("+ right is missing key column "@, report.missing_right);
    assert(lines == before + changes_lines(report.changes) + lines_behind(report));
    if !left.headers.contains(name) {
        lacking_are_named("- left is missing key column "@, key_columns, left.headers, name);
        let line = "- left is missing key column "@ + quoted(name);
        let k = choose|k: int| 0 <= k < on_left.len() && on_left[k] == line;
        assert(missing_lines(report)[k + 1] == line);
        assert(lines[head.len() + k + 1] == line);
    }
    if !right.headers.contains(name) {
        lacking_are_named("+ right is missing key column "@, key_columns, right.headers, name);
        let line = "+ right is missing key column "@ + quoted(name);
        let k = choose|k: int| 0 <= k < on_right.len() && on_right[k] == line;
        assert(missing_lines(report)[on_left.len() + k + 1] == line);
        assert(lines[head.len() + on_left.len() + k + 1] == line);
    }
    if !left.headers.contains(name) || !right.headers.contains(name) {
        assert(missing_lines(report)[0] == "@@ missing key columns @@"@);
        assert(lines[head.len() as int] == "@@ missing key columns @@"@);
        assert(report.changes.len() == 0);
        if 0 <= i < before.len() {
            other_lines_head_nothing(report, i);
        } else {
            other_lines_head_nothing(report, i - before.len());
        }
    }
}

/// A column that only the left table has is told as one only in left, and one that only the right
/// table has as one only in right.
pub proof fn other_columns_are_told(
    left: CsvModel,
    right: CsvModel,
    key_columns: Seq<Seq<char>>,
    name: Seq<char>,
)
    ensures
        ({
            let lines = report_lines(report_of(left, right, key_columns));
            &&& left.headers.contains(name) && !right.headers.contains(name) ==> lines.contains(
                "@@ header differences @@"@,
            ) && lines.contains("- column only in left: "@ + quoted(name))
            &&& right.headers.contains(name) && !left.headers.contains(name) ==> lines.contains(
                "@@ header differences @@"@,
            ) && lines.contains("+ column only in right: "@ + quoted(name))
        }),
{
    let report = report_of(left, right, key_columns);
    let lines = report_lines(report);
    let front = head_lines(report) + missing_lines(report);
    let on_left = name_lines("- column only in left: "@, report.only_left);
    let on_right = name_lines("+ column only in right: "@, report.only_right);
    if left.headers.contains(name) && !right.headers.contains(name) {
        lacking_are_named("- column only in left: "@, left.headers, right.headers, name);
        let line = "- column only in left: "@ + quoted(name);
        let k = choose|k: int| 0 <= k < on_left.len() && on_left[k] == line;
        assert(header_lines(report)[k + 1] == line);
        assert(lines[front.len() + k + 1] == line);
        assert(lines[front.len() as int] == "@@ header differences @@"@);
    }
    if right.headers.contains(name) && !left.headers.contains(name) {
        lacking_are_named("+ column only in right: "@, right.headers, left.headers, name);
        let line = "+ column only in right: "@ + quoted(name);
        let k = choose|k: int| 0 <= k < on_right.len() && on_right[k] == line;
        assert(header_lines(report)[on_left.len() + k + 1] == line);
        assert(lines[front.len() + on_left.len() + k + 1] == line);
        assert(lines[front.len() as int] == "@@ header differences @@"@);
    }
}

/// A report says that there are no differences just where it tells of none.
pub proof fn no_differences_are_told(
    left: CsvModel,
    right: CsvModel,
    key_columns: Seq<Seq<char>>,
)
    ensures
        report_lines(report_of(left, right, key_columns)).contains("no differences"@) <==> !differs(
            report_of(left, right, key_columns),
        ),
{
    let report = report_of(left, right, key_columns);
    let lines = report_lines(report);
    let before = lines_before(report);
    let shown = changes_lines(report.changes);
    reveal_strlit("no differences");
    reveal_strlit("@@ key [");
    assert(lines == before + shown + lines_behind(report));
    if !differs(report) {
        assert(lines[lines.len() - 1] == "no differences"@);
    } else if lines.contains("no differences"@) {
        let i = choose|i: int| 0 <= i < lines.len() && lines[i] == "no differences"@;
        if i < before.len() {
            other_lines_head_nothing(report, i);
        } else {
            lines_head_or_have_signs(report.changes);
            let line = shown[i - before.len()];
            assert(line[0] == 'n');
            assert(heads_one_of(line, report.changes));
            let m = choose|m: int|
                0 <= m < report.changes.len() && line == change_head(#[trigger] report.changes[m]);
            assert(line[0] == '@');
        }
    }
}

proof fn changes_follow_the_keys(
    left: CsvModel,
    right: CsvModel,
    key_columns: Seq<Seq<char>>,
    keys: Seq<Seq<(Seq<char>, Seq<char>)>>,
    i: int,
    j: int,
) -> (at: (int, int))
    requires
        0 <= i <= j < changes_of_keys(left, right, key_columns, keys).len(),
    ensures
        ({
            let all = changes_of_keys(left, right, key_columns, keys);
            &&& 0 <= at.0 <= at.1 < keys.len()
            &&& keys[at.0] == all[i].key
            &&& keys[at.1] == all[j].key
            &&& i < j && at.0 == at.1 ==> all[i].occurrence < all[j].occurrence
        }),
    decreases keys.len(),
{
    let all = changes_of_keys(left, right, key_columns, keys);
    let rest = keys.drop_last();
    let last = keys.len() - 1;
    let count = occurrences(left, right, key_columns, keys.last());
    let before = changes_of_keys(left, right, key_columns, rest);
    let own = changes_of_key(left, right, key_columns, keys.last(), count);
    assert(all == before + own);
    changes_of_key_go_upwards(left, right, key_columns, keys.last(), count);
    if j < before.len() {
        let at = changes_follow_the_keys(left, right, key_columns, rest, i, j);
        assert(before[i] == all[i] && before[j] == all[j]);
        assert(rest[at.0] == keys[at.0] && rest[at.1] == keys[at.1]);
        at
    } else if i < before.len() {
        let at = changes_follow_the_keys(left, right, key_columns, rest, i, i);
        assert(before[i] == all[i]);
        assert(rest[at.0] == keys[at.0]);
        assert(own[j - before.len()] == all[j]);
        (at.0, last)
    } else {
        assert(own[i - before.len()] == all[i] && own[j - before.len()] == all[j]);
        (last, last)
    }
}

proof fn changes_of_key_go_upwards(
    left: CsvModel,
    right: CsvModel,
    key_columns: Seq<Seq<char>>,
    key: Seq<(Seq<char>, Seq<char>)>,
    count: int,
)
    ensures
        ({
            let own = changes_of_key(left, right, key_columns, key, count);
            &&& forall|k: int|
                0 <= k < own.len() ==> (#[trigger] own[k]).key == key && own[k].occurrence < count
            &&& forall|i: int, j: int|
                0 <= i < j < own.len() ==> (#[trigger] own[i]).occurrence < (
                #[trigger] own[j]).occurrence
        }),
    decreases count,
{
    if count > 0 {
        changes_of_key_go_upwards(left, right, key_columns, key, count - 1);
        let before = changes_of_key(left, right, key_columns, key, count - 1);
        let own = changes_of_key(left, right, key_columns, key, count);
        assert forall|k: int| 0 <= k < own.len() implies (#[trigger] own[k]).key == key
            && own[k].occurrence < count by {
            if k < before.len() {
                assert(own[k] == before[k]);
            }
        }
        assert forall|i: int, j: int| 0 <= i < j < own.len() implies (#[trigger] own[i]).occurrence
            < (#[trigger] own[j]).occurrence by {
            assert(own[i] == before[i]);
            if j < before.len() {
                assert(own[j] == before[j]);
            }
        }
    }
}

/// The changes stand in the order in which their keys first occur, in the left table and then in
/// the right one, and those of one key in the order of their occurrences.
pub proof fn changes_stand_in_order(
    left: CsvModel,
    right: CsvModel,
    key_columns: Seq<Seq<char>>,
    i: int,
    j: int,
)
    requires
        0 <= i < j < report_of(left, right, key_columns).changes.len(),
    ensures
        ({
            let changes = report_of(left, right, key_columns).changes;
            let keys = keys_of(left, key_columns) + keys_of(right, key_columns);
            if changes[i].key == changes[j].key {
                changes[i].occurrence < changes[j].occurrence
            } else {
                first_place(keys, changes[i].key) < first_place(keys, changes[j].key)
            }
        }),
{
    let keys = keys_of(left, key_columns) + keys_of(right, key_columns);
    let order = key_order(left, right, key_columns);
    let at = changes_follow_the_keys(left, right, key_columns, order, i, j);
    distinct_keeps_the_first(keys, at.0, at.1);
}

} // verus!
