//! What holds of the reports on two tables: when they tell of no difference, and what becomes of
//! them when the tables are exchanged.
use vstd::prelude::*;

use crate::csv_key_diff::RowChangeKind;

verus! {

use crate::csv_key_diff::{
    change_at, changes_in, changes_of_key, changes_of_keys, differs, distinct, group_of,
    key_order, keys_of, names_without, occurrences, places_of_key, report_of, snapshot_of,
    value_in, ColumnModel, CsvModel, ReportModel, RowModel,
};
use crate::csv_key_diff_extract::{names_of, SelectorModel};
use crate::diff_laws::{
    change_is_readable, changes_of_key_are, column_is_readable, ends_without_return,
    have_key_columns, is_readable, names_are_listed, names_are_readable, path_is_readable,
    selectors_in,
};
use crate::text::last_place;
use crate::text_laws::each_on_one_line;

/// A place is found just where the list holds what is wanted.
proof fn last_place_is_there<T>(list: Seq<T>, wanted: T)
    ensures
        last_place(list, wanted) is Some <==> list.contains(wanted),
    decreases list.len(),
{
    if list.len() > 0 {
        let rest = list.drop_last();
        last_place_is_there(rest, wanted);
        if list.last() == wanted {
            assert(list[list.len() - 1] == wanted);
        } else if list.contains(wanted) {
            let k = choose|k: int| 0 <= k < list.len() && list[k] == wanted;
            assert(rest[k] == wanted);
        } else if rest.contains(wanted) {
            let k = choose|k: int| 0 <= k < rest.len() && rest[k] == wanted;
            assert(list[k] == wanted);
        }
    }
}

/// A column that a table has not has no value in its rows.
proof fn no_column_no_value(headers: Seq<Seq<char>>, row: Seq<Seq<char>>, name: Seq<char>)
    requires
        !headers.contains(name),
    ensures
        value_in(headers, row, name) is None,
{
    last_place_is_there(headers, name);
}

/// A list holds an item just where it is the last or among those before.
proof fn held_before_or_last<T>(list: Seq<T>, item: T)
    requires
        list.len() > 0,
    ensures
        list.contains(item) <==> list.drop_last().contains(item) || list.last() == item,
{
    let rest = list.drop_last();
    if list.contains(item) {
        let k = choose|k: int| 0 <= k < list.len() && list[k] == item;
        if k < rest.len() {
            assert(rest[k] == item);
        }
    }
    if rest.contains(item) {
        let k = choose|k: int| 0 <= k < rest.len() && rest[k] == item;
        assert(list[k] == item);
    }
    if list.last() == item {
        assert(list[list.len() - 1] == item);
    }
}

/// A longer list holds what is pushed and what was held.
proof fn held_when_pushed<T>(list: Seq<T>, last: T, item: T)
    ensures
        list.push(last).contains(item) <==> list.contains(item) || last == item,
{
    held_before_or_last(list.push(last), item);
    assert(list.push(last).drop_last() == list);
}

/// The items of two lists are those of the one and of the other.
proof fn held_by_both<T>(first: Seq<T>, second: Seq<T>, item: T)
    ensures
        (first + second).contains(item) <==> first.contains(item) || second.contains(item),
{
    let both = first + second;
    if both.contains(item) {
        let k = choose|k: int| 0 <= k < both.len() && both[k] == item;
        if k < first.len() {
            assert(first[k] == item);
        } else {
            assert(second[k - first.len()] == item);
        }
    }
    if first.contains(item) {
        let k = choose|k: int| 0 <= k < first.len() && first[k] == item;
        assert(both[k] == item);
    }
    if second.contains(item) {
        let k = choose|k: int| 0 <= k < second.len() && second[k] == item;
        assert(both[first.len() + k] == item);
    }
}

/// The distinct items of a list are its items, each once.
proof fn distinct_is_distinct<T>(list: Seq<T>)
    ensures
        distinct(list).no_duplicates(),
        forall|item: T| #[trigger] distinct(list).contains(item) <==> list.contains(item),
    decreases list.len(),
{
    if list.len() > 0 {
        let rest = list.drop_last();
        let before = distinct(rest);
        distinct_is_distinct(rest);
        assert forall|item: T| #[trigger] distinct(list).contains(item) <==> list.contains(
            item,
        ) by {
            held_before_or_last(list, item);
            held_when_pushed(before, list.last(), item);
        }
    }
}

/// The columns of both tables.
pub open spec fn columns_of(left: CsvModel, right: CsvModel) -> Seq<Seq<char>> {
    distinct(left.headers + right.headers)
}

/// The columns of both tables are those of the one and of the other.
proof fn columns_are(left: CsvModel, right: CsvModel, name: Seq<char>)
    ensures
        columns_of(left, right).contains(name) <==> left.headers.contains(name)
            || right.headers.contains(name),
{
    distinct_is_distinct(left.headers + right.headers);
    held_by_both(left.headers, right.headers, name);
}

/// A change of a column is found just where its values differ.
proof fn changes_in_are(
    left: CsvModel,
    right: CsvModel,
    left_row: Seq<Seq<char>>,
    right_row: Seq<Seq<char>>,
    columns: Seq<Seq<char>>,
    change: ColumnModel,
)
    ensures
        changes_in(left, right, left_row, right_row, columns).contains(change) <==> {
            &&& columns.contains(change.column)
            &&& change.left == value_in(left.headers, left_row, change.column)
            &&& change.right == value_in(right.headers, right_row, change.column)
            &&& change.left != change.right
        },
    decreases columns.len(),
{
    if columns.len() > 0 {
        let rest = columns.drop_last();
        let column = columns.last();
        let before = changes_in(left, right, left_row, right_row, rest);
        changes_in_are(left, right, left_row, right_row, rest, change);
        held_before_or_last(columns, change.column);
        let own = ColumnModel {
            column,
            left: value_in(left.headers, left_row, column),
            right: value_in(right.headers, right_row, column),
        };
        held_when_pushed(before, own, change);
    }
}

/// A column of a row that stands alone is shown just where it has a value.
proof fn snapshot_is(
    csv: CsvModel,
    row: Seq<Seq<char>>,
    columns: Seq<Seq<char>>,
    is_left: bool,
    change: ColumnModel,
)
    ensures
        snapshot_of(csv, row, columns, is_left).contains(change) <==> {
            let value = value_in(csv.headers, row, change.column);
            &&& columns.contains(change.column)
            &&& value is Some
            &&& change.left == (if is_left {
                value
            } else {
                None
            })
            &&& change.right == (if is_left {
                None
            } else {
                value
            })
        },
    decreases columns.len(),
{
    if columns.len() > 0 {
        let rest = columns.drop_last();
        let column = columns.last();
        let before = snapshot_of(csv, row, rest, is_left);
        snapshot_is(csv, row, rest, is_left, change);
        held_before_or_last(columns, change.column);
        if let Some(value) = value_in(csv.headers, row, column) {
            let own = ColumnModel {
                column,
                left: if is_left {
                    Some(value)
                } else {
                    None
                },
                right: if is_left {
                    None
                } else {
                    Some(value)
                },
            };
            held_when_pushed(before, own, change);
        }
    }
}

/// The rows that changes of one key tell of are all different.
proof fn occurrences_differ(
    left: CsvModel,
    right: CsvModel,
    key_columns: Seq<Seq<char>>,
    key: Seq<(Seq<char>, Seq<char>)>,
    count: int,
)
    ensures
        selectors_in(changes_of_key(left, right, key_columns, key, count)).no_duplicates(),
    decreases count,
{
    if count > 0 {
        occurrences_differ(left, right, key_columns, key, count - 1);
        changes_of_key_are(left, right, key_columns, key, count - 1);
        let before = changes_of_key(left, right, key_columns, key, count - 1);
        let all = changes_of_key(left, right, key_columns, key, count);
        if let Some(last) = change_at(left, right, key_columns, key, count - 1) {
            assert(all == before.push(last));
            let ids = selectors_in(all);
            assert forall|i: int, j: int| 0 <= i < j < ids.len() implies ids[i] != ids[j] by {
                assert(selectors_in(before)[i] == ids[i]);
                assert(before[i].occurrence < count - 1);
                if j < before.len() {
                    assert(selectors_in(before)[j] == ids[j]);
                }
            }
        }
    }
}

/// What the changes of distinct keys are: each tells of another row, and they are those of the
/// places at which the groups differ.
pub(crate) proof fn changes_are_placed(
    left: CsvModel,
    right: CsvModel,
    key_columns: Seq<Seq<char>>,
    keys: Seq<Seq<(Seq<char>, Seq<char>)>>,
)
    requires
        keys.no_duplicates(),
    ensures
        ({
            let all = changes_of_keys(left, right, key_columns, keys);
            &&& selectors_in(all).no_duplicates()
            &&& forall|m: int|
                0 <= m < all.len() ==> {
                    let change = #[trigger] all[m];
                    &&& keys.contains(change.key)
                    &&& change.occurrence < occurrences(left, right, key_columns, change.key)
                    &&& change_at(
                        left,
                        right,
                        key_columns,
                        change.key,
                        change.occurrence as int,
                    ) == Some(change)
                }
            &&& forall|key: Seq<(Seq<char>, Seq<char>)>, at: int|
                keys.contains(key) && 0 <= at < occurrences(left, right, key_columns, key)
                    && (#[trigger] change_at(left, right, key_columns, key, at)) is Some
                    ==> all.contains(change_at(left, right, key_columns, key, at)->0)
        }),
    decreases keys.len(),
{
    let all = changes_of_keys(left, right, key_columns, keys);
    if keys.len() > 0 {
        let rest = keys.drop_last();
        let last = keys.last();
        let count = occurrences(left, right, key_columns, last);
        let before = changes_of_keys(left, right, key_columns, rest);
        let own = changes_of_key(left, right, key_columns, last, count);
        changes_are_placed(left, right, key_columns, rest);
        changes_of_key_are(left, right, key_columns, last, count);
        occurrences_differ(left, right, key_columns, last, count);
        assert(all == before + own);
        assert(!rest.contains(last)) by {
            if rest.contains(last) {
                let k = choose|k: int| 0 <= k < rest.len() && rest[k] == last;
                assert(keys[k] == keys[keys.len() - 1]);
            }
        }
        assert forall|m: int| 0 <= m < all.len() implies {
            let change = #[trigger] all[m];
            &&& keys.contains(change.key)
            &&& change.occurrence < occurrences(left, right, key_columns, change.key)
            &&& change_at(left, right, key_columns, change.key, change.occurrence as int) == Some(
                change,
            )
        } by {
            let change = all[m];
            held_before_or_last(keys, change.key);
            if m < before.len() {
                assert(before[m] == change);
            } else {
                assert(own[m - before.len()] == change);
                assert(change.key == last);
            }
        }
        let ids = selectors_in(all);
        assert forall|i: int, j: int| 0 <= i < j < ids.len() implies ids[i] != ids[j] by {
            if j < before.len() {
                assert(selectors_in(before)[i] == ids[i] && selectors_in(before)[j] == ids[j]);
            } else if i >= before.len() {
                let shift = before.len() as int;
                assert(selectors_in(own)[i - shift] == ids[i] && selectors_in(own)[j - shift]
                    == ids[j]);
            } else {
                assert(before[i] == all[i]);
                assert(rest.contains(before[i].key));
                assert(own[j - before.len()] == all[j]);
                assert(all[j].key == last);
            }
        }
        assert forall|key: Seq<(Seq<char>, Seq<char>)>, at: int|
            keys.contains(key) && 0 <= at < occurrences(left, right, key_columns, key) && (
            #[trigger] change_at(left, right, key_columns, key, at)) is Some implies all.contains(
            change_at(left, right, key_columns, key, at)->0,
        ) by {
            let change = change_at(left, right, key_columns, key, at)->0;
            held_before_or_last(keys, key);
            held_by_both(before, own, change);
        }
    }
}

/// Rows with a key that no row of the tables has are not there.
proof fn no_key_no_rows<K>(keys: Seq<K>, key: K)
    requires
        !keys.contains(key),
    ensures
        places_of_key(keys, key).len() == 0,
    decreases keys.len(),
{
    if keys.len() > 0 {
        held_before_or_last(keys, key);
        no_key_no_rows(keys.drop_last(), key);
    }
}

/// Some rows of the tables have the key at a place that one of them reaches.
pub(crate) proof fn key_is_in_order(
    left: CsvModel,
    right: CsvModel,
    key_columns: Seq<Seq<char>>,
    key: Seq<(Seq<char>, Seq<char>)>,
)
    ensures
        key_order(left, right, key_columns).no_duplicates(),
        occurrences(left, right, key_columns, key) > 0 ==> key_order(
            left,
            right,
            key_columns,
        ).contains(key),
{
    let in_left = keys_of(left, key_columns);
    let in_right = keys_of(right, key_columns);
    distinct_is_distinct(in_left + in_right);
    held_by_both(in_left, in_right, key);
    if !in_left.contains(key) {
        no_key_no_rows(in_left, key);
    }
    if !in_right.contains(key) {
        no_key_no_rows(in_right, key);
    }
}

/// Whether two rows have the same value, or both none, in every column.
pub open spec fn same_values(
    left: CsvModel,
    right: CsvModel,
    left_row: Seq<Seq<char>>,
    right_row: Seq<Seq<char>>,
) -> bool {
    forall|name: Seq<char>| #[trigger]
        value_in(left.headers, left_row, name) == value_in(right.headers, right_row, name)
}

/// Whether the tables have equally many rows with a key, and each the same values as the other
/// at its place.
pub open spec fn rows_agree(
    left: CsvModel,
    right: CsvModel,
    key_columns: Seq<Seq<char>>,
    key: Seq<(Seq<char>, Seq<char>)>,
) -> bool {
    let left_rows = group_of(left, key_columns, key);
    let right_rows = group_of(right, key_columns, key);
    &&& left_rows.len() == right_rows.len()
    &&& forall|at: int|
        0 <= at < left_rows.len() ==> same_values(
            left,
            right,
            #[trigger] left_rows[at],
            right_rows[at],
        )
}

/// Whether the tables have the same columns, and agree key by key.
pub open spec fn tables_agree(
    left: CsvModel,
    right: CsvModel,
    key_columns: Seq<Seq<char>>,
) -> bool {
    &&& forall|name: Seq<char>| #[trigger]
        left.headers.contains(name) <==> right.headers.contains(name)
    &&& forall|key: Seq<(Seq<char>, Seq<char>)>| #[trigger]
        rows_agree(left, right, key_columns, key)
}

/// No column changes between two rows just where they have the same values.
pub(crate) proof fn no_change_is_same(
    left: CsvModel,
    right: CsvModel,
    left_row: Seq<Seq<char>>,
    right_row: Seq<Seq<char>>,
)
    ensures
        changes_in(left, right, left_row, right_row, columns_of(left, right)).len() == 0
            <==> same_values(left, right, left_row, right_row),
{
    let columns = columns_of(left, right);
    let changes = changes_in(left, right, left_row, right_row, columns);
    if changes.len() == 0 {
        assert forall|name: Seq<char>| #[trigger]
            value_in(left.headers, left_row, name) == value_in(
                right.headers,
                right_row,
                name,
            ) by {
            let change = ColumnModel {
                column: name,
                left: value_in(left.headers, left_row, name),
                right: value_in(right.headers, right_row, name),
            };
            changes_in_are(left, right, left_row, right_row, columns, change);
            columns_are(left, right, name);
            if !columns.contains(name) {
                no_column_no_value(left.headers, left_row, name);
                no_column_no_value(right.headers, right_row, name);
            }
        }
    } else {
        let change = changes[0];
        changes_in_are(left, right, left_row, right_row, columns, change);
        assert(changes.contains(change));
        assert(value_in(left.headers, left_row, change.column) != value_in(
            right.headers,
            right_row,
            change.column,
        ));
    }
}

/// The groups of a key differ nowhere just where they agree.
proof fn no_change_is_agreement(
    left: CsvModel,
    right: CsvModel,
    key_columns: Seq<Seq<char>>,
    key: Seq<(Seq<char>, Seq<char>)>,
)
    ensures
        rows_agree(left, right, key_columns, key) <==> forall|at: int|
            0 <= at < occurrences(left, right, key_columns, key) ==> (#[trigger] change_at(
                left,
                right,
                key_columns,
                key,
                at,
            )) is None,
{
    let left_rows = group_of(left, key_columns, key);
    let right_rows = group_of(right, key_columns, key);
    let count = occurrences(left, right, key_columns, key);
    if rows_agree(left, right, key_columns, key) {
        assert forall|at: int| 0 <= at < count implies (#[trigger] change_at(
            left,
            right,
            key_columns,
            key,
            at,
        )) is None by {
            no_change_is_same(left, right, left_rows[at], right_rows[at]);
        }
    }
    if forall|at: int|
        0 <= at < count ==> (#[trigger] change_at(left, right, key_columns, key, at)) is None {
        if left_rows.len() != right_rows.len() {
            assert(change_at(left, right, key_columns, key, count - 1) is None);
        }
        assert forall|at: int| 0 <= at < left_rows.len() implies same_values(
            left,
            right,
            #[trigger] left_rows[at],
            right_rows[at],
        ) by {
            assert(change_at(left, right, key_columns, key, at) is None);
            no_change_is_same(left, right, left_rows[at], right_rows[at]);
        }
    }
}

/// No names are left over just where the others hold them all.
pub(crate) proof fn no_names_left(names: Seq<Seq<char>>, others: Seq<Seq<char>>)
    ensures
        names_without(names, others).len() == 0 <==> forall|name: Seq<char>| #[trigger]
            names.contains(name) ==> others.contains(name),
    decreases names.len(),
{
    if names.len() > 0 {
        let rest = names.drop_last();
        no_names_left(rest, others);
        assert(names[names.len() - 1] == names.last());
        assert(names.contains(names.last()));
        assert forall|name: Seq<char>| #[trigger] names.contains(name) <==> rest.contains(name)
            || names.last() == name by {
            held_before_or_last(names, name);
        }
        if names_without(names, others).len() == 0 {
            assert forall|name: Seq<char>| #[trigger] names.contains(name) implies others.contains(
                name,
            ) by {}
        }
        if forall|name: Seq<char>| #[trigger] names.contains(name) ==> others.contains(name) {
            assert forall|name: Seq<char>| #[trigger] rest.contains(name) implies others.contains(
                name,
            ) by {
                assert(names.contains(name));
            }
        }
    }
}

/// The report on two tables with the key columns tells of no difference just where the tables
/// have the same columns and agree key by key.
pub proof fn no_difference_is_agreement(
    left: CsvModel,
    right: CsvModel,
    key_columns: Seq<Seq<char>>,
)
    requires
        have_key_columns(left, right, key_columns),
    ensures
        !differs(report_of(left, right, key_columns)) <==> tables_agree(left, right, key_columns),
{
    let report = report_of(left, right, key_columns);
    let order = key_order(left, right, key_columns);
    no_names_left(left.headers, right.headers);
    no_names_left(right.headers, left.headers);
    key_is_in_order(left, right, key_columns, Seq::empty());
    changes_are_placed(left, right, key_columns, order);
    if !differs(report) {
        assert forall|key: Seq<(Seq<char>, Seq<char>)>| #[trigger]
            rows_agree(left, right, key_columns, key) by {
            key_is_in_order(left, right, key_columns, key);
            no_change_is_agreement(left, right, key_columns, key);
        }
        assert forall|name: Seq<char>| #[trigger]
            left.headers.contains(name) <==> right.headers.contains(name) by {}
    }
    if tables_agree(left, right, key_columns) {
        if report.changes.len() > 0 {
            let change = report.changes[0];
            assert(rows_agree(left, right, key_columns, change.key));
            no_change_is_agreement(left, right, key_columns, change.key);
        }
        assert forall|name: Seq<char>| #[trigger] right.headers.contains(
            name,
        ) implies left.headers.contains(name) by {
            assert(left.headers.contains(name) <==> right.headers.contains(name));
        }
    }
}

/// The kind of a change when the tables are exchanged.
pub open spec fn other_kind(kind: RowChangeKind) -> RowChangeKind {
    match kind {
        RowChangeKind::OnlyLeft => RowChangeKind::OnlyRight,
        RowChangeKind::OnlyRight => RowChangeKind::OnlyLeft,
        RowChangeKind::Modified => RowChangeKind::Modified,
    }
}

/// A change of a column with its sides exchanged.
pub open spec fn other_sides(column: ColumnModel) -> ColumnModel {
    ColumnModel { column: column.column, left: column.right, right: column.left }
}

/// Whether a change is the other with its sides exchanged, whatever the order of its columns.
pub open spec fn is_exchanged(change: RowModel, other: RowModel) -> bool {
    &&& other.key == change.key
    &&& other.occurrence == change.occurrence
    &&& other.kind == other_kind(change.kind)
    &&& forall|column: ColumnModel| #[trigger]
        change.columns.contains(column) <==> other.columns.contains(other_sides(column))
}

/// Whether a report is the other with its sides exchanged, whatever the order of its changes:
/// both tell of each row once and of equally many, and each change stands in the other with its
/// sides exchanged.
pub open spec fn is_exchanged_report(report: ReportModel, other: ReportModel) -> bool {
    &&& other.left_path == report.right_path
    &&& other.right_path == report.left_path
    &&& other.key_columns == report.key_columns
    &&& other.missing_left == report.missing_right
    &&& other.missing_right == report.missing_left
    &&& other.only_left == report.only_right
    &&& other.only_right == report.only_left
    &&& selectors_in(report.changes).no_duplicates()
    &&& selectors_in(other.changes).no_duplicates()
    &&& report.changes.len() == other.changes.len()
    &&& forall|i: int|
        0 <= i < report.changes.len() ==> has_exchanged(
            #[trigger] report.changes[i],
            other.changes,
        )
}

/// Whether a change stands among others with its sides exchanged.
pub open spec fn has_exchanged(change: RowModel, others: Seq<RowModel>) -> bool {
    exists|j: int| 0 <= j < others.len() && is_exchanged(change, #[trigger] others[j])
}

/// Two groups of rows differ at a place whichever is the left one, with the sides exchanged.
proof fn change_is_exchanged(
    left: CsvModel,
    right: CsvModel,
    key_columns: Seq<Seq<char>>,
    key: Seq<(Seq<char>, Seq<char>)>,
    at: int,
)
    requires
        0 <= at,
    ensures
        match (
            change_at(left, right, key_columns, key, at),
            change_at(right, left, key_columns, key, at),
        ) {
            (Some(change), Some(other)) => is_exchanged(change, other),
            (None, None) => true,
            _ => false,
        },
{
    let left_rows = group_of(left, key_columns, key);
    let right_rows = group_of(right, key_columns, key);
    let columns = columns_of(left, right);
    let others = columns_of(right, left);
    assert forall|name: Seq<char>| #[trigger] columns.contains(name) <==> others.contains(
        name,
    ) by {
        columns_are(left, right, name);
        columns_are(right, left, name);
    }
    if at < left_rows.len() && at < right_rows.len() {
        let l = left_rows[at];
        let r = right_rows[at];
        let changes = changes_in(left, right, l, r, columns);
        let exchanged = changes_in(right, left, r, l, others);
        assert forall|column: ColumnModel| #[trigger]
            changes.contains(column) <==> exchanged.contains(other_sides(column)) by {
            changes_in_are(left, right, l, r, columns, column);
            changes_in_are(right, left, r, l, others, other_sides(column));
        }
        no_change_is_same(left, right, l, r);
        no_change_is_same(right, left, r, l);
        assert(same_values(left, right, l, r) <==> same_values(right, left, r, l)) by {
            if same_values(left, right, l, r) {
                assert forall|name: Seq<char>| #[trigger]
                    value_in(right.headers, r, name) == value_in(left.headers, l, name) by {
                }
            }
            if same_values(right, left, r, l) {
                assert forall|name: Seq<char>| #[trigger]
                    value_in(left.headers, l, name) == value_in(right.headers, r, name) by {
                }
            }
        }
    } else if at < left_rows.len() {
        let l = left_rows[at];
        assert forall|column: ColumnModel| #[trigger]
            snapshot_of(left, l, columns, true).contains(column) <==> snapshot_of(
                left,
                l,
                others,
                false,
            ).contains(other_sides(column)) by {
            snapshot_is(left, l, columns, true, column);
            snapshot_is(left, l, others, false, other_sides(column));
        }
    } else if at < right_rows.len() {
        let r = right_rows[at];
        assert forall|column: ColumnModel| #[trigger]
            snapshot_of(right, r, columns, false).contains(column) <==> snapshot_of(
                right,
                r,
                others,
                true,
            ).contains(other_sides(column)) by {
            snapshot_is(right, r, columns, false, column);
            snapshot_is(right, r, others, true, other_sides(column));
        }
    }
}

/// Every change of the rows stands in the report on the exchanged tables with its sides
/// exchanged.
proof fn changes_are_exchanged(left: CsvModel, right: CsvModel, key_columns: Seq<Seq<char>>)
    ensures
        ({
            let changes = changes_of_keys(
                left,
                right,
                key_columns,
                key_order(left, right, key_columns),
            );
            let others = changes_of_keys(
                right,
                left,
                key_columns,
                key_order(right, left, key_columns),
            );
            &&& selectors_in(changes).no_duplicates()
            &&& forall|i: int|
                0 <= i < changes.len() ==> has_exchanged(#[trigger] changes[i], others)
        }),
{
    let order = key_order(left, right, key_columns);
    let other_order = key_order(right, left, key_columns);
    let changes = changes_of_keys(left, right, key_columns, order);
    let others = changes_of_keys(right, left, key_columns, other_order);
    key_is_in_order(left, right, key_columns, Seq::empty());
    key_is_in_order(right, left, key_columns, Seq::empty());
    changes_are_placed(left, right, key_columns, order);
    changes_are_placed(right, left, key_columns, other_order);
    assert forall|i: int| 0 <= i < changes.len() implies has_exchanged(
        #[trigger] changes[i],
        others,
    ) by {
        let change = changes[i];
        let at = change.occurrence as int;
        change_is_exchanged(left, right, key_columns, change.key, at);
        key_is_in_order(right, left, key_columns, change.key);
        let other = change_at(right, left, key_columns, change.key, at)->0;
        assert(others.contains(other));
        let j = choose|j: int| 0 <= j < others.len() && others[j] == other;
        assert(is_exchanged(change, others[j]));
    }
}

/// Every row that is told of on the exchanged tables is told of.
proof fn same_rows_are_told(left: CsvModel, right: CsvModel, key_columns: Seq<Seq<char>>)
    ensures
        ({
            let changes = changes_of_keys(
                left,
                right,
                key_columns,
                key_order(left, right, key_columns),
            );
            let others = changes_of_keys(
                right,
                left,
                key_columns,
                key_order(right, left, key_columns),
            );
            forall|id: SelectorModel| #[trigger]
                selectors_in(changes).to_set().contains(id) ==> selectors_in(
                    others,
                ).to_set().contains(id)
        }),
{
    let changes = changes_of_keys(left, right, key_columns, key_order(left, right, key_columns));
    let others = changes_of_keys(right, left, key_columns, key_order(right, left, key_columns));
    changes_are_exchanged(left, right, key_columns);
    assert forall|id: SelectorModel| #[trigger]
        selectors_in(changes).to_set().contains(id) implies selectors_in(
        others,
    ).to_set().contains(id) by {
        assert(selectors_in(changes).contains(id));
        let i = choose|i: int| 0 <= i < changes.len() && selectors_in(changes)[i] == id;
        assert(has_exchanged(changes[i], others));
        let j = choose|j: int|
            0 <= j < others.len() && is_exchanged(changes[i], #[trigger] others[j]);
        assert(selectors_in(others)[j] == id);
    }
}

/// Exchanging the tables exchanges the sides of the report.
pub proof fn exchanged_tables_exchange_the_sides(
    left: CsvModel,
    right: CsvModel,
    key_columns: Seq<Seq<char>>,
)
    ensures
        is_exchanged_report(
            report_of(left, right, key_columns),
            report_of(right, left, key_columns),
        ),
{
    let report = report_of(left, right, key_columns);
    let other = report_of(right, left, key_columns);
    if report.missing_left.len() == 0 && report.missing_right.len() == 0 {
        changes_are_exchanged(left, right, key_columns);
        changes_are_exchanged(right, left, key_columns);
        same_rows_are_told(left, right, key_columns);
        same_rows_are_told(right, left, key_columns);
        let ids = selectors_in(report.changes);
        let other_ids = selectors_in(other.changes);
        assert(ids.to_set() =~= other_ids.to_set());
        ids.unique_seq_to_set();
        other_ids.unique_seq_to_set();
    }
}

proof fn places_are_at_most<K>(keys: Seq<K>, key: K)
    ensures
        places_of_key(keys, key).len() <= keys.len(),
    decreases keys.len(),
{
    if keys.len() > 0 {
        places_are_at_most(keys.drop_last(), key);
    }
}

/// The names of a key that is read from a row are those of the key columns.
proof fn key_has_the_names(
    left: CsvModel,
    right: CsvModel,
    key_columns: Seq<Seq<char>>,
    key: Seq<(Seq<char>, Seq<char>)>,
)
    requires
        key_order(left, right, key_columns).contains(key),
    ensures
        names_of(key) == key_columns,
{
    let in_left = keys_of(left, key_columns);
    let in_right = keys_of(right, key_columns);
    distinct_is_distinct(in_left + in_right);
    held_by_both(in_left, in_right, key);
    if in_left.contains(key) {
        let k = choose|k: int| 0 <= k < in_left.len() && in_left[k] == key;
        assert(names_of(in_left[k]) == key_columns);
    } else {
        let k = choose|k: int| 0 <= k < in_right.len() && in_right[k] == key;
        assert(names_of(in_right[k]) == key_columns);
    }
}

/// The columns that a change tells of are columns of the tables.
proof fn changed_columns_are_there(
    left: CsvModel,
    right: CsvModel,
    key_columns: Seq<Seq<char>>,
    key: Seq<(Seq<char>, Seq<char>)>,
    at: int,
)
    requires
        0 <= at,
    ensures
        change_at(left, right, key_columns, key, at) matches Some(change) ==> forall|j: int|
            0 <= j < change.columns.len() ==> left.headers.contains(
                (#[trigger] change.columns[j]).column,
            ) || right.headers.contains(change.columns[j].column),
{
    let left_rows = group_of(left, key_columns, key);
    let right_rows = group_of(right, key_columns, key);
    let columns = columns_of(left, right);
    if let Some(change) = change_at(left, right, key_columns, key, at) {
        assert forall|j: int| 0 <= j < change.columns.len() implies left.headers.contains(
            (#[trigger] change.columns[j]).column,
        ) || right.headers.contains(change.columns[j].column) by {
            let column = change.columns[j];
            assert(change.columns.contains(column));
            columns_are(left, right, column.column);
            if at < left_rows.len() && at < right_rows.len() {
                changes_in_are(left, right, left_rows[at], right_rows[at], columns, column);
            } else if at < left_rows.len() {
                snapshot_is(left, left_rows[at], columns, true, column);
            } else {
                snapshot_is(right, right_rows[at], columns, false, column);
            }
        }
    }
}

/// Whether the names of all columns can stand in a report that is read back.
pub open spec fn columns_are_readable(headers: Seq<Seq<char>>) -> bool {
    forall|name: Seq<char>| #[trigger] headers.contains(name) ==> column_is_readable(name)
}

/// The report on two tables can be read back if the names in it can: what the values are does
/// not matter.
pub proof fn reports_on_tables_are_readable(
    left: CsvModel,
    right: CsvModel,
    key_columns: Seq<Seq<char>>,
)
    requires
        key_columns.len() > 0,
        each_on_one_line(key_columns),
        ends_without_return(key_columns.last()),
        names_are_readable(key_columns),
        names_are_listed(key_columns),
        path_is_readable(left.path),
        path_is_readable(right.path),
        columns_are_readable(left.headers),
        columns_are_readable(right.headers),
        left.rows.len() <= usize::MAX,
        right.rows.len() <= usize::MAX,
    ensures
        is_readable(report_of(left, right, key_columns)),
{
    let report = report_of(left, right, key_columns);
    key_is_in_order(left, right, key_columns, Seq::empty());
    changes_are_placed(left, right, key_columns, key_order(left, right, key_columns));
    assert forall|i: int| 0 <= i < report.changes.len() implies change_is_readable(
        #[trigger] report.changes[i],
        key_columns,
    ) by {
        let change = report.changes[i];
        key_has_the_names(left, right, key_columns, change.key);
        places_are_at_most(keys_of(left, key_columns), change.key);
        places_are_at_most(keys_of(right, key_columns), change.key);
        changed_columns_are_there(
            left,
            right,
            key_columns,
            change.key,
            change.occurrence as int,
        );
    }
}

} // verus!
