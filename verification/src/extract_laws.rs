//! What holds of the rows that are extracted by a report.
use vstd::prelude::*;

verus! {

use crate::csv_key_diff::{group_of, keys_of, report_of, CsvModel};
use crate::csv_key_diff_extract::{
    extraction_of, is_selected, missing_column, occurrence_of, selected_rows, selection_of,
    selector_in, told_by, SelectionModel, SelectorModel,
};
use crate::csv_text::{csv_text_of, record_text, records_text, uneven_record, width_message};
use crate::diff_laws::{
    differing_left_rows_are_selected, differing_right_rows_are_selected, row_is_in_its_group,
    selection_in,
};
use crate::heading_laws::{are_all_among, rows_differ};
use crate::key_laws::{
    are_rows_of_key, has_key, has_occurrence, is_occurrence, key_shows_the_cells,
    occurrence_is_in_its_group, rows_of_key,
};
use crate::list_laws::{are_all_wanted, wanted_places_are_unique};
use crate::report_laws::{no_change_is_same, no_names_left};
use crate::text::{lines, split_by};

/// The text of a single record is that of the record.
pub proof fn text_of_one_record(record: Seq<Seq<char>>)
    ensures
        csv_text_of(seq![record]) == Ok::<Seq<char>, Seq<char>>(record_text(record)),
{
    let records = seq![record];
    reveal_with_fuel(uneven_record, 2);
    reveal_with_fuel(records_text, 2);
    assert(records.drop_last() == Seq::<Seq<Seq<char>>>::empty());
    assert(records_text(records) == record_text(record));
}

proof fn even_records(records: Seq<Seq<Seq<char>>>, from: int)
    requires
        0 <= from,
    ensures
        match uneven_record(records, from) {
            None => forall|i: int|
                from <= i < records.len() ==> (#[trigger] records[i]).len() == records[0].len(),
            Some(at) => from <= at < records.len() && records[at].len() != records[0].len()
                && forall|i: int|
                from <= i < at ==> (#[trigger] records[i]).len() == records[0].len(),
        },
    decreases records.len() - from,
{
    if from < records.len() && !(from > 0 && records[from].len() != records[0].len()) {
        even_records(records, from + 1);
    }
}

/// A record is written behind the others where it has as many fields as the first; else it is
/// refused, and the message tells both numbers.
pub proof fn text_of_one_record_more(records: Seq<Seq<Seq<char>>>, record: Seq<Seq<char>>)
    requires
        records.len() > 0,
    ensures
        csv_text_of(records) matches Ok(text) ==> csv_text_of(records.push(record)) == (
        if record.len() == records[0].len() {
            Ok::<Seq<char>, Seq<char>>(text + record_text(record))
        } else {
            Err(width_message(record.len(), records[0].len()))
        }),
        csv_text_of(records) is Err ==> csv_text_of(records.push(record)) == csv_text_of(records),
{
    let more = records.push(record);
    even_records(records, 0);
    even_records(more, 0);
    assert(more.drop_last() == records);
    assert(more[0] == records[0]);
    match uneven_record(records, 0) {
        None => {
            if let Some(at) = uneven_record(more, 0) {
                if at < records.len() {
                    assert(more[at] == records[at]);
                }
            } else {
                assert(more[records.len() as int].len() == more[0].len());
            }
        },
        Some(at) => {
            assert(more[at] == records[at]);
            if let Some(other) = uneven_record(more, 0) {
                if other < at {
                    assert(more[other] == records[other]);
                }
            } else {
                assert(more[at].len() == more[0].len());
            }
        },
    }
}

/// Whether a selection names a row: by its key and its occurrence.
pub open spec fn is_taken(csv: CsvModel, selection: SelectionModel, row: int) -> bool {
    exists|s: int|
        0 <= s < selection.rows.len() && is_occurrence(
            csv,
            selection.key_columns,
            (#[trigger] selection.rows[s]).key,
            selection.rows[s].occurrence as int,
            row,
        )
}

/// Every row of a table has one key and one occurrence.
proof fn row_has_one_occurrence(
    csv: CsvModel,
    key_columns: Seq<Seq<char>>,
    key: Seq<(Seq<char>, Seq<char>)>,
    at: int,
    row: int,
)
    requires
        0 <= row < csv.rows.len(),
    ensures
        is_occurrence(csv, key_columns, key, at, row) <==> key == keys_of(csv, key_columns)[row]
            && at == occurrence_of(keys_of(csv, key_columns), row),
{
    let keys = keys_of(csv, key_columns);
    row_is_in_its_group(keys, row);
    let own = rows_of_key(csv, key_columns, keys[row]);
    assert(own[occurrence_of(keys, row) as int] == row);
    assert(are_rows_of_key(own, csv, key_columns, keys[row]));
    assert(is_occurrence(
        csv,
        key_columns,
        keys[row],
        occurrence_of(keys, row) as int,
        row,
    ));
    if is_occurrence(csv, key_columns, key, at, row) {
        let places = choose|places: Seq<int>| #[trigger]
            are_rows_of_key(places, csv, key_columns, key) && 0 <= at < places.len() && places[at]
                == row;
        let wanted = |row: int| has_key(csv.headers, csv.rows[row], key_columns, key);
        assert(wanted(places[at]));
        key_shows_the_cells(csv.headers, csv.rows[row], key_columns, key);
        assert(keys[row] == key);
        let same = rows_of_key(csv, key_columns, key);
        wanted_places_are_unique(
            places,
            same,
            csv.rows.len() as int,
            |row: int| has_key(csv.headers, csv.rows[row], key_columns, key),
        );
        let other = occurrence_of(keys, row) as int;
        assert(places[other] == row);
        if at < other {
            assert(places[at] < places[other]);
        } else if other < at {
            assert(places[other] < places[at]);
        }
    }
}

proof fn selected_is_taken(csv: CsvModel, selection: SelectionModel, row: int)
    requires
        0 <= row < csv.rows.len(),
    ensures
        is_selected(csv, selection, row) <==> is_taken(csv, selection, row),
{
    let keys = keys_of(csv, selection.key_columns);
    let own = SelectorModel { key: keys[row], occurrence: occurrence_of(keys, row) };
    if is_selected(csv, selection, row) {
        let s = choose|s: int| 0 <= s < selection.rows.len() && selection.rows[s] == own;
        row_has_one_occurrence(csv, selection.key_columns, own.key, own.occurrence as int, row);
        assert(selection.rows[s].key == own.key);
    }
    if is_taken(csv, selection, row) {
        let s = choose|s: int|
            0 <= s < selection.rows.len() && is_occurrence(
                csv,
                selection.key_columns,
                (#[trigger] selection.rows[s]).key,
                selection.rows[s].occurrence as int,
                row,
            );
        let found = selection.rows[s];
        row_has_one_occurrence(csv, selection.key_columns, found.key, found.occurrence as int, row);
        assert(found == own);
    }
}

/// Whether the places are those of all rows that a selection names, in the order of the table.
pub open spec fn are_taken(places: Seq<int>, csv: CsvModel, selection: SelectionModel) -> bool {
    are_all_wanted(places, csv.rows.len() as int, |row: int| is_taken(csv, selection, row))
}

/// The rows at places.
pub open spec fn rows_at(csv: CsvModel, places: Seq<int>) -> Seq<Seq<Seq<char>>> {
    Seq::new(places.len(), |i: int| csv.rows[places[i]])
}

proof fn taken_among_first(csv: CsvModel, selection: SelectionModel, count: int) -> (places: Seq<int>)
    requires
        0 <= count <= csv.rows.len(),
    ensures
        are_all_wanted(places, count, |row: int| is_taken(csv, selection, row)),
        selected_rows(csv, selection, count) == rows_at(csv, places),
    decreases count,
{
    let wanted = |row: int| is_taken(csv, selection, row);
    if count == 0 {
        let places = Seq::<int>::empty();
        assert(rows_at(csv, places) == Seq::<Seq<Seq<char>>>::empty());
        assert(are_all_wanted(places, 0, wanted));
        places
    } else {
        let before = taken_among_first(csv, selection, count - 1);
        selected_is_taken(csv, selection, count - 1);
        let places = if is_selected(csv, selection, count - 1) {
            before.push(count - 1)
        } else {
            before
        };
        assert(are_all_wanted(before, count - 1, wanted));
        assert forall|k: int| 0 <= k < count && #[trigger] wanted(k) implies places.contains(
            k,
        ) by {
            if k < count - 1 {
                let m = choose|m: int| 0 <= m < before.len() && before[m] == k;
                assert(places[m] == k);
            } else {
                assert(places[places.len() - 1] == k);
            }
        }
        assert(are_all_wanted(places, count, wanted));
        assert(selected_rows(csv, selection, count) == rows_at(csv, places));
        places
    }
}

/// The selected rows of a table are all those that the selection names, in the order of the
/// table.
pub proof fn selected_rows_are_the_taken_ones(csv: CsvModel, selection: SelectionModel) -> (places: Seq<
    int,
>)
    ensures
        are_taken(places, csv, selection),
        selected_rows(csv, selection, csv.rows.len() as int) == rows_at(csv, places),
{
    taken_among_first(csv, selection, csv.rows.len() as int)
}

/// Whether a text is that of a table with the headers of another and those of its rows that a
/// selection names.
pub open spec fn is_extract_of(text: Seq<char>, csv: CsvModel, selection: SelectionModel) -> bool {
    exists|places: Seq<int>| #[trigger]
        are_taken(places, csv, selection) && csv_text_of(seq![csv.headers] + rows_at(csv, places))
            == Ok::<Seq<char>, Seq<char>>(text)
}

/// Where the rows of two tables are extracted, the first text has the rows of the left table that
/// the report names, and the second one those of the right table, each under its own headers.
pub proof fn extraction_has_the_taken_rows(left: CsvModel, right: CsvModel, diff_text: Seq<char>)
    ensures
        extraction_of(left, right, diff_text) matches Ok((left_text, right_text)) ==> selection_of(
            diff_text,
        ) matches Ok(selection) && is_extract_of(left_text, left, selection) && is_extract_of(
            right_text,
            right,
            selection,
        ),
{
    if let Ok(selection) = selection_of(diff_text) {
        let on_left = selected_rows_are_the_taken_ones(left, selection);
        let on_right = selected_rows_are_the_taken_ones(right, selection);
        assert(are_taken(on_left, left, selection));
        assert(are_taken(on_right, right, selection));
    }
}

proof fn missing_is_first(headers: Seq<Seq<char>>, names: Seq<Seq<char>>)
    ensures
        match missing_column(headers, names) {
            None => are_all_among(names, headers),
            Some(name) => exists|k: int|
                0 <= k < names.len() && #[trigger] names[k] == name && lacks_first_at(
                    headers,
                    names,
                    k,
                ),
        },
    decreases names.len(),
{
    if names.len() > 0 {
        if !headers.contains(names[0]) {
            assert(lacks_first_at(headers, names, 0));
        } else {
            let rest = names.drop_first();
            missing_is_first(headers, rest);
            match missing_column(headers, rest) {
                None => {
                    assert forall|name: Seq<char>| #[trigger] names.contains(
                        name,
                    ) implies headers.contains(name) by {
                        let k = choose|k: int| 0 <= k < names.len() && names[k] == name;
                        if k > 0 {
                            assert(rest[k - 1] == name);
                            assert(rest.contains(name));
                        }
                    }
                },
                Some(name) => {
                    let k = choose|k: int|
                        0 <= k < rest.len() && #[trigger] rest[k] == name && lacks_first_at(
                            headers,
                            rest,
                            k,
                        );
                    assert(names[k + 1] == name);
                    assert forall|j: int| 0 <= j < k + 1 implies headers.contains(
                        #[trigger] names[j],
                    ) by {
                        if j > 0 {
                            assert(rest[j - 1] == names[j]);
                        }
                    }
                    assert(lacks_first_at(headers, names, k + 1));
                },
            }
        }
    }
}

/// Whether a name is the first that is not among the headers.
pub open spec fn lacks_first_at(headers: Seq<Seq<char>>, names: Seq<Seq<char>>, at: int) -> bool {
    &&& !headers.contains(names[at])
    &&& forall|k: int| 0 <= k < at ==> headers.contains(#[trigger] names[k])
}

/// Rows are not extracted from a table that lacks a key column of the report: the message names
/// the side and the first such column; the left table comes first.
pub proof fn lacking_key_columns_are_told(
    left: CsvModel,
    right: CsvModel,
    diff_text: Seq<char>,
    at: int,
)
    ensures
        selection_of(diff_text) matches Err(message) ==> extraction_of(left, right, diff_text)
            == Err::<(Seq<char>, Seq<char>), Seq<char>>(message),
        selection_of(diff_text) matches Ok(selection) ==> {
            let names = selection.key_columns;
            &&& 0 <= at < names.len() && lacks_first_at(left.headers, names, at) ==> extraction_of(
                left,
                right,
                diff_text,
            ) == Err::<(Seq<char>, Seq<char>), Seq<char>>(
                "left CSV is missing diff key column: "@ + names[at],
            )
            &&& are_all_among(names, left.headers) && 0 <= at < names.len() && lacks_first_at(
                right.headers,
                names,
                at,
            ) ==> extraction_of(left, right, diff_text) == Err::<
                (Seq<char>, Seq<char>),
                Seq<char>,
            >("right CSV is missing diff key column: "@ + names[at])
        },
{
    reveal_strlit("left");
    reveal_strlit("right");
    reveal_strlit(" CSV is missing diff key column: ");
    reveal_strlit("left CSV is missing diff key column: ");
    reveal_strlit("right CSV is missing diff key column: ");
    assert("left"@ + " CSV is missing diff key column: "@
        == "left CSV is missing diff key column: "@);
    assert("right"@ + " CSV is missing diff key column: "@
        == "right CSV is missing diff key column: "@);
    if let Ok(selection) = selection_of(diff_text) {
        let names = selection.key_columns;
        missing_is_first(left.headers, names);
        missing_is_first(right.headers, names);
        if 0 <= at < names.len() {
            assert(names.contains(names[at]));
            if let Some(name) = missing_column(left.headers, names) {
                let k = choose|k: int|
                    0 <= k < names.len() && #[trigger] names[k] == name && lacks_first_at(
                        left.headers,
                        names,
                        k,
                    );
                assert(names.contains(names[k]));
                if lacks_first_at(left.headers, names, at) {
                    assert(k == at);
                }
            }
            if let Some(name) = missing_column(right.headers, names) {
                let k = choose|k: int|
                    0 <= k < names.len() && #[trigger] names[k] == name && lacks_first_at(
                        right.headers,
                        names,
                        k,
                    );
                if lacks_first_at(right.headers, names, at) {
                    assert(k == at);
                }
            }
        }
    }
}

/// Whether a row of one table has no partner with its key and occurrence in the other, or differs
/// from it.
pub open spec fn left_stands_apart(
    left: CsvModel,
    right: CsvModel,
    key_columns: Seq<Seq<char>>,
    row: int,
) -> bool {
    exists|key: Seq<(Seq<char>, Seq<char>)>, at: int| #[trigger]
        is_occurrence(left, key_columns, key, at, row) && forall|other: int| #[trigger]
            is_occurrence(right, key_columns, key, at, other) ==> rows_differ(
                left,
                right,
                row,
                other,
            )
}

/// Whether a row of the right table has no partner with its key and occurrence in the left one, or
/// differs from it.
pub open spec fn right_stands_apart(
    left: CsvModel,
    right: CsvModel,
    key_columns: Seq<Seq<char>>,
    row: int,
) -> bool {
    exists|key: Seq<(Seq<char>, Seq<char>)>, at: int| #[trigger]
        is_occurrence(right, key_columns, key, at, row) && forall|other: int| #[trigger]
            is_occurrence(left, key_columns, key, at, other) ==> rows_differ(
                left,
                right,
                other,
                row,
            )
}

/// By the report on two tables just those rows of the left one are taken that have no partner
/// with their key and occurrence in the right one, or differ from it; and the other way round.
pub proof fn rows_that_stand_apart_are_taken(
    left: CsvModel,
    right: CsvModel,
    key_columns: Seq<Seq<char>>,
    row: int,
)
    requires
        are_all_among(key_columns, left.headers),
        are_all_among(key_columns, right.headers),
    ensures
        0 <= row < left.rows.len() ==> (is_taken(
            left,
            selection_in(report_of(left, right, key_columns)),
            row,
        ) <==> left_stands_apart(left, right, key_columns, row)),
        0 <= row < right.rows.len() ==> (is_taken(
            right,
            selection_in(report_of(left, right, key_columns)),
            row,
        ) <==> right_stands_apart(left, right, key_columns, row)),
{
    let selection = selection_in(report_of(left, right, key_columns));
    no_names_left(key_columns, left.headers);
    no_names_left(key_columns, right.headers);
    if 0 <= row < left.rows.len() {
        selected_is_taken(left, selection, row);
        differing_left_rows_are_selected(left, right, key_columns, row);
        let keys = keys_of(left, key_columns);
        let at = occurrence_of(keys, row) as int;
        row_has_one_occurrence(left, key_columns, keys[row], at, row);
        occurrence_is_in_its_group(right, key_columns, keys[row], at);
        let others = group_of(right, key_columns, keys[row]);
        if at < others.len() {
            no_change_is_same(left, right, left.rows[row], others[at]);
            let other = choose|other: int| #[trigger]
                is_occurrence(right, key_columns, keys[row], at, other);
            assert(is_occurrence(right, key_columns, keys[row], at, other));
        }
        assert forall|key: Seq<(Seq<char>, Seq<char>)>, place: int| #[trigger]
            is_occurrence(left, key_columns, key, place, row) implies key == keys[row] && place
            == at by {
            row_has_one_occurrence(left, key_columns, key, place, row);
        }
        assert forall|other: int| #[trigger]
            is_occurrence(right, key_columns, keys[row], at, other) implies right.rows[other]
            == others[at] && at < others.len() by {
            assert(has_occurrence(right, key_columns, keys[row], at));
        }
    }
    if 0 <= row < right.rows.len() {
        selected_is_taken(right, selection, row);
        differing_right_rows_are_selected(left, right, key_columns, row);
        let keys = keys_of(right, key_columns);
        let at = occurrence_of(keys, row) as int;
        row_has_one_occurrence(right, key_columns, keys[row], at, row);
        occurrence_is_in_its_group(left, key_columns, keys[row], at);
        let others = group_of(left, key_columns, keys[row]);
        if at < others.len() {
            no_change_is_same(left, right, others[at], right.rows[row]);
            let other = choose|other: int| #[trigger]
                is_occurrence(left, key_columns, keys[row], at, other);
            assert(is_occurrence(left, key_columns, keys[row], at, other));
        }
        assert forall|key: Seq<(Seq<char>, Seq<char>)>, place: int| #[trigger]
            is_occurrence(right, key_columns, key, place, row) implies key == keys[row] && place
            == at by {
            row_has_one_occurrence(right, key_columns, key, place, row);
        }
        assert forall|other: int| #[trigger]
            is_occurrence(left, key_columns, keys[row], at, other) implies left.rows[other]
            == others[at] && at < others.len() by {
            assert(has_occurrence(left, key_columns, keys[row], at));
        }
    }
}

/// Whether a line tells of a row, by its place: it begins as the heading of a row, and lists no key
/// columns.
pub open spec fn tells_of_row(lines: Seq<Seq<char>>) -> spec_fn(int) -> bool {
    |k: int| "@@ key ["@.is_prefix_of(lines[k])
}

/// The lines of a report are read one by one: the rows are those of all lines that begin as the
/// heading of a row, in order, and the key columns those of the last line that lists any.
pub proof fn lines_tell_of_rows_in_order(lines: Seq<Seq<char>>) -> (places: Seq<int>)
    ensures
        told_by(lines) matches Ok((columns, rows)) ==> {
            &&& are_all_wanted(places, lines.len() as int, tells_of_row(lines))
            &&& rows.len() == places.len()
            &&& forall|i: int|
                0 <= i < places.len() ==> selector_in(lines[places[i]]) == Ok::<
                    Option<SelectorModel>,
                    Seq<char>,
                >(Some(#[trigger] rows[i]))
            &&& columns is None <==> forall|k: int|
                0 <= k < lines.len() ==> !"keys: "@.is_prefix_of(#[trigger] lines[k])
            &&& columns matches Some(listed) ==> exists|k: int| #[trigger]
                lists_last_at(lines, k, listed)
        },
    decreases lines.len(),
{
    let wanted = tells_of_row(lines);
    if lines.len() == 0 {
        let none = Seq::<int>::empty();
        assert(are_all_wanted(none, 0, wanted));
        none
    } else {
        let rest = lines.drop_last();
        let last = lines.len() - 1;
        let line = lines.last();
        let before = lines_tell_of_rows_in_order(rest);
        let below = tells_of_row(rest);
        let told = "@@ key ["@.is_prefix_of(line);
        let places = if told {
            before.push(last)
        } else {
            before
        };
        reveal_strlit("@@ key [");
        reveal_strlit("keys: ");
        if told && "keys: "@.is_prefix_of(line) {
            assert(line.subrange(0, 8)[0] == '@');
            assert(line.subrange(0, 6)[0] == 'k');
        }
        if let Ok((columns, rows)) = told_by(lines) {
            let (earlier, others) = told_by(rest)->Ok_0;
            assert forall|i: int| 0 <= i < places.len() implies 0 <= #[trigger] places[i]
                < lines.len() && wanted(places[i]) by {
                if i < before.len() {
                    assert(below(before[i]));
                    assert(rest[before[i]] == lines[before[i]]);
                }
            }
            assert forall|k: int| 0 <= k < lines.len() && #[trigger] wanted(
                k,
            ) implies places.contains(k) by {
                if k < last {
                    assert(rest[k] == lines[k]);
                    assert(below(k));
                    let m = choose|m: int| 0 <= m < before.len() && before[m] == k;
                    assert(places[m] == k);
                } else {
                    assert(places[places.len() - 1] == k);
                }
            }
            assert forall|i: int| 0 <= i < places.len() implies selector_in(lines[places[i]])
                == Ok::<Option<SelectorModel>, Seq<char>>(Some(#[trigger] rows[i])) by {
                if i < before.len() {
                    assert(rows[i] == others[i]);
                    assert(rest[before[i]] == lines[before[i]]);
                }
            }
            if "keys: "@.is_prefix_of(line) {
                assert(lists_last_at(lines, last, columns->0));
            } else {
                assert(lines[last] == line);
                assert forall|k: int| 0 <= k < last implies #[trigger] rest[k] == lines[k] by {}
                if let Some(listed) = columns {
                    let k = choose|k: int| #[trigger] lists_last_at(rest, k, listed);
                    assert(rest[k] == lines[k]);
                    assert forall|later: int| k < later < lines.len() implies
                        !"keys: "@.is_prefix_of(#[trigger] lines[later]) by {
                        if later < last {
                            assert(rest[later] == lines[later]);
                        }
                    }
                    assert(lists_last_at(lines, k, columns->0));
                } else {
                    assert forall|k: int| 0 <= k < lines.len() implies !"keys: "@.is_prefix_of(
                        #[trigger] lines[k],
                    ) by {
                        if k < last {
                            assert(rest[k] == lines[k]);
                        }
                    }
                }
            }
            assert(are_all_wanted(places, lines.len() as int, wanted));
        }
        places
    }
}

/// Whether a line is the last that lists key columns: behind "keys: ", with commas and spaces
/// between them.
pub open spec fn lists_last_at(lines: Seq<Seq<char>>, at: int, listed: Seq<Seq<char>>) -> bool {
    &&& 0 <= at < lines.len()
    &&& "keys: "@.is_prefix_of(lines[at])
    &&& listed == split_by(lines[at].skip(6), ", "@)
    &&& forall|later: int| at < later < lines.len() ==> !"keys: "@.is_prefix_of(#[trigger] lines[later])
}

/// What is said of a text that lists no key columns.
pub proof fn texts_without_keys_are_told(text: Seq<char>)
    requires
        told_by(lines(text)) is Ok,
        forall|k: int| 0 <= k < lines(text).len() ==> !"keys: "@.is_prefix_of(
            #[trigger] lines(text)[k],
        ),
    ensures
        selection_of(text) == Err::<SelectionModel, Seq<char>>("diff does not contain a keys line"@),
{
    let places = lines_tell_of_rows_in_order(lines(text));
}

} // verus!
