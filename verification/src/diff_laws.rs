//! What holds of reports together with the rows that are taken by them.
use vstd::prelude::*;

use crate::csv_key_diff::RowChangeKind;

verus! {

use crate::csv_key_diff::{
    cell_text, change_at, change_head, change_lines, change_title, changes_in, changes_lines, changes_of_key,
    changes_of_keys, column_lines, columns_lines, differs, distinct, ends_shown, group_of, head_lines,
    header_lines, key_order, key_text, keys_of, missing_lines, name_lines, names_without,
    occurrences, places_of_key, report_lines, report_of, ColumnModel,
    CsvModel, ReportModel, RowModel,
};
use crate::csv_key_diff_extract::{
    columns_meant, entries_from, is_selected, key_columns_in, key_end_from, names_of,
    occurrence_of, quoted_value_at, selection_of, selector_in, selectors_match, told_by,
    SelectionModel, SelectorModel,
};
use crate::text::{
    decimal, found_from, found_is_first, joined, lines, quoted, split, split_by,
    split_has_a_piece, stands_at, trimmed, without_return,
};
use crate::literals::{is_literal_of, literal_goes_on, literal_inside};
use crate::text_laws::{
    both_on_one_line, decimal_digits, decimal_is_read_back, each_on_one_line, joined_front,
    joined_lines_are_lines, joined_lines_split, joined_names_split, joined_on_one_line, parted_behind, pieces,
    pieces_are_joined, pieces_of_both, pieces_on_one_line, split_before, split_behind,
    split_without_separator,
};

/// Whether the text does not end with a carriage return, which is lost before a line feed.
pub open spec fn ends_without_return(text: Seq<char>) -> bool {
    text.len() > 0 ==> text.last() != '\r'
}

/// Whether the name of a key column can be read back from the head of a change: it has no white
/// space around it, no equals sign with a quote behind it, and no words by which a key ends.
pub open spec fn name_is_readable(name: Seq<char>) -> bool {
    &&& trimmed(name) == name
    &&& found_from(name, "=\""@, 0) is None
    &&& found_from(name, "] occurrence "@, 0) is None
}

/// Whether a line says nothing of rows.
pub open spec fn names_no_row(line: Seq<char>) -> bool {
    !"@@ key ["@.is_prefix_of(line)
}

/// Whether a line says nothing of key columns or rows.
pub open spec fn is_silent(line: Seq<char>) -> bool {
    names_no_row(line) && !"keys: "@.is_prefix_of(line)
}

/// Whether no line of a path but its first says something of rows.
pub open spec fn path_is_readable(path: Seq<char>) -> bool {
    forall|k: int|
        1 <= k < split(path, '\n').len() ==> names_no_row(#[trigger] split(path, '\n')[k])
}

/// Whether no line of the name of a column but its first says something of key columns or rows.
pub open spec fn column_is_readable(name: Seq<char>) -> bool {
    forall|k: int|
        1 <= k < split(name, '\n').len() ==> is_silent(#[trigger] split(name, '\n')[k])
}

/// Whether the row of a change can be read back from a report with these key columns.
pub open spec fn change_is_readable(change: RowModel, key_columns: Seq<Seq<char>>) -> bool {
    &&& names_of(change.key) == key_columns
    &&& change.occurrence < usize::MAX
    &&& forall|j: int|
        0 <= j < change.columns.len() ==> column_is_readable((#[trigger] change.columns[j]).column)
}

/// Whether the names of key columns can be read back from their line, if no row tells of them.
pub open spec fn names_are_listed(names: Seq<Seq<char>>) -> bool {
    forall|i: int| 0 <= i < names.len() ==> found_from(#[trigger] names[i], ", "@, 0) is None
}

/// Whether the names of key columns can be read back from the rows.
pub open spec fn names_are_readable(names: Seq<Seq<char>>) -> bool {
    forall|i: int| 0 <= i < names.len() ==> name_is_readable(#[trigger] names[i])
}

/// Whether the rows that a report tells of can be read back from its text.
pub open spec fn is_readable(report: ReportModel) -> bool {
    &&& report.key_columns.len() > 0
    &&& each_on_one_line(report.key_columns)
    &&& ends_without_return(report.key_columns.last())
    &&& if report.changes.len() > 0 {
        names_are_readable(report.key_columns)
    } else {
        names_are_listed(report.key_columns)
    }
    &&& path_is_readable(report.left_path)
    &&& path_is_readable(report.right_path)
    &&& forall|i: int|
        0 <= i < report.changes.len() ==> change_is_readable(
            #[trigger] report.changes[i],
            report.key_columns,
        )
}

/// Whether the values of a column that a change shows stand on one line each.
pub open spec fn values_on_one_line(kind: RowChangeKind, column: ColumnModel) -> bool {
    match kind {
        RowChangeKind::OnlyLeft => column.left matches Some(left) ==> !quoted(left).contains('\n'),
        RowChangeKind::OnlyRight => column.right matches Some(right) ==> !quoted(right).contains(
            '\n',
        ),
        RowChangeKind::Modified => !cell_text(column.left).contains('\n') && !cell_text(
            column.right,
        ).contains('\n'),
    }
}

/// Whether the values of a key are shown as literals that stand for them.
pub open spec fn values_are_literals(key: Seq<(Seq<char>, Seq<char>)>) -> bool {
    forall|i: int|
        0 <= i < key.len() ==> is_literal_of(quoted((#[trigger] key[i]).1), key[i].1)
}

/// Whether the values of the key of a change are shown as literals, and its head and the values
/// that it shows stand on one line each.
pub open spec fn change_is_shown(change: RowModel) -> bool {
    &&& values_are_literals(change.key)
    &&& !change_head(change).contains('\n')
    &&& forall|j: int|
        0 <= j < change.columns.len() ==> values_on_one_line(
            change.kind,
            #[trigger] change.columns[j],
        )
}

/// The rows that a report tells of.
pub open spec fn selection_in(report: ReportModel) -> SelectionModel {
    SelectionModel { key_columns: report.key_columns, rows: selectors_in(report.changes) }
}

/// The rows of the changes.
pub open spec fn selectors_in(changes: Seq<RowModel>) -> Seq<SelectorModel> {
    Seq::new(
        changes.len(),
        |i: int| SelectorModel { key: changes[i].key, occurrence: changes[i].occurrence },
    )
}

/// The part of a key for one name and value.
spec fn entry_text(entry: (Seq<char>, Seq<char>)) -> Seq<char> {
    entry.0 + "="@ + quoted(entry.1)
}

/// The parts of a key.
spec fn entry_texts(key: Seq<(Seq<char>, Seq<char>)>) -> Seq<Seq<char>> {
    Seq::new(key.len(), |i: int| entry_text(key[i]))
}

/// A pattern does not stand at a place within a name if it does not stand in the name: it does
/// not reach over the equals sign behind it.
proof fn stands_not_in_name(
    input: Seq<char>,
    from: int,
    name: Seq<char>,
    behind: Seq<char>,
    pattern: Seq<char>,
    at: int,
)
    requires
        0 <= from <= at < from + name.len(),
        from <= input.len(),
        input.skip(from) == name + seq!['='] + behind,
        pattern.len() > 0,
        forall|k: int| 1 <= k < pattern.len() ==> #[trigger] pattern[k] != '=',
        found_from(name, pattern, 0) is None,
    ensures
        !stands_at(input, pattern, at),
{
    found_is_first(name, pattern, 0);
    if stands_at(input, pattern, at) {
        let place = at - from;
        let rest = input.skip(from);
        let there = input.subrange(at, at + pattern.len());
        if place + pattern.len() <= name.len() {
            let inner = name.subrange(place, place + pattern.len());
            assert forall|k: int| 0 <= k < pattern.len() implies inner[k] == #[trigger] there[k] by {
                assert(rest[place + k] == input[at + k]);
                assert(rest[place + k] == name[place + k]);
            }
            assert(inner == there);
            assert(stands_at(name, pattern, place));
        } else {
            let k = name.len() - place;
            assert(rest[name.len() as int] == '=');
            assert(there[k] == input[at + k]);
            assert(pattern[k] == '=');
        }
    }
}

/// What the name and the literal of an entry are followed by.
spec fn is_entry_at(
    input: Seq<char>,
    from: int,
    entry: (Seq<char>, Seq<char>),
    tail: Seq<char>,
) -> bool {
    &&& 0 <= from <= input.len()
    &&& input.skip(from) == entry.0 + seq!['='] + (quoted(entry.1) + tail)
    &&& name_is_readable(entry.0)
    &&& is_literal_of(quoted(entry.1), entry.1)
}

/// A name, an equals sign and a value between quotes are read back.
proof fn first_entry_is_read_back(
    input: Seq<char>,
    from: int,
    entry: (Seq<char>, Seq<char>),
    tail: Seq<char>,
)
    requires
        is_entry_at(input, from, entry, tail),
    ensures
        ({
            let equals = from + entry.0.len();
            let next = equals + 1 + quoted(entry.1).len();
            &&& found_from(input, "=\""@, from) == Some(equals)
            &&& stands_at(input, "=\""@, equals)
            &&& input[equals] == '='
            &&& input.subrange(from, equals) == entry.0
            &&& quoted_value_at(input, equals + 1) == Ok::<(Seq<char>, int), Seq<char>>(
                (entry.1, next),
            )
            &&& equals + 2 < next <= input.len()
            &&& input.skip(next) == tail
        }),
{
    reveal_strlit("=\"");
    let (name, value) = entry;
    let shown = quoted(value);
    let rest = input.skip(from);
    let equals = from + name.len();
    let next = equals + 1 + shown.len();
    assert(rest.len() == input.len() - from);
    assert(rest[name.len() as int] == '=' && rest[name.len() + 1int] == '"');
    assert(input[equals] == '=' && input[equals + 1] == '"');
    assert(input.subrange(equals, equals + 2) == "=\""@);
    assert(stands_at(input, "=\""@, equals));
    found_is_first(input, "=\""@, from);
    assert forall|k: int| from <= k < equals implies !#[trigger] stands_at(
        input,
        "=\""@,
        k,
    ) by {
        stands_not_in_name(input, from, name, shown + tail, "=\""@, k);
    }
    assert(found_from(input, "=\""@, from) == Some(equals));
    assert(input.subrange(from, equals) == name) by {
        assert(input.subrange(from, equals) == rest.subrange(0, name.len() as int));
    }
    assert(input.skip(next) == tail) by {
        assert(input.skip(next) == rest.skip(name.len() + 1int + shown.len()));
    }
    let front = input.take(equals + 1);
    assert(input == front + shown + tail) by {
        assert(input == input.take(from) + rest);
        assert(front == input.take(from) + (name + seq!['=']));
    }
    literal_goes_on(shown, 1, Seq::empty());
    literal_inside(front, shown, tail, 1, Seq::empty());
}

/// A key with at least one entry is its first entry, and what follows: the others behind a
/// comma, or nothing.
spec fn tail_of_key(key: Seq<(Seq<char>, Seq<char>)>) -> Seq<char> {
    if key.len() == 1 {
        Seq::empty()
    } else {
        ", "@ + key_text(key.drop_first())
    }
}

proof fn key_text_front(key: Seq<(Seq<char>, Seq<char>)>)
    requires
        key.len() > 0,
    ensures
        key_text(key) == key[0].0 + seq!['='] + (quoted(key[0].1) + tail_of_key(key)),
{
    reveal_strlit("=");
    assert("="@ == seq!['=']);
    let parts = entry_texts(key);
    assert(key_text(key) == joined(parts, ", "@)) by {
        assert(parts =~= Seq::new(key.len(), |i: int| key[i].0 + "="@ + quoted(key[i].1)));
    }
    assert(parts[0] == entry_text(key[0]));
    if key.len() > 1 {
        let others = key.drop_first();
        joined_front(parts, ", "@);
        assert(parts.drop_first() == entry_texts(others));
        assert(entry_texts(others) =~= Seq::new(
            others.len(),
            |i: int| others[i].0 + "="@ + quoted(others[i].1),
        ));
    }
}

/// Whether the names of a key can be read back, and its values are shown as literals.
spec fn key_is_readable(key: Seq<(Seq<char>, Seq<char>)>) -> bool {
    &&& forall|i: int| 0 <= i < key.len() ==> name_is_readable((#[trigger] key[i]).0)
    &&& values_are_literals(key)
}

proof fn others_are_readable(key: Seq<(Seq<char>, Seq<char>)>)
    requires
        key.len() > 0,
        key_is_readable(key),
    ensures
        key_is_readable(key.drop_first()),
{
    let others = key.drop_first();
    assert forall|i: int| 0 <= i < others.len() implies name_is_readable((#[trigger] others[i]).0)
        && is_literal_of(quoted(others[i].1), others[i].1) by {
        assert(others[i] == key[i + 1]);
    }
}

/// The names and values of a key are read back.
proof fn entries_are_read_back(
    input: Seq<char>,
    from: int,
    key: Seq<(Seq<char>, Seq<char>)>,
)
    requires
        0 <= from <= input.len(),
        input.skip(from) == key_text(key),
        key_is_readable(key),
    ensures
        entries_from(input, from) == Ok::<Seq<(Seq<char>, Seq<char>)>, Seq<char>>(key),
    decreases key.len(),
{
    reveal_strlit(", ");
    if key.len() == 0 {
        assert(input.skip(from).len() == 0);
        assert(key == Seq::<(Seq<char>, Seq<char>)>::empty());
    } else {
        let tail = tail_of_key(key);
        key_text_front(key);
        assert(is_literal_of(quoted(key[0].1), key[0].1));
        first_entry_is_read_back(input, from, key[0], tail);
        let next = from + key[0].0.len() + 1 + quoted(key[0].1).len();
        if key.len() == 1 {
            assert(seq![key[0]] == key);
        } else {
            let others = key.drop_first();
            assert(tail.subrange(0, 2) == ", "@);
            assert(", "@.is_prefix_of(tail));
            assert(input.skip(next + 2) == key_text(others)) by {
                assert(input.skip(next + 2) == tail.skip(2));
            }
            others_are_readable(key);
            entries_are_read_back(input, next + 2, others);
            assert(seq![key[0]] + others == key);
        }
    }
}

/// The search for the end of a key goes over a name.
proof fn name_is_passed(
    input: Seq<char>,
    from: int,
    entry: (Seq<char>, Seq<char>),
    tail: Seq<char>,
    at: int,
)
    requires
        is_entry_at(input, from, entry, tail),
        from <= at <= from + entry.0.len(),
    ensures
        key_end_from(input, at) == key_end_from(input, from + entry.0.len()),
    decreases from + entry.0.len() - at,
{
    if at < from + entry.0.len() {
        reveal_strlit("=\"");
        reveal_strlit("] occurrence ");
        let behind = quoted(entry.1) + tail;
        assert(input.skip(from).len() == input.len() - from);
        stands_not_in_name(input, from, entry.0, behind, "=\""@, at);
        stands_not_in_name(input, from, entry.0, behind, "] occurrence "@, at);
        name_is_passed(input, from, entry, tail, at + 1);
    }
}

/// A pattern that begins otherwise does not stand at a place.
proof fn begins_otherwise(input: Seq<char>, pattern: Seq<char>, at: int)
    requires
        0 <= at < input.len(),
        pattern.len() > 0,
        input[at] != pattern[0],
    ensures
        !stands_at(input, pattern, at),
{
    if stands_at(input, pattern, at) {
        assert(input.subrange(at, at + pattern.len())[0] == input[at]);
    }
}

/// The search for the end of a key goes over a comma and a space.
proof fn comma_is_passed(input: Seq<char>, at: int)
    requires
        0 <= at,
        at + 1 < input.len(),
        input[at] == ',',
        input[at + 1] == ' ',
    ensures
        key_end_from(input, at) == key_end_from(input, at + 2),
{
    reveal_strlit("=\"");
    reveal_strlit("] occurrence ");
    begins_otherwise(input, "] occurrence "@, at);
    begins_otherwise(input, "=\""@, at);
    begins_otherwise(input, "] occurrence "@, at + 1);
    begins_otherwise(input, "=\""@, at + 1);
    assert(key_end_from(input, at + 1) == key_end_from(input, at + 2));
}

/// The search for the end of a key goes over an entry.
proof fn entry_is_passed(
    input: Seq<char>,
    from: int,
    entry: (Seq<char>, Seq<char>),
    tail: Seq<char>,
)
    requires
        is_entry_at(input, from, entry, tail),
    ensures
        key_end_from(input, from) == key_end_from(
            input,
            from + entry.0.len() + 1 + quoted(entry.1).len(),
        ),
{
    reveal_strlit("] occurrence ");
    first_entry_is_read_back(input, from, entry, tail);
    name_is_passed(input, from, entry, tail, from);
    begins_otherwise(input, "] occurrence "@, from + entry.0.len());
}

/// The end of a key is found where the words by which it ends stand behind it.
proof fn key_end_is_read(
    input: Seq<char>,
    from: int,
    key: Seq<(Seq<char>, Seq<char>)>,
    behind: Seq<char>,
)
    requires
        0 <= from <= input.len(),
        input.skip(from) == key_text(key) + "] occurrence "@ + behind,
        key_is_readable(key),
    ensures
        key_end_from(input, from) == Some(from + key_text(key).len()),
    decreases key.len(),
{
    reveal_strlit(", ");
    let rest = input.skip(from);
    let ended = "] occurrence "@ + behind;
    assert(rest.len() == input.len() - from);
    if key.len() == 0 {
        assert(key_text(key) == Seq::<char>::empty());
        end_stands_at(input, from, behind);
    } else {
        let entry = key[0];
        key_text_front(key);
        let tail = tail_of_key(key) + ended;
        assert(rest == entry.0 + seq!['='] + (quoted(entry.1) + tail));
        assert(is_literal_of(quoted(entry.1), entry.1));
        first_entry_is_read_back(input, from, entry, tail);
        entry_is_passed(input, from, entry, tail);
        let next = from + entry.0.len() + 1 + quoted(entry.1).len();
        assert(input.skip(next).len() == input.len() - next);
        if key.len() == 1 {
            assert(tail == ended);
            end_stands_at(input, next, behind);
        } else {
            let others = key.drop_first();
            assert(input.skip(next) == tail);
            assert(input[next] == tail[0] && input[next + 1] == tail[1]);
            assert(tail[0] == ',' && tail[1] == ' ');
            comma_is_passed(input, next);
            assert(input.skip(next + 2) == key_text(others) + "] occurrence "@ + behind) by {
                assert(input.skip(next + 2) == tail.skip(2));
            }
            others_are_readable(key);
            key_end_is_read(input, next + 2, others, behind);
        }
    }
}

proof fn end_stands_at(input: Seq<char>, at: int, behind: Seq<char>)
    requires
        0 <= at <= input.len(),
        input.skip(at) == "] occurrence "@ + behind,
    ensures
        key_end_from(input, at) == Some(at),
{
    reveal_strlit("] occurrence ");
    assert(input.skip(at).len() == input.len() - at);
    assert(input.subrange(at, at + 13) == input.skip(at).subrange(0, 13));
    assert(input.subrange(at, at + 13) == "] occurrence "@);
}

/// How a change is headed: what stands behind the words by which its key ends.
spec fn behind_key(change: RowModel) -> Seq<char> {
    decimal(change.occurrence + 1) + seq![' '] + (change_title(change.kind) + " @@"@)
}

/// The line that heads a change begins as such a line does, and its key ends where it should.
proof fn head_parts(change: RowModel)
    requires
        key_is_readable(change.key),
    ensures
        ({
            let line = change_head(change);
            let key = key_text(change.key);
            let rest = line.skip(8);
            &&& "@@ key ["@.is_prefix_of(line)
            &&& !"keys: "@.is_prefix_of(line)
            &&& without_return(line) == line
            &&& line.len() > 0
            &&& key_end_from(rest, 0) == Some(key.len() as int)
            &&& rest.take(key.len() as int) == key
            &&& rest.skip(key.len() + 13int) == behind_key(change)
        }),
{
    reveal_strlit("@@ key [");
    reveal_strlit("] occurrence ");
    reveal_strlit(" ");
    reveal_strlit(" @@");
    reveal_strlit("keys: ");
    let line = change_head(change);
    let key = key_text(change.key);
    assert(line.subrange(0, 8) == "@@ key ["@);
    assert("@@ key ["@.is_prefix_of(line));
    if "keys: "@.is_prefix_of(line) {
        assert(line.subrange(0, 6)[0] == 'k');
        assert(line[0] == '@');
    }
    assert(" "@ == seq![' ']);
    let rest = line.skip(8);
    assert(rest == key + "] occurrence "@ + behind_key(change));
    assert(rest.skip(0) == rest);
    key_end_is_read(rest, 0, change.key, behind_key(change));
    assert(rest.take(key.len() as int) == key);
    assert(rest.skip(key.len() + 13int) == behind_key(change));
    assert(line.last() == '@');
}

/// The line that heads a change tells of its row.
proof fn head_is_read_back(change: RowModel)
    requires
        key_is_readable(change.key),
        change.occurrence < usize::MAX,
    ensures
        key_columns_in(change_head(change)) is None,
        selector_in(change_head(change)) == Ok::<Option<SelectorModel>, Seq<char>>(
            Some(SelectorModel { key: change.key, occurrence: change.occurrence }),
        ),
        without_return(change_head(change)) == change_head(change),
        change_head(change).len() > 0,
{
    let key = key_text(change.key);
    let number = decimal(change.occurrence + 1);
    let title = change_title(change.kind) + " @@"@;
    head_parts(change);
    decimal_digits(change.occurrence + 1, usize::MAX as int);
    assert(!number.contains(' ')) by {
        if number.contains(' ') {
            let k = choose|k: int| 0 <= k < number.len() && number[k] == ' ';
            assert('0' <= number[k]);
        }
    }
    parted_behind(number, ' ', title);
    decimal_is_read_back(change.occurrence + 1, usize::MAX as int);
    assert(key.skip(0) == key);
    entries_are_read_back(key, 0, change.key);
}

/// The key of a change that is shown can be read back if the names can.
proof fn shown_key_is_readable(change: RowModel, names: Seq<Seq<char>>)
    requires
        names_of(change.key) == names,
        names_are_readable(names),
        change_is_shown(change),
    ensures
        key_is_readable(change.key),
{
    assert forall|i: int| 0 <= i < change.key.len() implies name_is_readable(
        (#[trigger] change.key[i]).0,
    ) by {
        assert(names_of(change.key)[i] == names[i]);
    }
}

/// A line that does not begin with some words does not begin with them without its carriage
/// return either.
proof fn shorter_begins_alike(words: Seq<char>, line: Seq<char>)
    requires
        !words.is_prefix_of(line),
    ensures
        !words.is_prefix_of(without_return(line)),
{
    let short = without_return(line);
    if words.is_prefix_of(short) {
        assert(line.subrange(0, words.len() as int) == short.subrange(0, words.len() as int));
        assert(words.is_prefix_of(line));
    }
}

proof fn silent_says_nothing(line: Seq<char>)
    requires
        is_silent(line),
    ensures
        key_columns_in(line) is None,
        selector_in(line) == Ok::<Option<SelectorModel>, Seq<char>>(None),
        key_columns_in(without_return(line)) is None,
        selector_in(without_return(line)) == Ok::<Option<SelectorModel>, Seq<char>>(None),
{
    shorter_begins_alike("@@ key ["@, line);
    shorter_begins_alike("keys: "@, line);
}

/// A line that begins like no line of key columns or rows is silent.
proof fn other_beginnings_are_silent(line: Seq<char>)
    requires
        line.len() > 0,
        line[0] != 'k',
        line[0] == '@' ==> line.len() >= 4 && line[3] != 'k',
    ensures
        is_silent(line),
{
    reveal_strlit("@@ key [");
    reveal_strlit("keys: ");
    if "keys: "@.is_prefix_of(line) {
        assert(line.subrange(0, 6)[0] == 'k');
    }
    if "@@ key ["@.is_prefix_of(line) {
        assert(line.subrange(0, 8)[0] == '@' && line.subrange(0, 8)[3] == 'k');
    }
}

/// A silent line stays silent with an equals sign and more behind it.
proof fn more_behind_is_silent(line: Seq<char>, tail: Seq<char>)
    requires
        is_silent(line),
        tail.len() > 0,
        tail[0] == '=',
    ensures
        is_silent(line + tail),
{
    reveal_strlit("@@ key [");
    reveal_strlit("keys: ");
    assert(!"@@ key ["@.contains('='));
    assert(!"keys: "@.contains('='));
    begins_alike_with_more("@@ key ["@, line, tail);
    begins_alike_with_more("keys: "@, line, tail);
}

proof fn begins_alike_with_more(words: Seq<char>, line: Seq<char>, tail: Seq<char>)
    requires
        !words.is_prefix_of(line),
        !words.contains('='),
        tail.len() > 0,
        tail[0] == '=',
    ensures
        !words.is_prefix_of(line + tail),
{
    let whole = line + tail;
    if words.is_prefix_of(whole) {
        let size = words.len() as int;
        assert(whole.subrange(0, size) == words);
        if size <= line.len() {
            assert(line.subrange(0, size) == whole.subrange(0, size));
            assert(words.is_prefix_of(line));
        } else {
            assert(whole[line.len() as int] == '=');
            assert(words[line.len() as int] == whole.subrange(0, size)[line.len() as int]);
            assert(words.contains('='));
        }
    }
}

/// The lines without the carriage returns at their ends.
spec fn cleaned(lines: Seq<Seq<char>>) -> Seq<Seq<char>> {
    Seq::new(lines.len(), |i: int| without_return(lines[i]))
}

proof fn cleaned_of_both(first: Seq<Seq<char>>, second: Seq<Seq<char>>)
    ensures
        cleaned(first + second) == cleaned(first) + cleaned(second),
{
}

/// Silent lines tell nothing.
proof fn silent_lines_tell_nothing(before: Seq<Seq<char>>, silent: Seq<Seq<char>>)
    requires
        told_by(before) is Ok,
        forall|i: int| 0 <= i < silent.len() ==> is_silent(#[trigger] silent[i]),
    ensures
        told_by(before + cleaned(silent)) == told_by(before),
    decreases silent.len(),
{
    if silent.len() == 0 {
        assert(before + cleaned(silent) == before);
    } else {
        let rest = silent.drop_last();
        assert forall|i: int| 0 <= i < rest.len() implies is_silent(#[trigger] rest[i]) by {
            assert(rest[i] == silent[i]);
        }
        silent_lines_tell_nothing(before, rest);
        let all = before + cleaned(silent);
        assert(all.drop_last() == before + cleaned(rest));
        assert(is_silent(silent[silent.len() - 1]));
        silent_says_nothing(silent.last());
        assert(all.last() == without_return(silent.last()));
    }
}

/// The pieces of a line for a value of a column are silent, and the last is not empty.
proof fn cell_pieces_are_silent(sign: Seq<char>, column: ColumnModel, value: Seq<char>)
    requires
        sign == "- "@ || sign == "+ "@,
        column_is_readable(column.column),
        !value.contains('\n'),
    ensures
        ({
            let found = split(sign + column.column + "="@ + value, '\n');
            &&& found.len() > 0
            &&& found.last().len() > 0
            &&& forall|k: int| 0 <= k < found.len() ==> is_silent(#[trigger] found[k])
        }),
{
    reveal_strlit("- ");
    reveal_strlit("+ ");
    reveal_strlit("=");
    let tail = "="@ + value;
    let inner = split(column.column, '\n');
    let middle = split(sign + column.column, '\n');
    both_on_one_line("="@, value);
    split_has_a_piece(column.column, '\n');
    split_behind(sign, '\n', column.column);
    split_before(sign + column.column, '\n', tail);
    assert(sign + column.column + tail == sign + column.column + "="@ + value);
    let found = split(sign + column.column + "="@ + value, '\n');
    assert forall|k: int| 0 <= k < found.len() implies is_silent(#[trigger] found[k]) by {
        if k == 0 {
            assert(found[0][0] == sign[0]);
            other_beginnings_are_silent(found[0]);
        } else {
            assert(is_silent(inner[k]));
            assert(middle[k] == inner[k]);
            if k == found.len() - 1 {
                more_behind_is_silent(inner[k], tail);
            }
        }
    }
}

/// The pieces of the lines of columns are silent, and the last is not empty.
proof fn column_pieces_are_silent(kind: RowChangeKind, columns: Seq<ColumnModel>)
    requires
        forall|j: int|
            0 <= j < columns.len() ==> column_is_readable((#[trigger] columns[j]).column),
        forall|j: int| 0 <= j < columns.len() ==> values_on_one_line(kind, #[trigger] columns[j]),
    ensures
        ({
            let found = pieces(columns_lines(kind, columns));
            &&& forall|k: int| 0 <= k < found.len() ==> is_silent(#[trigger] found[k])
            &&& columns_lines(kind, columns).len() > 0 ==> found.len() > 0 && found.last().len() > 0
        }),
    decreases columns.len(),
{
    if columns.len() > 0 {
        let rest = columns.drop_last();
        let column = columns.last();
        assert forall|j: int| 0 <= j < rest.len() implies column_is_readable(
            (#[trigger] rest[j]).column,
        ) && values_on_one_line(kind, rest[j]) by {
            assert(rest[j] == columns[j]);
        }
        column_pieces_are_silent(kind, rest);
        assert(columns[columns.len() - 1] == column);
        assert(column_is_readable(column.column) && values_on_one_line(kind, column));
        let before = columns_lines(kind, rest);
        let last = column_lines(kind, column);
        pieces_of_both(before, last);
        reveal_with_fuel(pieces, 3);
        match kind {
            RowChangeKind::OnlyLeft => {
                if let Some(left) = column.left {
                    cell_pieces_are_silent("- "@, column, quoted(left));
                    assert(last.drop_last() == Seq::<Seq<char>>::empty());
                    assert(pieces(last) == split(last[0], '\n'));
                }
            },
            RowChangeKind::OnlyRight => {
                if let Some(right) = column.right {
                    cell_pieces_are_silent("+ "@, column, quoted(right));
                    assert(last.drop_last() == Seq::<Seq<char>>::empty());
                    assert(pieces(last) == split(last[0], '\n'));
                }
            },
            RowChangeKind::Modified => {
                cell_pieces_are_silent("- "@, column, cell_text(column.left));
                cell_pieces_are_silent("+ "@, column, cell_text(column.right));
                assert(last.drop_last() == seq![last[0]]);
                assert(last.drop_last().drop_last() == Seq::<Seq<char>>::empty());
                assert(pieces(last) == split(last[0], '\n') + split(last[1], '\n'));
            },
        }
        let found = pieces(last);
        assert forall|k: int| 0 <= k < pieces(before + last).len() implies is_silent(
            #[trigger] pieces(before + last)[k],
        ) by {
            if k < pieces(before).len() {
                assert(pieces(before + last)[k] == pieces(before)[k]);
            } else {
                assert(pieces(before + last)[k] == found[k - pieces(before).len()]);
            }
        }
    }
}

/// The pieces of the lines of a change are its head and the pieces of its columns.
proof fn change_pieces(change: RowModel)
    requires
        change_is_shown(change),
    ensures
        pieces(change_lines(change)) == seq![change_head(change)] + pieces(
            columns_lines(change.kind, change.columns),
        ),
{
    let head = seq![change_head(change)];
    pieces_of_both(head, columns_lines(change.kind, change.columns));
    pieces_on_one_line(head);
}

/// The pieces of the lines of a change tell of its row.
proof fn change_is_told(before: Seq<Seq<char>>, change: RowModel, names: Seq<Seq<char>>)
    requires
        told_by(before) is Ok,
        names_are_readable(names),
        change_is_readable(change, names),
        change_is_shown(change),
    ensures
        told_by(before) matches Ok((columns, rows)) && told_by(
            before + cleaned(pieces(change_lines(change))),
        ) == Ok::<(Option<Seq<Seq<char>>>, Seq<SelectorModel>), Seq<char>>(
            (columns, rows.push(SelectorModel { key: change.key, occurrence: change.occurrence })),
        ),
{
    shown_key_is_readable(change, names);
    head_is_read_back(change);
    let head = change_head(change);
    let with_head = before.push(head);
    assert(with_head.drop_last() == before);
    assert(with_head.last() == head);
    column_pieces_are_silent(change.kind, change.columns);
    let columns = pieces(columns_lines(change.kind, change.columns));
    silent_lines_tell_nothing(with_head, columns);
    change_pieces(change);
    assert(cleaned(pieces(change_lines(change))) == seq![head] + cleaned(columns));
    assert(before + cleaned(pieces(change_lines(change))) == with_head + cleaned(columns));
}

/// The pieces of the lines of changes tell of their rows.
proof fn changes_are_told(before: Seq<Seq<char>>, changes: Seq<RowModel>, names: Seq<Seq<char>>)
    requires
        told_by(before) is Ok,
        changes.len() > 0 ==> names_are_readable(names),
        forall|i: int|
            0 <= i < changes.len() ==> change_is_readable(#[trigger] changes[i], names),
        forall|i: int| 0 <= i < changes.len() ==> change_is_shown(#[trigger] changes[i]),
    ensures
        told_by(before) matches Ok((columns, rows)) && told_by(
            before + cleaned(pieces(changes_lines(changes))),
        ) == Ok::<(Option<Seq<Seq<char>>>, Seq<SelectorModel>), Seq<char>>(
            (columns, rows + selectors_in(changes)),
        ),
    decreases changes.len(),
{
    let rows = told_by(before)->Ok_0.1;
    if changes.len() == 0 {
        assert(before + cleaned(pieces(changes_lines(changes))) == before);
        assert(rows + selectors_in(changes) == rows);
    } else {
        let rest = changes.drop_last();
        let last = changes.last();
        assert forall|i: int| 0 <= i < rest.len() implies change_is_readable(
            #[trigger] rest[i],
            names,
        ) && change_is_shown(rest[i]) by {
            assert(rest[i] == changes[i]);
        }
        changes_are_told(before, rest, names);
        let upto = before + cleaned(pieces(changes_lines(rest)));
        assert(changes[changes.len() - 1] == last);
        assert(change_is_readable(last, names) && change_is_shown(last));
        change_is_told(upto, last, names);
        pieces_of_both(changes_lines(rest), change_lines(last));
        cleaned_of_both(pieces(changes_lines(rest)), pieces(change_lines(last)));
        assert(before + cleaned(pieces(changes_lines(changes))) == upto + cleaned(
            pieces(change_lines(last)),
        ));
        assert((rows + selectors_in(rest)).push(
            SelectorModel { key: last.key, occurrence: last.occurrence },
        ) == rows + selectors_in(changes));
    }
}

/// The names that the line of the key columns is read as.
spec fn listed(names: Seq<Seq<char>>) -> Seq<Seq<char>> {
    split_by(joined(names, ", "@), ", "@)
}

/// The line of the key columns tells of them.
proof fn keys_line_is_read_back(names: Seq<Seq<char>>)
    requires
        names.len() > 0,
        each_on_one_line(names),
        ends_without_return(names.last()),
    ensures
        ({
            let line = "keys: "@ + joined(names, ", "@);
            &&& key_columns_in(line) == Some(listed(names))
            &&& without_return(line) == line
            &&& line.len() > 0
            &&& !line.contains('\n')
        }),
        joined(listed(names), ", "@) == joined(names, ", "@),
        names_are_listed(names) ==> listed(names) == names,
{
    reveal_strlit("keys: ");
    reveal_strlit(", ");
    let text = joined(names, ", "@);
    let line = "keys: "@ + text;
    assert(line.subrange(0, 6) == "keys: "@);
    assert("keys: "@.is_prefix_of(line));
    assert(line.skip(6) == text);
    pieces_are_joined(text, ", "@);
    assert(", "@ == seq![',', ' ']);
    if names_are_listed(names) {
        joined_names_split(names, ", "@);
    }
    let last = names.last();
    if last.len() > 0 {
        assert(line.last() == last.last());
    } else if names.len() == 1 {
        assert(line.last() == ' ');
    } else {
        assert(text.last() == ' ');
        assert(line.last() == ' ');
    }
    joined_on_one_line(names, ", "@);
    both_on_one_line("keys: "@, text);
}

proof fn name_lines_are_silent(words: Seq<char>, names: Seq<Seq<char>>)
    requires
        words.len() >= 2,
        words[0] == '-' || words[0] == '+',
    ensures
        forall|i: int|
            0 <= i < name_lines(words, names).len() ==> is_silent(
                #[trigger] name_lines(words, names)[i],
            ) && name_lines(words, names)[i].len() > 0,
{
    assert forall|i: int| 0 <= i < names.len() implies is_silent(
        #[trigger] name_lines(words, names)[i],
    ) && name_lines(words, names)[i].len() > 0 by {
        other_beginnings_are_silent(name_lines(words, names)[i]);
    }
}

proof fn missing_lines_are_silent(report: ReportModel)
    ensures
        forall|i: int|
            0 <= i < missing_lines(report).len() ==> is_silent(#[trigger] missing_lines(report)[i])
                && missing_lines(report)[i].len() > 0,
{
    reveal_strlit("@@ missing key columns @@");
    reveal_strlit("- left is missing key column ");
    reveal_strlit("+ right is missing key column ");
    name_lines_are_silent("- left is missing key column "@, report.missing_left);
    name_lines_are_silent("+ right is missing key column "@, report.missing_right);
    let first = name_lines("- left is missing key column "@, report.missing_left);
    let second = name_lines("+ right is missing key column "@, report.missing_right);
    let all = missing_lines(report);
    assert forall|i: int| 0 <= i < all.len() implies is_silent(#[trigger] all[i]) && all[i].len()
        > 0 by {
        if i == 0 {
            other_beginnings_are_silent(all[0]);
        } else if i <= first.len() {
            assert(all[i] == first[i - 1]);
        } else {
            assert(all[i] == second[i - 1 - first.len()]);
        }
    }
}

proof fn header_lines_are_silent(report: ReportModel)
    ensures
        forall|i: int|
            0 <= i < header_lines(report).len() ==> is_silent(#[trigger] header_lines(report)[i])
                && header_lines(report)[i].len() > 0,
{
    reveal_strlit("@@ header differences @@");
    reveal_strlit("- column only in left: ");
    reveal_strlit("+ column only in right: ");
    name_lines_are_silent("- column only in left: "@, report.only_left);
    name_lines_are_silent("+ column only in right: "@, report.only_right);
    let first = name_lines("- column only in left: "@, report.only_left);
    let second = name_lines("+ column only in right: "@, report.only_right);
    let all = header_lines(report);
    assert forall|i: int| 0 <= i < all.len() implies is_silent(#[trigger] all[i]) && all[i].len()
        > 0 by {
        if i == 0 {
            other_beginnings_are_silent(all[0]);
        } else if i <= first.len() {
            assert(all[i] == first[i - 1]);
        } else {
            assert(all[i] == second[i - 1 - first.len()]);
        }
    }
}

/// The last line of a report.
spec fn end_lines(report: ReportModel) -> Seq<Seq<char>> {
    if differs(report) {
        Seq::empty()
    } else {
        seq!["no differences"@]
    }
}

/// The pieces of the line of a path tell of no row.
proof fn path_pieces_name_no_row(words: Seq<char>, path: Seq<char>)
    requires
        words == "--- "@ || words == "+++ "@,
        path_is_readable(path),
    ensures
        forall|k: int|
            0 <= k < split(words + path, '\n').len() ==> names_no_row(
                #[trigger] split(words + path, '\n')[k],
            ),
{
    reveal_strlit("--- ");
    reveal_strlit("+++ ");
    split_has_a_piece(path, '\n');
    split_behind(words, '\n', path);
    let found = split(words + path, '\n');
    assert forall|k: int| 0 <= k < found.len() implies names_no_row(#[trigger] found[k]) by {
        if k == 0 {
            assert(found[0][0] == words[0]);
            other_beginnings_are_silent(found[0]);
        } else {
            assert(found[k] == split(path, '\n')[k]);
        }
    }
}

/// Lines that name no row tell of no row.
proof fn no_row_is_told(told: Seq<Seq<char>>)
    requires
        forall|k: int| 0 <= k < told.len() ==> names_no_row(#[trigger] told[k]),
    ensures
        told_by(cleaned(told)) matches Ok((_, rows)) && rows == Seq::<SelectorModel>::empty(),
    decreases told.len(),
{
    if told.len() > 0 {
        let rest = told.drop_last();
        assert forall|k: int| 0 <= k < rest.len() implies names_no_row(#[trigger] rest[k]) by {
            assert(rest[k] == told[k]);
        }
        no_row_is_told(rest);
        assert(cleaned(told).drop_last() == cleaned(rest));
        assert(names_no_row(told[told.len() - 1]));
        shorter_begins_alike("@@ key ["@, told.last());
        assert(cleaned(told).last() == without_return(told.last()));
    }
}

/// The pieces of the first lines of a readable report tell of its key columns.
proof fn head_tells(report: ReportModel)
    requires
        is_readable(report),
    ensures
        told_by(cleaned(pieces(head_lines(report)))) == Ok::<
            (Option<Seq<Seq<char>>>, Seq<SelectorModel>),
            Seq<char>,
        >((Some(listed(report.key_columns)), Seq::empty())),
{
    let left = "--- "@ + report.left_path;
    let right = "+++ "@ + report.right_path;
    let line = "keys: "@ + joined(report.key_columns, ", "@);
    let paths = split(left, '\n') + split(right, '\n');
    path_pieces_name_no_row("--- "@, report.left_path);
    path_pieces_name_no_row("+++ "@, report.right_path);
    assert forall|k: int| 0 <= k < paths.len() implies names_no_row(#[trigger] paths[k]) by {
        if k < split(left, '\n').len() {
            assert(paths[k] == split(left, '\n')[k]);
        } else {
            assert(paths[k] == split(right, '\n')[k - split(left, '\n').len()]);
        }
    }
    no_row_is_told(paths);
    keys_line_is_read_back(report.key_columns);
    split_without_separator(line, '\n');
    let lines = head_lines(report);
    assert(lines == seq![left, right, line]);
    assert(lines.drop_last() == seq![left, right]);
    assert(lines.drop_last().drop_last() == seq![left]);
    assert(lines.drop_last().drop_last().drop_last() == Seq::<Seq<char>>::empty());
    reveal_with_fuel(pieces, 4);
    assert(pieces(lines) == paths.push(line));
    assert(cleaned(paths.push(line)) == cleaned(paths).push(line));
    assert(cleaned(paths).push(line).drop_last() == cleaned(paths));
}

/// Whether what a report shows between quotes, and the heads of its changes, stand on one line
/// each.
pub open spec fn is_shown(report: ReportModel) -> bool {
    &&& each_on_one_line(missing_lines(report))
    &&& each_on_one_line(header_lines(report))
    &&& forall|i: int|
        0 <= i < report.changes.len() ==> change_is_shown(#[trigger] report.changes[i])
}

/// The pieces of the lines of a report.
proof fn report_pieces(report: ReportModel)
    requires
        is_shown(report),
    ensures
        pieces(report_lines(report)) == pieces(head_lines(report)) + missing_lines(report)
            + header_lines(report) + pieces(changes_lines(report.changes)) + end_lines(report),
{
    reveal_strlit("no differences");
    let head = head_lines(report);
    let missing = missing_lines(report);
    let headers = header_lines(report);
    let changes = changes_lines(report.changes);
    pieces_of_both(head, missing);
    pieces_of_both(head + missing, headers);
    pieces_of_both(head + missing + headers, changes);
    pieces_of_both(head + missing + headers + changes, end_lines(report));
    pieces_on_one_line(missing);
    pieces_on_one_line(headers);
    pieces_on_one_line(end_lines(report));
}

/// The pieces of a readable report, without carriage returns at their ends, tell of its rows.
proof fn cleaned_pieces_tell(report: ReportModel)
    requires
        is_readable(report),
        is_shown(report),
    ensures
        told_by(cleaned(pieces(report_lines(report)))) == Ok::<
            (Option<Seq<Seq<char>>>, Seq<SelectorModel>),
            Seq<char>,
        >((Some(listed(report.key_columns)), selectors_in(report.changes))),
{
    reveal_strlit("no differences");
    head_tells(report);
    let first = cleaned(pieces(head_lines(report)));
    missing_lines_are_silent(report);
    silent_lines_tell_nothing(first, missing_lines(report));
    let second = first + cleaned(missing_lines(report));
    header_lines_are_silent(report);
    silent_lines_tell_nothing(second, header_lines(report));
    let third = second + cleaned(header_lines(report));
    changes_are_told(third, report.changes, report.key_columns);
    let fourth = third + cleaned(pieces(changes_lines(report.changes)));
    let end = end_lines(report);
    assert forall|i: int| 0 <= i < end.len() implies is_silent(#[trigger] end[i]) by {
        other_beginnings_are_silent(end[i]);
    }
    silent_lines_tell_nothing(fourth, end);
    assert(Seq::<SelectorModel>::empty() + selectors_in(report.changes) == selectors_in(
        report.changes,
    ));
    report_pieces(report);
    assert(cleaned(pieces(report_lines(report))) == fourth + cleaned(end));
}

/// The last piece of a report is not empty, and tells the same without a carriage return at its
/// end.
proof fn last_piece_tells(report: ReportModel)
    requires
        is_readable(report),
        is_shown(report),
    ensures
        ({
            let line = pieces(report_lines(report)).last();
            &&& pieces(report_lines(report)).len() > 0
            &&& line.len() > 0
            &&& key_columns_in(line) == key_columns_in(without_return(line))
            &&& selector_in(line) == selector_in(without_return(line))
        }),
{
    reveal_strlit("no differences");
    report_pieces(report);
    let line = pieces(report_lines(report)).last();
    let end = end_lines(report);
    let headers = header_lines(report);
    let missing = missing_lines(report);
    if end.len() > 0 {
        assert(line == end.last());
        other_beginnings_are_silent(line);
        silent_says_nothing(line);
    } else if report.changes.len() > 0 {
        let last = report.changes.last();
        let columns = columns_lines(last.kind, last.columns);
        let found = pieces(columns);
        assert(report.changes[report.changes.len() - 1] == last);
        assert(change_is_readable(last, report.key_columns) && change_is_shown(last));
        change_pieces(last);
        pieces_of_both(changes_lines(report.changes.drop_last()), change_lines(last));
        assert(line == pieces(change_lines(last)).last());
        column_pieces_are_silent(last.kind, last.columns);
        if found.len() > 0 {
            assert(columns.len() > 0);
            assert(line == found[found.len() - 1]);
            silent_says_nothing(line);
        } else {
            shown_key_is_readable(last, report.key_columns);
            head_is_read_back(last);
            assert(line == change_head(last));
        }
    } else {
        assert(pieces(changes_lines(report.changes)) == Seq::<Seq<char>>::empty());
        if headers.len() > 0 {
            header_lines_are_silent(report);
            assert(line == headers[headers.len() - 1]);
            silent_says_nothing(line);
        } else {
            missing_lines_are_silent(report);
            assert(missing.len() > 0);
            assert(line == missing[missing.len() - 1]);
            silent_says_nothing(line);
        }
    }
}

/// The rows that a readable report tells of, and its key columns, are read back from its text.
pub(crate) proof fn report_is_read_back(report: ReportModel)
    requires
        is_readable(report),
        is_shown(report),
    ensures
        selection_of(joined(report_lines(report), "\n"@)) == Ok::<SelectionModel, Seq<char>>(
            selection_in(report),
        ),
{
    reveal_strlit("\n");
    assert("\n"@ == seq!['\n']);
    let all = report_lines(report);
    let found = pieces(all);
    last_piece_tells(report);
    assert(all.len() > 0);
    joined_lines_are_lines(all, "\n"@);
    let read = lines(joined(all, "\n"@));
    let clean = cleaned(found);
    cleaned_pieces_tell(report);
    assert(read.drop_last() == clean.drop_last());
    assert(clean.last() == without_return(found.last()));
    assert(told_by(read) == told_by(clean));
    keys_line_is_read_back(report.key_columns);
    assert(columns_meant(listed(report.key_columns), selectors_in(report.changes))
        == report.key_columns) by {
        if report.changes.len() > 0 {
            assert(change_is_readable(report.changes[0], report.key_columns));
            assert(names_of(report.changes[0].key).len() == report.key_columns.len());
        }
    }
    assert(selectors_match(selection_in(report))) by {
        assert forall|i: int| 0 <= i < report.changes.len() implies names_of(
            (#[trigger] selection_in(report).rows[i]).key,
        ) == report.key_columns by {
            assert(change_is_readable(report.changes[i], report.key_columns));
        }
    }
}

/// The last line of a text ends as the text does.
proof fn last_piece_ends_alike(text: Seq<char>)
    requires
        text.len() > 0,
        text.last() != '\n',
    ensures
        split(text, '\n').last().len() > 0,
        split(text, '\n').last().last() == text.last(),
{
    split_has_a_piece(text.drop_last(), '\n');
}

/// Lines that are joined end with the words for no differences just where these are the last
/// line: what is shown of a difference ends otherwise.
pub(crate) proof fn last_line_shows(all: Seq<Seq<char>>, differ: bool)
    requires
        if differ {
            ends_shown(all)
        } else {
            all.len() > 0 && all.last() == "no differences"@
        },
    ensures
        joined(all, "\n"@).last() != '\n',
        lines(joined(all, "\n"@)).last() == "no differences"@ <==> !differ,
{
    reveal_strlit("\n");
    reveal_strlit("no differences");
    assert("\n"@ == seq!['\n']);
    let last = all.last();
    let text = joined(all, "\n"@);
    let found = split(last, '\n');
    joined_lines_split(all, "\n"@);
    split_has_a_piece(last, '\n');
    assert(pieces(all).last() == found.last());
    assert(text.last() == last.last());
    last_piece_ends_alike(last);
    assert(split(text, '\n').last() == found.last());
    assert(lines(text).last() == found.last());
    if !differ {
        split_without_separator(last, '\n');
    }
}

/// Every row is among the rows with its key, at the place that its occurrence says.
pub proof fn row_is_in_its_group<K>(keys: Seq<K>, row: int)
    requires
        0 <= row < keys.len(),
    ensures
        occurrence_of(keys, row) < places_of_key(keys, keys[row]).len(),
        places_of_key(keys, keys[row])[occurrence_of(keys, row) as int] == row,
    decreases keys.len(),
{
    let rest = keys.drop_last();
    let key = keys[row];
    if row == keys.len() - 1 {
        assert(keys.take(row) == rest);
        assert(keys.last() == key);
    } else {
        assert(rest[row] == key);
        row_is_in_its_group(rest, row);
        assert(rest.take(row) == keys.take(row));
        let before = places_of_key(rest, key);
        assert(places_of_key(keys, key)[occurrence_of(keys, row) as int] == before[occurrence_of(
            rest,
            row,
        ) as int]);
    }
}

/// An item of a list is among its distinct items.
proof fn distinct_holds<T>(list: Seq<T>, place: int)
    requires
        0 <= place < list.len(),
    ensures
        distinct(list).contains(list[place]),
    decreases list.len(),
{
    let before = distinct(list.drop_last());
    if place < list.len() - 1 {
        distinct_holds(list.drop_last(), place);
        let k = choose|k: int| 0 <= k < before.len() && before[k] == list.drop_last()[place];
        assert(distinct(list)[k] == list[place]);
    } else if before.contains(list.last()) {
    } else {
        assert(distinct(list)[before.len() as int] == list.last());
    }
}

/// The changes of a key are those of the places at which the groups differ.
pub(crate) proof fn changes_of_key_are(
    left: CsvModel,
    right: CsvModel,
    key_columns: Seq<Seq<char>>,
    key: Seq<(Seq<char>, Seq<char>)>,
    count: int,
)
    ensures
        forall|m: int|
            0 <= m < changes_of_key(left, right, key_columns, key, count).len() ==> ({
                let change = #[trigger] changes_of_key(left, right, key_columns, key, count)[m];
                &&& change.occurrence < count
                &&& change_at(left, right, key_columns, key, change.occurrence as int) == Some(
                    change,
                )
            }),
        forall|at: int|
            0 <= at < count && (#[trigger] change_at(left, right, key_columns, key, at)) is Some
                ==> changes_of_key(left, right, key_columns, key, count).contains(
                change_at(left, right, key_columns, key, at)->0,
            ),
    decreases count,
{
    if count > 0 {
        changes_of_key_are(left, right, key_columns, key, count - 1);
        let before = changes_of_key(left, right, key_columns, key, count - 1);
        let all = changes_of_key(left, right, key_columns, key, count);
        let last = change_at(left, right, key_columns, key, count - 1);
        assert forall|m: int| 0 <= m < all.len() implies ({
            let change = #[trigger] all[m];
            &&& change.occurrence < count
            &&& change_at(left, right, key_columns, key, change.occurrence as int) == Some(change)
        }) by {
            if m < before.len() {
                assert(all[m] == before[m]);
            }
        }
        assert forall|at: int|
            0 <= at < count && (#[trigger] change_at(
                left,
                right,
                key_columns,
                key,
                at,
            )) is Some implies all.contains(change_at(left, right, key_columns, key, at)->0) by {
            let wanted = change_at(left, right, key_columns, key, at)->0;
            if at < count - 1 {
                let k = choose|k: int| 0 <= k < before.len() && before[k] == wanted;
                assert(all[k] == wanted);
            } else {
                assert(all[before.len() as int] == wanted);
            }
        }
    }
}

/// A row is told of just where the key is one of the keys and the groups differ there.
proof fn changes_of_keys_are(
    left: CsvModel,
    right: CsvModel,
    key_columns: Seq<Seq<char>>,
    keys: Seq<Seq<(Seq<char>, Seq<char>)>>,
    key: Seq<(Seq<char>, Seq<char>)>,
    at: int,
)
    requires
        0 <= at,
    ensures
        selectors_in(changes_of_keys(left, right, key_columns, keys)).contains(
            SelectorModel { key, occurrence: at as nat },
        ) <==> keys.contains(key) && at < occurrences(left, right, key_columns, key)
            && change_at(left, right, key_columns, key, at) is Some,
    decreases keys.len(),
{
    let wanted = SelectorModel { key, occurrence: at as nat };
    let all = changes_of_keys(left, right, key_columns, keys);
    if keys.len() > 0 {
        let rest = keys.drop_last();
        let last = keys.last();
        let count = occurrences(left, right, key_columns, last);
        let before = changes_of_keys(left, right, key_columns, rest);
        let own = changes_of_key(left, right, key_columns, last, count);
        changes_of_keys_are(left, right, key_columns, rest, key, at);
        changes_of_key_are(left, right, key_columns, last, count);
        assert(all == before + own);
        assert(selectors_in(all) == selectors_in(before) + selectors_in(own));
        if selectors_in(all).contains(wanted) {
            let m = choose|m: int| 0 <= m < all.len() && selectors_in(all)[m] == wanted;
            if m < before.len() {
                assert(selectors_in(before)[m] == wanted);
                let k = choose|k: int| 0 <= k < rest.len() && rest[k] == key;
                assert(keys[k] == key);
            } else {
                let change = own[m - before.len()];
                assert(all[m] == change);
                assert(change.key == key && change.occurrence == at);
                assert(keys[keys.len() - 1] == key);
            }
        }
        if keys.contains(key) && at < occurrences(left, right, key_columns, key) && change_at(
            left,
            right,
            key_columns,
            key,
            at,
        ) is Some {
            if last == key {
                let change = change_at(left, right, key_columns, key, at)->0;
                let k = choose|k: int| 0 <= k < own.len() && own[k] == change;
                assert(selectors_in(all)[before.len() + k] == wanted);
            } else {
                let k = choose|k: int| 0 <= k < keys.len() && keys[k] == key;
                assert(rest[k] == key);
                let m = choose|m: int|
                    0 <= m < selectors_in(before).len() && selectors_in(before)[m] == wanted;
                assert(selectors_in(all)[m] == wanted);
            }
        }
    }
}

/// Whether a row of the left table differs from the row of the right table with the same key
/// and the same occurrence, or has none.
pub open spec fn left_row_differs(
    left: CsvModel,
    right: CsvModel,
    key_columns: Seq<Seq<char>>,
    row: int,
) -> bool {
    let keys = keys_of(left, key_columns);
    let others = group_of(right, key_columns, keys[row]);
    let at = occurrence_of(keys, row) as int;
    at >= others.len() || changes_in(
        left,
        right,
        left.rows[row],
        others[at],
        distinct(left.headers + right.headers),
    ).len() > 0
}

/// Whether a row of the right table differs from the row of the left table with the same key
/// and the same occurrence, or has none.
pub open spec fn right_row_differs(
    left: CsvModel,
    right: CsvModel,
    key_columns: Seq<Seq<char>>,
    row: int,
) -> bool {
    let keys = keys_of(right, key_columns);
    let others = group_of(left, key_columns, keys[row]);
    let at = occurrence_of(keys, row) as int;
    at >= others.len() || changes_in(
        left,
        right,
        others[at],
        right.rows[row],
        distinct(left.headers + right.headers),
    ).len() > 0
}

/// Whether both tables have the key columns.
pub open spec fn have_key_columns(
    left: CsvModel,
    right: CsvModel,
    key_columns: Seq<Seq<char>>,
) -> bool {
    names_without(key_columns, left.headers).len() == 0 && names_without(
        key_columns,
        right.headers,
    ).len() == 0
}

/// By the report on two tables, just those rows of the left one are taken that differ from
/// their row in the right one or have none there.
pub proof fn differing_left_rows_are_selected(
    left: CsvModel,
    right: CsvModel,
    key_columns: Seq<Seq<char>>,
    row: int,
)
    requires
        have_key_columns(left, right, key_columns),
        0 <= row < left.rows.len(),
    ensures
        is_selected(left, selection_in(report_of(left, right, key_columns)), row)
            <==> left_row_differs(left, right, key_columns, row),
{
    let keys = keys_of(left, key_columns);
    let key = keys[row];
    let at = occurrence_of(keys, row) as int;
    row_is_in_its_group(keys, row);
    let order = key_order(left, right, key_columns);
    let all_keys = keys + keys_of(right, key_columns);
    assert(all_keys[row] == key);
    distinct_holds(all_keys, row);
    changes_of_keys_are(left, right, key_columns, order, key, at);
    let group = group_of(left, key_columns, key);
    assert(group[at] == left.rows[row]);
}

/// By the report on two tables, just those rows of the right one are taken that differ from
/// their row in the left one or have none there.
pub proof fn differing_right_rows_are_selected(
    left: CsvModel,
    right: CsvModel,
    key_columns: Seq<Seq<char>>,
    row: int,
)
    requires
        have_key_columns(left, right, key_columns),
        0 <= row < right.rows.len(),
    ensures
        is_selected(right, selection_in(report_of(left, right, key_columns)), row)
            <==> right_row_differs(left, right, key_columns, row),
{
    let keys = keys_of(right, key_columns);
    let key = keys[row];
    let at = occurrence_of(keys, row) as int;
    row_is_in_its_group(keys, row);
    let order = key_order(left, right, key_columns);
    let left_keys = keys_of(left, key_columns);
    let all_keys = left_keys + keys;
    assert(all_keys[left_keys.len() + row] == key);
    distinct_holds(all_keys, left_keys.len() + row);
    changes_of_keys_are(left, right, key_columns, order, key, at);
    let group = group_of(right, key_columns, key);
    assert(group[at] == right.rows[row]);
}

/// A table that has the key columns does not differ from itself.
pub proof fn table_is_like_itself(csv: CsvModel, key_columns: Seq<Seq<char>>)
    requires
        have_key_columns(csv, csv, key_columns),
    ensures
        !differs(report_of(csv, csv, key_columns)),
{
    all_names_are_there(csv.headers, csv.headers);
    let order = key_order(csv, csv, key_columns);
    no_changes_with_itself(csv, key_columns, order);
}

proof fn all_names_are_there(names: Seq<Seq<char>>, others: Seq<Seq<char>>)
    requires
        forall|i: int| 0 <= i < names.len() ==> others.contains(#[trigger] names[i]),
    ensures
        names_without(names, others).len() == 0,
    decreases names.len(),
{
    if names.len() > 0 {
        let rest = names.drop_last();
        assert forall|i: int| 0 <= i < rest.len() implies others.contains(#[trigger] rest[i]) by {
            assert(rest[i] == names[i]);
        }
        all_names_are_there(rest, others);
        assert(others.contains(names[names.len() - 1]));
    }
}

proof fn no_column_changes(csv: CsvModel, row: Seq<Seq<char>>, columns: Seq<Seq<char>>)
    ensures
        changes_in(csv, csv, row, row, columns).len() == 0,
    decreases columns.len(),
{
    if columns.len() > 0 {
        no_column_changes(csv, row, columns.drop_last());
    }
}

proof fn no_changes_of_key(
    csv: CsvModel,
    key_columns: Seq<Seq<char>>,
    key: Seq<(Seq<char>, Seq<char>)>,
    count: int,
)
    requires
        count <= group_of(csv, key_columns, key).len(),
    ensures
        changes_of_key(csv, csv, key_columns, key, count).len() == 0,
    decreases count,
{
    if count > 0 {
        no_changes_of_key(csv, key_columns, key, count - 1);
        let group = group_of(csv, key_columns, key);
        no_column_changes(csv, group[count - 1], distinct(csv.headers + csv.headers));
    }
}

proof fn no_changes_with_itself(
    csv: CsvModel,
    key_columns: Seq<Seq<char>>,
    keys: Seq<Seq<(Seq<char>, Seq<char>)>>,
)
    ensures
        changes_of_keys(csv, csv, key_columns, keys).len() == 0,
    decreases keys.len(),
{
    if keys.len() > 0 {
        no_changes_with_itself(csv, key_columns, keys.drop_last());
        no_changes_of_key(
            csv,
            key_columns,
            keys.last(),
            group_of(csv, key_columns, keys.last()).len() as int,
        );
    }
}

} // verus!
