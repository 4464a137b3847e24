//! What holds of the files that a table is split into.
use vstd::prelude::*;

verus! {

use crate::csv_key_diff::{places_of_key, places_of_key_in_range, CsvModel};
use crate::csv_key_diff_extract::occurrence_of;
use crate::csv_label_split::{
    bare_back, bare_front, base_name_of, file_name_of, files_of, is_name_char, label_in_name,
    labels_of, rows_with_label, sorted_labels, sorted_labels_are_sorted, with_underscores, without,
    FileModel,
};
use crate::csv_text::csv_text_of;
use crate::diff_laws::row_is_in_its_group;
use crate::list_laws::{
    are_all_wanted, first_is_unique, found_at_first_place, is_first_at, places_are_all_places,
};
use crate::ordering::{text_before, text_before_irreflexive};
use crate::text::{
    decimal, digit_value, digits_value, first_place, lowered, repeated, trimmed, zero_padded,
    NumberError,
};
use crate::text_laws::{decimal_digits, parted_behind};

/// There is one file for each label that some row has.
pub proof fn one_file_for_each_label(csv: CsvModel, column: Seq<char>, base: Seq<char>)
    ensures
        files_of(csv, column, base) matches Ok(files) ==> {
            let index = first_place(csv.headers, column);
            let labels = labels_of(csv.rows, index, column)->Ok_0;
            let sorted = sorted_labels(labels);
            &&& files.len() == sorted.len()
            &&& sorted.no_duplicates()
            &&& forall|label: Seq<char>|
                #![trigger sorted.contains(label)]
                #![trigger labels.contains(label)]
                sorted.contains(label) <==> labels.contains(label)
        },
{
    if let Ok(files) = files_of(csv, column, base) {
        let index = first_place(csv.headers, column);
        let labels = labels_of(csv.rows, index, column)->Ok_0;
        let sorted = sorted_labels(labels);
        sorted_labels_are_sorted(labels);
        assert forall|i: int, j: int|
            0 <= i < sorted.len() && 0 <= j < sorted.len() && i != j implies sorted[i]
            != sorted[j] by {
            text_before_irreflexive(sorted[i]);
        }
    }
}

/// Every row stands, without its label, in the file of its label, and there in the place that it
/// has among the rows with that label.
pub proof fn row_stands_in_its_file(
    rows: Seq<Seq<Seq<char>>>,
    labels: Seq<Seq<char>>,
    index: int,
    row: int,
)
    requires
        labels.len() == rows.len(),
        0 <= row < rows.len(),
    ensures
        sorted_labels(labels).contains(labels[row]),
        ({
            let kept = rows_with_label(rows, labels, labels[row], index);
            let place = occurrence_of(labels, row) as int;
            place < kept.len() && kept[place] == without(rows[row], index)
        }),
{
    sorted_labels_are_sorted(labels);
    assert(labels.contains(labels[row]));
    row_is_in_its_group(labels, row);
}

/// Every row of a file is a row of the table that has the file's label, without it.
pub proof fn file_holds_only_rows_of_its_label(
    rows: Seq<Seq<Seq<char>>>,
    labels: Seq<Seq<char>>,
    label: Seq<char>,
    index: int,
    place: int,
)
    requires
        labels.len() == rows.len(),
        0 <= place < rows_with_label(rows, labels, label, index).len(),
    ensures
        exists|row: int|
            0 <= row < rows.len() && #[trigger] labels[row] == label && rows_with_label(
                rows,
                labels,
                label,
                index,
            )[place] == without(rows[row], index),
{
    places_of_key_in_range(labels, label);
    let row = places_of_key(labels, label)[place];
    assert(labels[row] == label);
}

/// A file has all the columns but that of the labels.
pub proof fn file_has_one_column_less(headers: Seq<Seq<char>>, index: int)
    requires
        0 <= index < headers.len(),
    ensures
        without(headers, index).len() == headers.len() - 1,
{
}

/// Whether a list is the other without the item at a place: the items before it stay where they
/// are, and those behind it move up by one.
pub open spec fn lacks_only(kept: Seq<Seq<char>>, list: Seq<Seq<char>>, at: int) -> bool {
    &&& 0 <= at < list.len()
    &&& kept.len() == list.len() - 1
    &&& forall|k: int| 0 <= k < at ==> #[trigger] kept[k] == list[k]
    &&& forall|k: int| at <= k < kept.len() ==> #[trigger] kept[k] == list[k + 1]
}

/// Only the column of the labels goes; all others stay, in order.
pub proof fn only_the_label_column_goes(list: Seq<Seq<char>>, index: int)
    requires
        0 <= index < list.len(),
    ensures
        without(list, index).len() == list.len() - 1,
        forall|k: int| 0 <= k < index ==> #[trigger] without(list, index)[k] == list[k],
        forall|k: int|
            index <= k < list.len() - 1 ==> #[trigger] without(list, index)[k] == list[k + 1],
{
}

/// Whether a row has a label at the place: a cell that is not blank.
pub open spec fn has_label(row: Seq<Seq<char>>, at: int) -> bool {
    0 <= at < row.len() && trimmed(row[at]).len() > 0
}

/// The labels are the cells of the label column without the white space around them; where a row
/// has none, that is said of the first such row.
pub proof fn labels_are_the_cells(rows: Seq<Seq<Seq<char>>>, index: int, column: Seq<char>)
    requires
        0 <= index,
    ensures
        match labels_of(rows, index, column) {
            Ok(labels) => labels.len() == rows.len() && forall|i: int|
                0 <= i < rows.len() ==> has_label(rows[i], index) && #[trigger] labels[i]
                    == trimmed(rows[i][index]),
            Err(message) => exists|bad: int|
                0 <= bad < rows.len() && !has_label(#[trigger] rows[bad], index) && (forall|i: int|
                    0 <= i < bad ==> has_label(#[trigger] rows[i], index)) && message == (
                if index >= rows[bad].len() {
                    "row is missing column value: "@ + column
                } else {
                    "row "@ + decimal((bad + 1) as nat) + " column "@ + column
                        + " must not be empty"@
                }),
        },
    decreases rows.len(),
{
    if rows.len() > 0 {
        let rest = rows.drop_last();
        let last = rows.len() - 1;
        labels_are_the_cells(rest, index, column);
        match labels_of(rest, index, column) {
            Ok(before) => {
                assert forall|i: int| 0 <= i < last implies has_label(#[trigger] rows[i], index) by {
                    assert(before[i] == trimmed(rest[i][index]));
                }
                if let Ok(labels) = labels_of(rows, index, column) {
                    assert forall|i: int| 0 <= i < rows.len() implies has_label(rows[i], index)
                        && #[trigger] labels[i] == trimmed(rows[i][index]) by {
                        if i < last {
                            assert(labels[i] == before[i]);
                        }
                    }
                } else {
                    assert(!has_label(rows[last], index));
                }
            },
            Err(message) => {
                let bad = choose|bad: int|
                    0 <= bad < rest.len() && !has_label(#[trigger] rest[bad], index) && (forall|i: int|
                        0 <= i < bad ==> has_label(#[trigger] rest[i], index)) && message == (
                    if index >= rest[bad].len() {
                        "row is missing column value: "@ + column
                    } else {
                        "row "@ + decimal((bad + 1) as nat) + " column "@ + column
                            + " must not be empty"@
                    });
                assert(rows[bad] == rest[bad]);
                assert(!has_label(rows[bad], index));
                assert forall|i: int| 0 <= i < bad implies has_label(#[trigger] rows[i], index) by {
                    assert(rows[i] == rest[i]);
                }
            },
        }
    }
}

/// Whether the records are those of the file of a label: the headers and the rows with the label,
/// in the order of the table, all without the label column.
pub open spec fn are_records_of(
    records: Seq<Seq<Seq<char>>>,
    csv: CsvModel,
    index: int,
    label: Seq<char>,
    places: Seq<int>,
) -> bool {
    &&& are_all_wanted(
        places,
        csv.rows.len() as int,
        |row: int| trimmed(csv.rows[row][index]) == label,
    )
    &&& records.len() == places.len() + 1
    &&& lacks_only(records[0], csv.headers, index)
    &&& forall|i: int|
        0 <= i < places.len() ==> lacks_only(
            #[trigger] records[i + 1],
            csv.rows[places[i]],
            index,
        )
}

/// Whether a file is that of a label: it has the label and the number in its name, and the rows
/// of the label for its contents.
pub open spec fn is_file_of(
    file: FileModel,
    csv: CsvModel,
    index: int,
    base: Seq<char>,
    label: Seq<char>,
    number: nat,
) -> bool {
    &&& file.name == base + "_"@ + zero_padded(number, 3) + "_"@ + label_in_name(label) + ".csv"@
    &&& exists|records: Seq<Seq<Seq<char>>>, places: Seq<int>| #[trigger]
        are_records_of(records, csv, index, label, places) && file.contents == csv_text_of(records)
}

/// Whether the names are the labels of the rows, each once and in order.
pub open spec fn are_labels_of(names: Seq<Seq<char>>, rows: Seq<Seq<Seq<char>>>, index: int) -> bool {
    &&& forall|i: int, j: int|
        0 <= i < j < names.len() ==> text_before(#[trigger] names[i], #[trigger] names[j])
    &&& forall|row: int|
        0 <= row < rows.len() ==> names.contains(trimmed((#[trigger] rows[row])[index]))
    &&& forall|i: int| 0 <= i < names.len() ==> is_label_in(#[trigger] names[i], rows, index)
}

/// Whether some row has the label.
pub open spec fn is_label_in(label: Seq<char>, rows: Seq<Seq<Seq<char>>>, index: int) -> bool {
    exists|row: int| 0 <= row < rows.len() && trimmed((#[trigger] rows[row])[index]) == label
}

/// A table is split into one file for each label in the first column with the asked name, in the
/// order of the labels: each has the headers and the rows with that label, in the order of the
/// table, without the label column.
pub proof fn table_is_split_by_the_label_column(
    csv: CsvModel,
    column: Seq<char>,
    base: Seq<char>,
    index: int,
)
    requires
        is_first_at(csv.headers, column, index),
    ensures
        match files_of(csv, column, base) {
            Ok(files) => {
                &&& forall|row: int|
                    0 <= row < csv.rows.len() ==> has_label(#[trigger] csv.rows[row], index)
                &&& exists|names: Seq<Seq<char>>| #[trigger]
                    are_labels_of(names, csv.rows, index) && names.len() == files.len()
                        && forall|i: int|
                        0 <= i < files.len() ==> is_file_of(
                            #[trigger] files[i],
                            csv,
                            index,
                            base,
                            names[i],
                            (i + 1) as nat,
                        )
            },
            Err(_) => exists|row: int|
                0 <= row < csv.rows.len() && !has_label(#[trigger] csv.rows[row], index),
        },
{
    assert(csv.headers.contains(column));
    found_at_first_place(csv.headers, column);
    first_is_unique(csv.headers, column, index, first_place(csv.headers, column));
    labels_are_the_cells(csv.rows, index, column);
    if let Ok(files) = files_of(csv, column, base) {
        let labels = labels_of(csv.rows, index, column)->Ok_0;
        let names = sorted_labels(labels);
        sorted_labels_are_sorted(labels);
        assert forall|row: int| 0 <= row < csv.rows.len() implies has_label(
            #[trigger] csv.rows[row],
            index,
        ) && names.contains(trimmed(csv.rows[row][index])) by {
            assert(labels[row] == trimmed(csv.rows[row][index]));
            assert(labels.contains(labels[row]));
        }
        assert forall|i: int| 0 <= i < names.len() implies is_label_in(
            #[trigger] names[i],
            csv.rows,
            index,
        ) by {
            assert(names.contains(names[i]));
            assert(labels.contains(names[i]));
            let row = choose|row: int| 0 <= row < labels.len() && labels[row] == names[i];
            assert(trimmed(csv.rows[row][index]) == names[i]);
        }
        assert(are_labels_of(names, csv.rows, index));
        assert forall|i: int| 0 <= i < files.len() implies is_file_of(
            #[trigger] files[i],
            csv,
            index,
            base,
            names[i],
            (i + 1) as nat,
        ) by {
            let label = names[i];
            let places = places_of_key(labels, label);
            let kept = rows_with_label(csv.rows, labels, label, index);
            let records = seq![without(csv.headers, index)] + kept;
            places_are_all_places(labels, label);
            let wanted = |row: int| trimmed(csv.rows[row][index]) == label;
            assert forall|k: int| 0 <= k < csv.rows.len() && #[trigger] wanted(k) implies places.contains(
                k,
            ) by {
                assert(labels[k] == label);
            }
            assert forall|k: int| 0 <= k < places.len() implies 0 <= #[trigger] places[k]
                < csv.rows.len() && wanted(places[k]) by {
                assert(labels[places[k]] == label);
            }
            only_the_label_column_goes(csv.headers, index);
            assert forall|k: int| 0 <= k < places.len() implies lacks_only(
                #[trigger] records[k + 1],
                csv.rows[places[k]],
                index,
            ) by {
                assert(has_label(csv.rows[places[k]], index));
                only_the_label_column_goes(csv.rows[places[k]], index);
            }
            assert(are_records_of(records, csv, index, label, places));
        }
    }
}

/// Where the label column is not there, that is what is said.
pub proof fn missing_label_column_is_told(csv: CsvModel, column: Seq<char>, base: Seq<char>)
    requires
        !csv.headers.contains(column),
    ensures
        files_of(csv, column, base) == Err::<Seq<FileModel>, Seq<char>>(
            "column not found: "@ + column,
        ),
{
}

proof fn zeros_do_not_count(zeros: int, digits: Seq<char>, max: int)
    requires
        0 <= zeros,
        0 <= max,
    ensures
        digits_value(repeated('0', zeros) + digits, 10, max) == digits_value(digits, 10, max),
    decreases zeros, digits.len(),
{
    let text = repeated('0', zeros) + digits;
    if digits.len() > 0 {
        zeros_do_not_count(zeros, digits.drop_last(), max);
        assert(text.drop_last() == repeated('0', zeros) + digits.drop_last());
        assert(text.last() == digits.last());
    } else if zeros > 0 {
        let less = repeated('0', zeros - 1);
        zeros_do_not_count(zeros - 1, digits, max);
        assert(text.drop_last() == less + digits);
        assert(text.last() == '0');
        assert(digit_value('0', 10) == Some(0int));
        assert(digits_value(digits, 10, max) == Ok::<int, NumberError>(0));
    } else {
        assert(text == digits);
    }
}

/// Files with different numbers have different names.
pub proof fn file_names_differ(
    base: Seq<char>,
    first: nat,
    first_label: Seq<char>,
    second: nat,
    second_label: Seq<char>,
)
    requires
        first != second,
    ensures
        file_name_of(base, first, first_label) != file_name_of(base, second, second_label),
{
    reveal_strlit("_");
    assert("_"@ == seq!['_']);
    let one = file_name_of(base, first, first_label);
    let other = file_name_of(base, second, second_label);
    if one == other {
        let a = zero_padded(first, 3);
        let b = zero_padded(second, 3);
        let a_tail = label_in_name(first_label) + ".csv"@;
        let b_tail = label_in_name(second_label) + ".csv"@;
        let skipped = base.len() + 1int;
        assert(one.skip(skipped) == a + seq!['_'] + a_tail);
        assert(other.skip(skipped) == b + seq!['_'] + b_tail);
        let max = if first < second {
            second as int
        } else {
            first as int
        };
        padded_has_no_underscore(first, max);
        padded_has_no_underscore(second, max);
        parted_behind(a, '_', a_tail);
        parted_behind(b, '_', b_tail);
        assert(a == b);
        zeros_do_not_count(zeros_before(first), decimal(first), max);
        zeros_do_not_count(zeros_before(second), decimal(second), max);
        padded_is(first);
        padded_is(second);
        decimal_digits(first, max);
        decimal_digits(second, max);
    }
}

/// How many zeros stand before a number in the name of a file.
spec fn zeros_before(number: nat) -> int {
    if decimal(number).len() < 3 {
        3 - decimal(number).len()
    } else {
        0
    }
}

proof fn padded_is(number: nat)
    ensures
        zero_padded(number, 3) == repeated('0', zeros_before(number)) + decimal(number),
{
}

proof fn padded_has_no_underscore(number: nat, max: int)
    requires
        number <= max,
    ensures
        !zero_padded(number, 3).contains('_'),
{
    decimal_digits(number, max);
    padded_is(number);
    let zeros = repeated('0', zeros_before(number));
    let text = zero_padded(number, 3);
    if text.contains('_') {
        let k = choose|k: int| 0 <= k < text.len() && text[k] == '_';
        if k < zeros.len() {
            assert(zeros[k] == '0');
        } else {
            assert(decimal(number)[k - zeros.len()] == '_');
        }
    }
}

/// Whether all characters of the text may stand in the name of a file.
pub open spec fn is_name(text: Seq<char>) -> bool {
    forall|i: int| 0 <= i < text.len() ==> is_name_char(#[trigger] text[i])
}

proof fn bare_front_is_name(text: Seq<char>)
    requires
        is_name(text),
    ensures
        is_name(bare_front(text)),
    decreases text.len(),
{
    if text.len() > 0 && text[0] == '_' {
        let rest = text.drop_first();
        assert forall|i: int| 0 <= i < rest.len() implies is_name_char(#[trigger] rest[i]) by {
            assert(rest[i] == text[i + 1]);
        }
        bare_front_is_name(rest);
    }
}

proof fn bare_back_is_name(text: Seq<char>)
    requires
        is_name(text),
    ensures
        is_name(bare_back(text)),
    decreases text.len(),
{
    if text.len() > 0 && text.last() == '_' {
        let rest = text.drop_last();
        assert forall|i: int| 0 <= i < rest.len() implies is_name_char(#[trigger] rest[i]) by {
            assert(rest[i] == text[i]);
        }
        bare_back_is_name(rest);
    }
}

/// A label in the name of a file is not empty, and has only letters, digits, hyphens and
/// underscores, whatever the label is.
pub proof fn label_in_name_is_a_name(label: Seq<char>)
    ensures
        label_in_name(label).len() > 0,
        is_name(label_in_name(label)),
{
    reveal_strlit("label");
    bare_front_is_name(with_underscores(label));
    bare_back_is_name(bare_front(with_underscores(label)));
}

/// Whether a character is an ASCII letter or digit, a hyphen or an underscore.
pub open spec fn may_stand_in_a_name(c: char) -> bool {
    ||| 'a' <= c <= 'z'
    ||| 'A' <= c <= 'Z'
    ||| '0' <= c <= '9'
    ||| c == '-'
    ||| c == '_'
}

/// Whether a character stands for another in the name of a file: it is the same, where that may
/// stand there, and an underscore else.
pub open spec fn stands_for(kept: char, c: char) -> bool {
    kept == (if may_stand_in_a_name(c) {
        c
    } else {
        '_'
    })
}

proof fn bare_front_drops_underscores(text: Seq<char>) -> (from: int)
    ensures
        0 <= from <= text.len(),
        bare_front(text) == text.skip(from),
        forall|k: int| 0 <= k < from ==> #[trigger] text[k] == '_',
        from < text.len() ==> text[from] != '_',
    decreases text.len(),
{
    if text.len() > 0 && text[0] == '_' {
        let rest = text.drop_first();
        let from = bare_front_drops_underscores(rest);
        assert(rest.skip(from) == text.skip(from + 1));
        assert forall|k: int| 0 <= k < from + 1 implies #[trigger] text[k] == '_' by {
            if k > 0 {
                assert(rest[k - 1] == text[k]);
            }
        }
        from + 1
    } else {
        assert(text.skip(0) == text);
        0
    }
}

proof fn bare_back_drops_underscores(text: Seq<char>) -> (to: int)
    ensures
        0 <= to <= text.len(),
        bare_back(text) == text.take(to),
        forall|k: int| to <= k < text.len() ==> #[trigger] text[k] == '_',
        to > 0 ==> text[to - 1] != '_',
    decreases text.len(),
{
    if text.len() > 0 && text.last() == '_' {
        let rest = text.drop_last();
        let to = bare_back_drops_underscores(rest);
        assert(rest.take(to) == text.take(to));
        assert forall|k: int| to <= k < text.len() implies #[trigger] text[k] == '_' by {
            if k < rest.len() {
                assert(rest[k] == text[k]);
            }
        }
        to
    } else {
        assert(text.take(text.len() as int) == text);
        text.len() as int
    }
}

/// Whether the name is the part of the label from one place to another, and what lies around it
/// is nothing but what an underscore stands for.
pub open spec fn is_core_of(name: Seq<char>, label: Seq<char>, from: int, to: int) -> bool {
    &&& 0 <= from < to <= label.len()
    &&& name.len() == to - from
    &&& forall|k: int| from <= k < to ==> stands_for(name[k - from], #[trigger] label[k])
    &&& forall|k: int|
        0 <= k < from || to <= k < label.len() ==> stands_for('_', #[trigger] label[k])
    &&& name[0] != '_'
    &&& name.last() != '_'
}

/// A label stands in the name of a file with an underscore for each character that may not stand
/// there, and without the underscores around it; a label of which nothing is left is "label".
pub proof fn label_in_name_shows_the_label(label: Seq<char>)
    ensures
        (exists|from: int, to: int| #[trigger] is_core_of(label_in_name(label), label, from, to))
            || (label_in_name(label) == "label"@ && forall|k: int|
            0 <= k < label.len() ==> stands_for('_', #[trigger] label[k])),
{
    let all = with_underscores(label);
    let from = bare_front_drops_underscores(all);
    let rest = all.skip(from);
    let count = bare_back_drops_underscores(rest);
    let to = from + count;
    assert forall|k: int| 0 <= k < label.len() implies stands_for(#[trigger] all[k], label[k]) by {}
    if count == 0 {
        assert forall|k: int| 0 <= k < label.len() implies stands_for('_', #[trigger] label[k]) by {
            assert(stands_for(all[k], label[k]));
            if k >= from {
                assert(rest[k - from] == all[k]);
            }
        }
    } else {
        let name = rest.take(count);
        assert(label_in_name(label) == name);
        assert forall|k: int| from <= k < to implies stands_for(
            name[k - from],
            #[trigger] label[k],
        ) by {
            assert(stands_for(all[k], label[k]));
        }
        assert forall|k: int| 0 <= k < from || to <= k < label.len() implies stands_for(
            '_',
            #[trigger] label[k],
        ) by {
            assert(stands_for(all[k], label[k]));
            if k >= to {
                assert(rest[k - from] == all[k]);
            }
        }
        assert(rest[count - 1] != '_');
        assert(is_core_of(name, label, from, to));
    }
}

/// Whether a name ends with an ending, in upper or lower case, and something is left without it.
pub open spec fn has_ending(name: Seq<char>, rest: Seq<char>, ending: Seq<char>) -> bool {
    name == rest + name.skip(rest.len() as int) && lowered(name.skip(rest.len() as int)) == ending
}

proof fn ending_is_found(name: Seq<char>, rest: Seq<char>, ending: Seq<char>)
    requires
        has_ending(name, rest, ending),
    ensures
        ending.is_suffix_of(lowered(name)),
        name.len() == rest.len() + ending.len(),
        name.take(name.len() - ending.len()) == rest,
{
    let tail = name.skip(rest.len() as int);
    assert(tail.len() == ending.len());
    assert(name.len() == rest.len() + ending.len());
    let low = lowered(name);
    assert(low.subrange(low.len() - ending.len(), low.len() as int) == ending);
    assert(name.take(name.len() - ending.len()) == rest);
}

/// The name of the input without its ending stands in front of the names of the files: the ending
/// is that of an archive or of a CSV file, in upper or lower case.
pub proof fn base_name_has_no_ending(name: Seq<char>, rest: Seq<char>, stem: Option<Seq<char>>)
    ensures
        has_ending(name, rest, ".tar.zst"@) ==> base_name_of(Some(name), stem) == rest,
        has_ending(name, rest, ".tzst"@) ==> base_name_of(Some(name), stem) == rest,
        has_ending(name, rest, ".tar"@) ==> base_name_of(Some(name), stem) == rest,
        has_ending(name, rest, ".csv"@) ==> base_name_of(Some(name), stem) == rest,
        has_ending(name, rest, ".zst"@) && !".tar"@.is_suffix_of(lowered(rest)) ==> base_name_of(
            Some(name),
            stem,
        ) == rest,
        !".zst"@.is_suffix_of(lowered(name)) && !".tzst"@.is_suffix_of(lowered(name))
            && !".tar"@.is_suffix_of(lowered(name)) && !".csv"@.is_suffix_of(lowered(name))
            ==> base_name_of(Some(name), stem) == (match stem {
            Some(stem) => stem,
            None => "output"@,
        }),
{
    reveal_strlit(".tar.zst");
    reveal_strlit(".tzst");
    reveal_strlit(".tar");
    reveal_strlit(".zst");
    reveal_strlit(".csv");
    let low = lowered(name);
    let end = low.len() as int;
    if ".tar.zst"@.is_suffix_of(low) {
        assert(low.subrange(end - 8, end) == ".tar.zst"@);
        assert(low.subrange(end - 4, end) == ".zst"@) by {
            assert(low.subrange(end - 4, end) == low.subrange(end - 8, end).subrange(4, 8));
            assert(".tar.zst"@.subrange(4, 8) == ".zst"@);
        }
        assert(".zst"@.is_suffix_of(low));
        assert(low[end - 1] == low.subrange(end - 8, end)[7]);
        assert(low[end - 5] == low.subrange(end - 8, end)[3]);
        if has_ending(name, rest, ".zst"@) {
            ending_is_found(name, rest, ".zst"@);
            let short = lowered(rest);
            assert(short == low.take(end - 4));
            assert(short.subrange(short.len() - 4, short.len() as int) == ".tar"@) by {
                assert(short.subrange(short.len() - 4, short.len() as int) == low.subrange(
                    end - 8,
                    end,
                ).subrange(0, 4));
                assert(".tar.zst"@.subrange(0, 4) == ".tar"@);
            }
            assert(".tar"@.is_suffix_of(short));
        }
    }
    if ".tzst"@.is_suffix_of(low) {
        assert(low.subrange(end - 5, end) == ".tzst"@);
        assert(low[end - 1] == low.subrange(end - 5, end)[4]);
        assert(low[end - 4] == low.subrange(end - 5, end)[1]);
        assert(low[end - 5] == low.subrange(end - 5, end)[0]);
    }
    if ".tar"@.is_suffix_of(low) {
        assert(low.subrange(end - 4, end) == ".tar"@);
        assert(low[end - 1] == low.subrange(end - 4, end)[3]);
    }
    if ".zst"@.is_suffix_of(low) {
        assert(low.subrange(end - 4, end) == ".zst"@);
        assert(low[end - 1] == low.subrange(end - 4, end)[3]);
        assert(low[end - 4] == low.subrange(end - 4, end)[0]);
    }
    if ".csv"@.is_suffix_of(low) {
        assert(low.subrange(end - 4, end) == ".csv"@);
        assert(low[end - 1] == low.subrange(end - 4, end)[3]);
    }
    if has_ending(name, rest, ".tar.zst"@) {
        ending_is_found(name, rest, ".tar.zst"@);
    }
    if has_ending(name, rest, ".tzst"@) {
        ending_is_found(name, rest, ".tzst"@);
    }
    if has_ending(name, rest, ".tar"@) {
        ending_is_found(name, rest, ".tar"@);
    }
    if has_ending(name, rest, ".csv"@) {
        ending_is_found(name, rest, ".csv"@);
    }
    if has_ending(name, rest, ".zst"@) {
        ending_is_found(name, rest, ".zst"@);
    }
}

} // verus!
