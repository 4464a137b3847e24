//! A table split by the values of one of its columns.
use vstd::prelude::*;

use crate::cells::{find_column_index, say_empty_cell, say_no_value};
use crate::csv_key_diff::CsvData;
use crate::csv_text::write_csv;
use crate::ordering::is_before;
use crate::text::{
    chars_of, ends_with, lower, pad_with_zeros, same_text, string_between, trim,
};

verus! {

use crate::cells::{empty_cell_text, no_column_text, no_value_text};
use crate::csv_key_diff::{places_of_key, CsvModel};
use crate::csv_text::{csv_text_of, text_result};
use crate::ordering::{text_before, text_before_total, text_before_transitive};
use crate::text::{
    first_place, lowered, text_rows, text_rows_push, texts, texts_push, trimmed, zero_padded,
};

/// A file to be written: its name, and its text or why it cannot be written.
#[derive(Debug, PartialEq, Eq)]
pub struct SplitFile {
    pub name: String,
    pub contents: Result<String, String>,
}

/// What a [`SplitFile`] says.
#[verifier::ext_equal]
pub struct FileModel {
    pub name: Seq<char>,
    pub contents: Result<Seq<char>, Seq<char>>,
}

impl View for SplitFile {
    type V = FileModel;

    open spec fn view(&self) -> FileModel {
        FileModel { name: self.name@, contents: text_result(self.contents) }
    }
}

/// What a list of files says.
pub open spec fn file_models(files: Seq<SplitFile>) -> Seq<FileModel> {
    Seq::new(files.len(), |i: int| files[i]@)
}

/// The label of a row, or why it has none.
pub open spec fn label_of(
    row: Seq<Seq<char>>,
    index: int,
    column: Seq<char>,
    row_index: int,
) -> Result<Seq<char>, Seq<char>> {
    if index >= row.len() {
        Err(no_value_text(column))
    } else if trimmed(row[index]).len() == 0 {
        Err(empty_cell_text(row_index, column))
    } else {
        Ok(trimmed(row[index]))
    }
}

/// The label of the row.
pub fn read_label(row: &Vec<String>, index: usize, column: &str, row_index: usize) -> (result: Result<
    String,
    String,
>)
    requires
        row_index < usize::MAX,
    ensures
        text_result(result) == label_of(texts(row@), index as int, column@, row_index as int),
{
    if index >= row.len() {
        return Err(say_no_value(column));
    }
    let label = trim(row[index].as_str());
    if label.as_str().is_empty() {
        return Err(say_empty_cell(row_index, column));
    }
    Ok(label)
}

/// The labels of the rows, or why the first row without one has none.
pub open spec fn labels_of(rows: Seq<Seq<Seq<char>>>, index: int, column: Seq<char>) -> Result<
    Seq<Seq<char>>,
    Seq<char>,
>
    decreases rows.len(),
{
    if rows.len() == 0 {
        Ok(Seq::empty())
    } else {
        match labels_of(rows.drop_last(), index, column) {
            Err(message) => Err(message),
            Ok(before) => match label_of(rows.last(), index, column, rows.len() - 1) {
                Err(message) => Err(message),
                Ok(label) => Ok(before.push(label)),
            },
        }
    }
}

proof fn labels_of_stops(
    rows: Seq<Seq<Seq<char>>>,
    index: int,
    column: Seq<char>,
    count: int,
)
    requires
        0 <= count <= rows.len(),
        labels_of(rows.take(count), index, column) is Err,
    ensures
        labels_of(rows, index, column) == labels_of(rows.take(count), index, column),
    decreases rows.len() - count,
{
    if count < rows.len() {
        assert(rows.take(count + 1).drop_last() == rows.take(count));
        labels_of_stops(rows, index, column, count + 1);
    } else {
        assert(rows.take(count) == rows);
    }
}

/// There is a label for each row.
pub proof fn a_label_for_each_row(rows: Seq<Seq<Seq<char>>>, index: int, column: Seq<char>)
    ensures
        labels_of(rows, index, column) matches Ok(labels) ==> labels.len() == rows.len(),
    decreases rows.len(),
{
    if rows.len() > 0 {
        a_label_for_each_row(rows.drop_last(), index, column);
    }
}

/// What a list of labels that may be missing says.
pub open spec fn labels_result(result: Result<Vec<String>, String>) -> Result<
    Seq<Seq<char>>,
    Seq<char>,
> {
    match result {
        Ok(labels) => Ok(texts(labels@)),
        Err(message) => Err(message@),
    }
}

/// The labels of the rows.
pub fn read_labels(rows: &Vec<Vec<String>>, index: usize, column: &str) -> (result: Result<
    Vec<String>,
    String,
>)
    ensures
        labels_result(result) == labels_of(text_rows(rows@), index as int, column@),
{
    let ghost all = text_rows(rows@);
    let mut labels: Vec<String> = Vec::new();
    assert(texts(labels@) == Seq::<Seq<char>>::empty());
    for i in 0..rows.len()
        invariant
            all == text_rows(rows@),
            labels_of(all.take(i as int), index as int, column@) == Ok::<
                Seq<Seq<char>>,
                Seq<char>,
            >(texts(labels@)),
    {
        let ghost upto = all.take(i + 1);
        assert(upto.drop_last() == all.take(i as int));
        assert(upto.last() == texts(rows@[i as int]@));
        match read_label(&rows[i], index, column, i) {
            Ok(label) => {
                proof {
                    texts_push(labels@, label);
                }
                labels.push(label);
            },
            Err(message) => {
                proof {
                    labels_of_stops(all, index as int, column@, i + 1);
                }
                return Err(message);
            },
        }
    }
    assert(all.take(all.len() as int) == all);
    Ok(labels)
}

/// The list with the label in its place, unless it is there.
pub open spec fn label_placed(list: Seq<Seq<char>>, label: Seq<char>) -> Seq<Seq<char>>
    decreases list.len(),
{
    if list.len() == 0 {
        list.push(label)
    } else if list.last() == label {
        list
    } else if text_before(label, list.last()) {
        label_placed(list.drop_last(), label).push(list.last())
    } else {
        list.push(label)
    }
}

/// The labels in order, each once.
pub open spec fn sorted_labels(labels: Seq<Seq<char>>) -> Seq<Seq<char>>
    decreases labels.len(),
{
    if labels.len() == 0 {
        labels
    } else {
        label_placed(sorted_labels(labels.drop_last()), labels.last())
    }
}

/// Each label comes before the next.
pub open spec fn labels_in_order(labels: Seq<Seq<char>>) -> bool {
    forall|i: int, j: int|
        0 <= i < j < labels.len() ==> text_before(#[trigger] labels[i], #[trigger] labels[j])
}

/// The labels are in order, so each stands there once, and they are those of the rows.
pub proof fn sorted_labels_are_sorted(labels: Seq<Seq<char>>)
    ensures
        labels_in_order(sorted_labels(labels)),
        forall|label: Seq<char>|
            #![trigger sorted_labels(labels).contains(label)]
            #![trigger labels.contains(label)]
            sorted_labels(labels).contains(label) <==> labels.contains(label),
    decreases labels.len(),
{
    if labels.len() > 0 {
        let rest = labels.drop_last();
        sorted_labels_are_sorted(rest);
        label_placed_keeps_order(sorted_labels(rest), labels.last());
        assert forall|label: Seq<char>|
            sorted_labels(labels).contains(label) <==> labels.contains(label) by {
            if labels.contains(label) {
                let k = choose|k: int| 0 <= k < labels.len() && labels[k] == label;
                if k < rest.len() {
                    assert(rest[k] == label);
                    assert(rest.contains(label));
                }
            }
            if rest.contains(label) {
                let k = choose|k: int| 0 <= k < rest.len() && rest[k] == label;
                assert(labels[k] == label);
            }
            assert(labels[labels.len() - 1] == labels.last());
        }
    }
}

proof fn label_placed_keeps_order(list: Seq<Seq<char>>, label: Seq<char>)
    requires
        labels_in_order(list),
    ensures
        labels_in_order(label_placed(list, label)),
        forall|other: Seq<char>|
            #![trigger label_placed(list, label).contains(other)]
            #![trigger list.contains(other)]
            label_placed(list, label).contains(other) <==> list.contains(other) || other == label,
    decreases list.len(),
{
    let result = label_placed(list, label);
    if list.len() == 0 {
        assert(result[0] == label);
    } else {
        let last = list.last();
        let rest = list.drop_last();
        assert(list[list.len() - 1] == last);
        if last == label {
        } else if text_before(label, last) {
            assert(labels_in_order(rest)) by {
                assert forall|i: int, j: int| 0 <= i < j < rest.len() implies text_before(
                    #[trigger] rest[i],
                    #[trigger] rest[j],
                ) by {
                    assert(list[i] == rest[i] && list[j] == rest[j]);
                }
            }
            label_placed_keeps_order(rest, label);
            let before = label_placed(rest, label);
            assert forall|i: int, j: int| 0 <= i < j < result.len() implies text_before(
                #[trigger] result[i],
                #[trigger] result[j],
            ) by {
                if j == before.len() {
                    assert(before.contains(before[i]));
                    if before[i] != label {
                        let m = choose|m: int| 0 <= m < rest.len() && rest[m] == before[i];
                        assert(list[m] == before[i]);
                    }
                } else {
                    assert(before[i] == result[i] && before[j] == result[j]);
                }
            }
            assert forall|other: Seq<char>|
                result.contains(other) <==> list.contains(other) || other == label by {
                if result.contains(other) {
                    let k = choose|k: int| 0 <= k < result.len() && result[k] == other;
                    if k < before.len() {
                        assert(before.contains(other));
                        if rest.contains(other) {
                            let m = choose|m: int| 0 <= m < rest.len() && rest[m] == other;
                            assert(list[m] == other);
                        }
                    }
                }
                if list.contains(other) {
                    let k = choose|k: int| 0 <= k < list.len() && list[k] == other;
                    if k < rest.len() {
                        assert(rest[k] == other);
                        assert(before.contains(other));
                        let m = choose|m: int| 0 <= m < before.len() && before[m] == other;
                        assert(result[m] == other);
                    } else {
                        assert(result[before.len() as int] == other);
                    }
                }
                if other == label {
                    assert(before.contains(other));
                    let m = choose|m: int| 0 <= m < before.len() && before[m] == other;
                    assert(result[m] == other);
                }
            }
        } else {
            text_before_total(label, last);
            assert forall|i: int, j: int| 0 <= i < j < result.len() implies text_before(
                #[trigger] result[i],
                #[trigger] result[j],
            ) by {
                if j == list.len() {
                    if i < list.len() - 1 {
                        assert(text_before(list[i], last));
                        text_before_transitive(list[i], last, label);
                    }
                } else {
                    assert(list[i] == result[i] && list[j] == result[j]);
                }
            }
            assert forall|other: Seq<char>|
                result.contains(other) <==> list.contains(other) || other == label by {
                if list.contains(other) {
                    let k = choose|k: int| 0 <= k < list.len() && list[k] == other;
                    assert(result[k] == other);
                }
                if other == label {
                    assert(result[list.len() as int] == other);
                }
            }
        }
    }
}

proof fn label_placed_at(list: Seq<Seq<char>>, label: Seq<char>, place: int)
    requires
        0 <= place <= list.len(),
        forall|k: int|
            place <= k < list.len() ==> text_before(label, #[trigger] list[k]) && list[k] != label,
        place > 0 ==> !text_before(label, list[place - 1]) || list[place - 1] == label,
    ensures
        place > 0 && list[place - 1] == label ==> label_placed(list, label) == list,
        !(place > 0 && list[place - 1] == label) ==> label_placed(list, label) == list.insert(
            place,
            label,
        ),
    decreases list.len(),
{
    if place < list.len() {
        let rest = list.drop_last();
        label_placed_at(rest, label, place);
        assert(list[list.len() - 1] == list.last());
        if place > 0 && list[place - 1] == label {
            assert(rest.push(list.last()) == list);
        } else {
            assert(rest.insert(place, label).push(list.last()) == list.insert(place, label));
        }
    } else if list.len() > 0 {
        assert(list.last() == list[place - 1]);
        assert(list.insert(place, label) == list.push(label));
    } else {
        assert(list.insert(place, label) == list.push(label));
    }
}

/// Puts the label in its place, unless it is there.
pub fn place_label(list: &mut Vec<String>, label: &str)
    ensures
        texts(final(list)@) == label_placed(texts(old(list)@), label@),
{
    let ghost all = texts(list@);
    let mut at: usize = list.len();
    while at > 0 && !same_text(list[at - 1].as_str(), label) && is_before(
        label,
        list[at - 1].as_str(),
    )
        invariant
            all == texts(list@),
            at <= list@.len(),
            forall|k: int|
                at <= k < all.len() ==> text_before(label@, #[trigger] all[k]) && all[k] != label@,
        decreases at,
    {
        assert(all[at - 1] == list@[at - 1]@);
        at = at - 1;
    }
    proof {
        if at > 0 {
            assert(all[at - 1] == list@[at - 1]@);
        }
        label_placed_at(all, label@, at as int);
    }
    if at > 0 && same_text(list[at - 1].as_str(), label) {
        return ;
    }
    let copy = label.to_owned();
    let ghost before = list@;
    list.insert(at, copy);
    assert(texts(before.insert(at as int, copy)) == all.insert(at as int, label@));
}

/// The labels in order, each once.
pub fn sort_labels(labels: &Vec<String>) -> (sorted: Vec<String>)
    ensures
        texts(sorted@) == sorted_labels(texts(labels@)),
{
    let ghost all = texts(labels@);
    let mut sorted: Vec<String> = Vec::new();
    assert(texts(sorted@) == Seq::<Seq<char>>::empty());
    assert(all.take(0) == Seq::<Seq<char>>::empty());
    for i in 0..labels.len()
        invariant
            all == texts(labels@),
            texts(sorted@) == sorted_labels(all.take(i as int)),
    {
        assert(all.take(i + 1).drop_last() == all.take(i as int));
        assert(all.take(i + 1).last() == labels@[i as int]@);
        place_label(&mut sorted, labels[i].as_str());
    }
    assert(all.take(all.len() as int) == all);
    sorted
}

/// The list without the item at the place, if there is one.
pub open spec fn without(list: Seq<Seq<char>>, place: int) -> Seq<Seq<char>> {
    if place < list.len() {
        list.remove(place)
    } else {
        list
    }
}

fn copy_without(list: &Vec<String>, place: usize) -> (copy: Vec<String>)
    ensures
        texts(copy@) == without(texts(list@), place as int),
{
    let ghost all = texts(list@);
    let mut copy: Vec<String> = Vec::new();
    for i in 0..list.len()
        invariant
            all == texts(list@),
            texts(copy@) == without(all.take(i as int), place as int),
    {
        let ghost before = texts(copy@);
        if i != place {
            let item = list[i].clone();
            proof {
                texts_push(copy@, item);
            }
            copy.push(item);
        }
        assert(texts(copy@) == without(all.take(i + 1), place as int));
    }
    assert(all.take(all.len() as int) == all);
    copy
}

/// The rows with the label, without the column of the labels.
pub open spec fn rows_with_label(
    rows: Seq<Seq<Seq<char>>>,
    labels: Seq<Seq<char>>,
    label: Seq<char>,
    index: int,
) -> Seq<Seq<Seq<char>>> {
    let places = places_of_key(labels, label);
    Seq::new(places.len(), |i: int| without(rows[places[i]], index))
}

fn take_rows(rows: &Vec<Vec<String>>, labels: &Vec<String>, label: &str, index: usize) -> (taken: Vec<
    Vec<String>,
>)
    requires
        labels@.len() == rows@.len(),
    ensures
        text_rows(taken@) == rows_with_label(
            text_rows(rows@),
            texts(labels@),
            label@,
            index as int,
        ),
{
    let ghost all = text_rows(rows@);
    let ghost names = texts(labels@);
    let mut taken: Vec<Vec<String>> = Vec::new();
    assert(names.take(0) == Seq::<Seq<char>>::empty());
    assert(text_rows(taken@) == rows_with_label(all, names.take(0), label@, index as int));
    for i in 0..rows.len()
        invariant
            all == text_rows(rows@),
            names == texts(labels@),
            labels@.len() == rows@.len(),
            text_rows(taken@) == rows_with_label(all, names.take(i as int), label@, index as int),
    {
        assert(names.take(i + 1).drop_last() == names.take(i as int));
        assert(names.take(i + 1).last() == labels@[i as int]@);
        if same_text(labels[i].as_str(), label) {
            let row = copy_without(&rows[i], index);
            let ghost before = text_rows(taken@);
            proof {
                text_rows_push(taken@, row);
            }
            taken.push(row);
            assert(text_rows(taken@) == rows_with_label(
                all,
                names.take(i + 1),
                label@,
                index as int,
            ));
        }
    }
    assert(names.take(names.len() as int) == names);
    taken
}

/// Whether a character stays in the name of a file.
pub open spec fn is_name_char(c: char) -> bool {
    'a' <= c <= 'z' || 'A' <= c <= 'Z' || '0' <= c <= '9' || c == '-' || c == '_'
}

/// The text with an underscore for each character that does not stay.
pub open spec fn with_underscores(text: Seq<char>) -> Seq<char> {
    Seq::new(
        text.len(),
        |i: int|
            if is_name_char(text[i]) {
                text[i]
            } else {
                '_'
            },
    )
}

/// The text without the underscores in front of it.
pub open spec fn bare_front(text: Seq<char>) -> Seq<char>
    decreases text.len(),
{
    if text.len() > 0 && text[0] == '_' {
        bare_front(text.drop_first())
    } else {
        text
    }
}

/// The text without the underscores behind it.
pub open spec fn bare_back(text: Seq<char>) -> Seq<char>
    decreases text.len(),
{
    if text.len() > 0 && text.last() == '_' {
        bare_back(text.drop_last())
    } else {
        text
    }
}

/// The label as it stands in the name of a file.
pub open spec fn label_in_name(label: Seq<char>) -> Seq<char> {
    let bare = bare_back(bare_front(with_underscores(label)));
    if bare.len() == 0 {
        "label"@
    } else {
        bare
    }
}

/// The label as it stands in the name of a file.
pub fn sanitize_label_for_path(label: &str) -> (name: String)
    ensures
        name@ == label_in_name(label@),
{
    let chars = chars_of(label);
    let mut kept: Vec<char> = Vec::new();
    for i in 0..chars.len()
        invariant
            chars@ == label@,
            kept@ == with_underscores(label@.take(i as int)),
    {
        let c = chars[i];
        let stays = ('a' <= c && c <= 'z') || ('A' <= c && c <= 'Z') || ('0' <= c && c <= '9') || c
            == '-' || c == '_';
        kept.push(
            if stays {
                c
            } else {
                '_'
            },
        );
        assert(kept@ == with_underscores(label@.take(i + 1)));
    }
    assert(label@.take(label@.len() as int) == label@);
    let ghost all = kept@;
    let mut from: usize = 0;
    assert(all.skip(0) == all);
    while from < kept.len() && kept[from] == '_'
        invariant
            all == kept@,
            from <= all.len(),
            bare_front(all) == bare_front(all.skip(from as int)),
        decreases all.len() - from,
    {
        assert(all.skip(from as int).drop_first() == all.skip(from + 1));
        from = from + 1;
    }
    let mut to: usize = kept.len();
    assert(all.subrange(from as int, to as int) == all.skip(from as int));
    while to > from && kept[to - 1] == '_'
        invariant
            all == kept@,
            from <= to <= all.len(),
            bare_back(bare_front(all)) == bare_back(all.subrange(from as int, to as int)),
        decreases to,
    {
        assert(all.subrange(from as int, to as int).drop_last() == all.subrange(
            from as int,
            to - 1,
        ));
        to = to - 1;
    }
    if from == to {
        "label".to_owned()
    } else {
        string_between(&kept, from, to)
    }
}

/// The name of the input for the names of the files: that of its file without its ending.
/// `None` stands for a name that is no text.
pub open spec fn base_name_of(file_name: Option<Seq<char>>, file_stem: Option<Seq<char>>) -> Seq<
    char,
> {
    let name = match file_name {
        Some(name) => name,
        None => "output"@,
    };
    let low = lowered(name);
    if ".tar.zst"@.is_suffix_of(low) {
        name.take(name.len() - 8)
    } else if ".tzst"@.is_suffix_of(low) {
        name.take(name.len() - 5)
    } else if ".tar"@.is_suffix_of(low) {
        name.take(name.len() - 4)
    } else if ".zst"@.is_suffix_of(low) {
        name.take(name.len() - 4)
    } else if ".csv"@.is_suffix_of(low) {
        name.take(name.len() - 4)
    } else {
        match file_stem {
            Some(stem) => stem,
            None => "output"@,
        }
    }
}

/// What a text that may be missing says.
pub open spec fn optional_text(text: Option<&str>) -> Option<Seq<char>> {
    match text {
        Some(text) => Some(text@),
        None => None,
    }
}

fn cut_end(name: &str, count: usize) -> (cut: String)
    requires
        count <= name@.len(),
    ensures
        cut@ == name@.take(name@.len() - count),
{
    let chars = chars_of(name);
    let cut = string_between(&chars, 0, chars.len() - count);
    assert(cut@ == name@.take(name@.len() - count));
    cut
}

/// The name of the input for the names of the files.
pub fn base_name_for_output(file_name: Option<&str>, file_stem: Option<&str>) -> (name: String)
    ensures
        name@ == base_name_of(optional_text(file_name), optional_text(file_stem)),
{
    proof {
        reveal_strlit(".tar.zst");
        reveal_strlit(".tzst");
        reveal_strlit(".tar");
        reveal_strlit(".zst");
        reveal_strlit(".csv");
    }
    let name = match file_name {
        Some(name) => name,
        None => "output",
    };
    let low = lower(name);
    let low = low.as_str();
    if ends_with(low, ".tar.zst") {
        cut_end(name, 8)
    } else if ends_with(low, ".tzst") {
        cut_end(name, 5)
    } else if ends_with(low, ".tar") {
        cut_end(name, 4)
    } else if ends_with(low, ".zst") {
        cut_end(name, 4)
    } else if ends_with(low, ".csv") {
        cut_end(name, 4)
    } else {
        match file_stem {
            Some(stem) => stem.to_owned(),
            None => "output".to_owned(),
        }
    }
}

/// The name of the file of a label.
pub open spec fn file_name_of(base: Seq<char>, number: nat, label: Seq<char>) -> Seq<char> {
    base + "_"@ + zero_padded(number, 3) + "_"@ + label_in_name(label) + ".csv"@
}

/// The files that a table is split into: one for each label, in the order of the labels.
pub open spec fn files_of(csv: CsvModel, column: Seq<char>, base: Seq<char>) -> Result<
    Seq<FileModel>,
    Seq<char>,
> {
    if !csv.headers.contains(column) {
        Err(no_column_text(column))
    } else {
        let index = first_place(csv.headers, column);
        match labels_of(csv.rows, index, column) {
            Err(message) => Err(message),
            Ok(labels) => {
                let sorted = sorted_labels(labels);
                Ok(
                    Seq::new(
                        sorted.len(),
                        |i: int| file_of(csv, index, base, labels, sorted[i], i),
                    ),
                )
            },
        }
    }
}

/// The file of the label at a place in the order.
pub open spec fn file_of(
    csv: CsvModel,
    index: int,
    base: Seq<char>,
    labels: Seq<Seq<char>>,
    label: Seq<char>,
    place: int,
) -> FileModel {
    FileModel {
        name: file_name_of(base, (place + 1) as nat, label),
        contents: csv_text_of(
            seq![without(csv.headers, index)] + rows_with_label(csv.rows, labels, label, index),
        ),
    }
}

/// What a list of files that cannot be made says.
pub open spec fn files_result(result: Result<Vec<SplitFile>, String>) -> Result<
    Seq<FileModel>,
    Seq<char>,
> {
    match result {
        Ok(files) => Ok(file_models(files@)),
        Err(message) => Err(message@),
    }
}

/// The files that the table is split into by its label column.
pub fn split_csv_by_label(csv: &CsvData, label_column: &str, base_name: &str) -> (result: Result<
    Vec<SplitFile>,
    String,
>)
    ensures
        files_result(result) == files_of(csv@, label_column@, base_name@),
{
    let index = match find_column_index(&csv.headers, label_column) {
        Ok(index) => index,
        Err(message) => {
            return Err(message);
        },
    };
    let headers = copy_without(&csv.headers, index);
    let labels = match read_labels(&csv.rows, index, label_column) {
        Ok(labels) => labels,
        Err(message) => {
            return Err(message);
        },
    };
    let ghost names = texts(labels@);
    proof {
        a_label_for_each_row(csv@.rows, index as int, label_column@);
        assert(names.len() == labels@.len());
    }
    let sorted = sort_labels(&labels);
    let ghost order = texts(sorted@);
    let mut files: Vec<SplitFile> = Vec::new();
    for i in 0..sorted.len()
        invariant
            names == texts(labels@),
            order == texts(sorted@),
            labels@.len() == csv.rows@.len(),
            texts(headers@) == without(csv@.headers, index as int),
            files@.len() == i,
            forall|k: int|
                0 <= k < i ==> (#[trigger] files@[k])@ == file_of(
                    csv@,
                    index as int,
                    base_name@,
                    names,
                    order[k],
                    k,
                ),
    {
        let label = sorted[i].as_str();
        let rows = take_rows(&csv.rows, &labels, label, index);
        let mut name = base_name.to_owned();
        name.append("_");
        name.append(pad_with_zeros((i + 1) as u64, 3).as_str());
        name.append("_");
        name.append(sanitize_label_for_path(label).as_str());
        name.append(".csv");
        let contents = write_csv(&headers, &rows);
        files.push(SplitFile { name, contents });
    }
    assert(file_models(files@) =~= Seq::new(
        order.len(),
        |i: int| file_of(csv@, index as int, base_name@, names, order[i], i),
    ));
    Ok(files)
}

/// The files that the table of a file with the given name is split into.
pub fn run(
    csv: &CsvData,
    label_column: &str,
    file_name: Option<&str>,
    file_stem: Option<&str>,
) -> (result: Result<Vec<SplitFile>, String>)
    ensures
        files_result(result) == files_of(
            csv@,
            label_column@,
            base_name_of(optional_text(file_name), optional_text(file_stem)),
        ),
{
    let base = base_name_for_output(file_name, file_stem);
    split_csv_by_label(csv, label_column, base.as_str())
}

} // verus!
