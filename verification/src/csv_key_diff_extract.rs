//! The rows that a rendered report tells of, taken from the tables that it compares.
use vstd::prelude::*;

use crate::csv_key_diff::{row_keys, same_key, CsvData, KeyValue};
use crate::csv_text::write_csv;
use crate::literals::{read_literal, LiteralError};
use crate::text::{
    begins_with, chars_of, copy_texts, find_from, holds_text, is_at, join, lines_of, parse_number,
    part, same_text, split_by_text, string_between, trim,
};

verus! {

use crate::csv_key_diff::{key_models, keys_of, places_of_key, CsvModel};
use crate::csv_text::csv_text_of;
use crate::literals::{literal_from, literal_goes_on};
use crate::text::{
    found_from, found_is_first, joined, lines, number_error_text, number_value, parted, split_by,
    stands_at, text_rows, text_rows_push, texts, trimmed,
};

/// A row that is wanted: its key, and which of the rows with that key it is.
#[derive(Debug, Clone, PartialEq, Eq, Hash)]
pub struct RowSelector {
    pub key: KeyValue,
    pub occurrence: usize,
}

/// What a [`RowSelector`] says.
#[verifier::ext_equal]
pub struct SelectorModel {
    pub key: Seq<(Seq<char>, Seq<char>)>,
    pub occurrence: nat,
}

impl View for RowSelector {
    type V = SelectorModel;

    open spec fn view(&self) -> SelectorModel {
        SelectorModel { key: self.key@, occurrence: self.occurrence as nat }
    }
}

/// What a list of selectors says.
pub open spec fn selector_models(rows: Seq<RowSelector>) -> Seq<SelectorModel> {
    Seq::new(rows.len(), |i: int| rows[i]@)
}

/// The rows that a report tells of, with the key columns that it compares by.
#[derive(Debug, Clone, PartialEq, Eq)]
pub struct DiffSelection {
    pub key_columns: Vec<String>,
    pub rows: Vec<RowSelector>,
}

/// What a [`DiffSelection`] says.
#[verifier::ext_equal]
pub struct SelectionModel {
    pub key_columns: Seq<Seq<char>>,
    pub rows: Seq<SelectorModel>,
}

impl View for DiffSelection {
    type V = SelectionModel;

    open spec fn view(&self) -> SelectionModel {
        SelectionModel {
            key_columns: texts(self.key_columns@),
            rows: selector_models(self.rows@),
        }
    }
}

/// The key columns that a line lists, if it is one that does.
pub open spec fn key_columns_in(line: Seq<char>) -> Option<Seq<Seq<char>>> {
    if "keys: "@.is_prefix_of(line) {
        Some(split_by(line.skip(6), ", "@))
    } else {
        None
    }
}

/// The key columns that the line lists.
pub fn parse_key_columns_line(line: &str) -> (columns: Option<Vec<String>>)
    ensures
        match columns {
            Some(columns) => key_columns_in(line@) == Some(texts(columns@)),
            None => key_columns_in(line@) is None,
        },
{
    proof {
        reveal_strlit("keys: ");
        reveal_strlit(", ");
    }
    if !begins_with(line, "keys: ") {
        return None;
    }
    let chars = chars_of(line);
    let rest = string_between(&chars, 6, chars.len());
    assert(rest@ == line@.skip(6));
    Some(split_by_text(rest.as_str(), ", "))
}

/// The value between quotes at a place, and the place behind it.
pub open spec fn quoted_value_at(input: Seq<char>, start: int) -> Result<
    (Seq<char>, int),
    Seq<char>,
> {
    if start >= input.len() || input[start] != '"' {
        Err("expected quoted value: "@ + input)
    } else {
        match literal_from(input, start + 1, Seq::empty()) {
            Ok(found) => Ok(found),
            Err(LiteralError::Open) => Err("unterminated quoted value: "@ + input),
            Err(LiteralError::OpenEscape) => Err("unterminated escape sequence: "@ + input),
        }
    }
}

/// The value between quotes at the place, and the place behind it.
fn parse_quoted_value(input: &str, chars: &Vec<char>, start: usize) -> (result: Result<
    (String, usize),
    String,
>)
    requires
        chars@ == input@,
        start <= chars@.len(),
    ensures
        match result {
            Ok((value, next)) => quoted_value_at(input@, start as int) == Ok::<
                (Seq<char>, int),
                Seq<char>,
            >((value@, next as int)) && start < next <= chars@.len(),
            Err(message) => quoted_value_at(input@, start as int) == Err::<
                (Seq<char>, int),
                Seq<char>,
            >(message@),
        },
{
    if start >= chars.len() || chars[start] != '"' {
        let mut message = "expected quoted value: ".to_owned();
        message.append(input);
        return Err(message);
    }
    match read_literal(chars, start + 1) {
        Ok(found) => Ok(found),
        Err(error) => {
            let mut message = match error {
                LiteralError::Open => "unterminated quoted value: ".to_owned(),
                LiteralError::OpenEscape => "unterminated escape sequence: ".to_owned(),
            };
            message.append(input);
            Err(message)
        },
    }
}

/// The names and values from a place on. A name goes up to the first equals sign with a quote
/// behind it.
pub open spec fn entries_from(input: Seq<char>, from: int) -> Result<
    Seq<(Seq<char>, Seq<char>)>,
    Seq<char>,
>
    decreases input.len() - from,
    when 0 <= from
    via entries_from_ends
{
    if from >= input.len() {
        Ok(Seq::empty())
    } else {
        match found_from(input, "=\""@, from) {
            None => if input.skip(from).contains('=') {
                Err("expected quoted value: "@ + input)
            } else {
                Err("invalid key entry: "@ + input)
            },
            Some(equals) => match quoted_value_at(input, equals + 1) {
                Err(message) => Err(message),
                Ok((value, next)) => {
                    let entry = (trimmed(input.subrange(from, equals)), value);
                    if next >= input.len() {
                        Ok(seq![entry])
                    } else if ", "@.is_prefix_of(input.skip(next)) {
                        match entries_from(input, next + 2) {
                            Err(message) => Err(message),
                            Ok(others) => Ok(seq![entry] + others),
                        }
                    } else {
                        Err("invalid key separator: "@ + input)
                    }
                },
            },
        }
    }
}

#[via_fn]
proof fn entries_from_ends(input: Seq<char>, from: int) {
    reveal_strlit(", ");
    if from < input.len() {
        found_is_first(input, "=\""@, from);
        if let Some(equals) = found_from(input, "=\""@, from) {
            literal_goes_on(input, equals + 2, Seq::empty());
        }
    }
}

/// The names and values of a key.
pub open spec fn key_entries_of(input: Seq<char>) -> Result<
    Seq<(Seq<char>, Seq<char>)>,
    Seq<char>,
> {
    entries_from(input, 0)
}

/// The result of putting entries before others.
pub open spec fn with_entries(
    before: Seq<(Seq<char>, Seq<char>)>,
    others: Result<Seq<(Seq<char>, Seq<char>)>, Seq<char>>,
) -> Result<Seq<(Seq<char>, Seq<char>)>, Seq<char>> {
    match others {
        Err(message) => Err(message),
        Ok(others) => Ok(before + others),
    }
}

fn holds_char_from(chars: &Vec<char>, from: usize, wanted: char) -> (holds: bool)
    requires
        from <= chars@.len(),
    ensures
        holds == chars@.skip(from as int).contains(wanted),
{
    let ghost rest = chars@.skip(from as int);
    for i in from..chars.len()
        invariant
            rest == chars@.skip(from as int),
            from <= chars@.len(),
            forall|k: int| 0 <= k < i - from ==> #[trigger] rest[k] != wanted,
    {
        assert(rest[i - from] == chars@[i as int]);
        if chars[i] == wanted {
            return true;
        }
    }
    false
}

/// The names and values of the key.
pub fn parse_key_entries(input: &str) -> (result: Result<KeyValue, String>)
    ensures
        match result {
            Ok(key) => key_entries_of(input@) == Ok::<Seq<(Seq<char>, Seq<char>)>, Seq<char>>(
                key@,
            ),
            Err(message) => key_entries_of(input@) == Err::<
                Seq<(Seq<char>, Seq<char>)>,
                Seq<char>,
            >(message@),
        },
{
    let chars = chars_of(input);
    let mark = chars_of("=\"");
    let ghost all = input@;
    let mut entries: Vec<(String, String)> = Vec::new();
    let ghost mut model: Seq<(Seq<char>, Seq<char>)> = Seq::empty();
    let mut from: usize = 0;
    proof {
        reveal_strlit(", ");
        reveal_strlit("=\"");
        if let Ok(others) = entries_from(all, 0) {
            assert(model + others == others);
        }
    }
    while from < chars.len()
        invariant
            all == input@,
            chars@ == all,
            from <= chars@.len(),
            mark@ == "=\""@,
            mark@.len() == 2,
            model.len() == entries@.len(),
            ", "@.len() == 2,
            ", "@[0] == ',',
            ", "@[1] == ' ',
            forall|k: int|
                0 <= k < model.len() ==> #[trigger] model[k] == (entries@[k].0@, entries@[k].1@),
            key_entries_of(all) == with_entries(model, entries_from(all, from as int)),
        decreases chars.len() - from,
    {
        let start: usize = from;
        proof {
            found_is_first(all, "=\""@, start as int);
        }
        let equals = match find_from(&chars, &mark, start) {
            Some(equals) => equals,
            None => {
                let mut message = if holds_char_from(&chars, start, '=') {
                    "expected quoted value: ".to_owned()
                } else {
                    "invalid key entry: ".to_owned()
                };
                message.append(input);
                return Err(message);
            },
        };
        let name = trim(string_between(&chars, start, equals).as_str());
        let (value, next) = match parse_quoted_value(input, &chars, equals + 1) {
            Ok(parsed) => parsed,
            Err(message) => {
                return Err(message);
            },
        };
        let ghost entry = (name@, value@);
        let ghost before = model;
        entries.push((name, value));
        proof {
            model = model.push(entry);
        }
        if next < chars.len() {
            let comma = chars[next] == ',' && next + 1 < chars.len() && chars[next + 1] == ' ';
            proof {
                let tail = all.skip(next as int);
                if comma {
                    assert(tail.subrange(0, 2) == ", "@);
                } else if ", "@.is_prefix_of(tail) {
                    assert(tail.subrange(0, 2)[0] == ',' && tail.subrange(0, 2)[1] == ' ');
                }
            }
            if !comma {
                let mut message = "invalid key separator: ".to_owned();
                message.append(input);
                return Err(message);
            }
            from = next + 2;
            proof {
                if let Ok(others) = entries_from(all, next + 2) {
                    assert(before + (seq![entry] + others) == model + others);
                }
            }
        } else {
            from = next;
            proof {
                assert(entries_from(all, next as int) == Ok::<
                    Seq<(Seq<char>, Seq<char>)>,
                    Seq<char>,
                >(Seq::empty()));
                assert(before + seq![entry] == model + Seq::<(Seq<char>, Seq<char>)>::empty());
            }
        }
    }
    let key = KeyValue(entries);
    proof {
        assert(model + Seq::<(Seq<char>, Seq<char>)>::empty() == key@);
    }
    Ok(key)
}

/// The place from `from` on at which a key ends: where its occurrence begins, but not within a
/// value between quotes.
pub open spec fn key_end_from(text: Seq<char>, from: int) -> Option<int>
    decreases text.len() - from,
    when 0 <= from
    via key_end_from_ends
{
    if from >= text.len() {
        None
    } else if stands_at(text, "] occurrence "@, from) {
        Some(from)
    } else if stands_at(text, "=\""@, from) {
        match literal_from(text, from + 2, Seq::empty()) {
            Ok((_, next)) => key_end_from(text, next),
            Err(_) => None,
        }
    } else {
        key_end_from(text, from + 1)
    }
}

#[via_fn]
proof fn key_end_from_ends(text: Seq<char>, from: int) {
    literal_goes_on(text, from + 2, Seq::empty());
}

/// The place at which a key ends. Where a value is not closed, it is where the first occurrence
/// begins.
pub open spec fn key_end(text: Seq<char>) -> Option<int> {
    match key_end_from(text, 0) {
        Some(end) => Some(end),
        None => found_from(text, "] occurrence "@, 0),
    }
}

proof fn key_end_is_found(text: Seq<char>, from: int)
    requires
        0 <= from,
    ensures
        key_end_from(text, from) matches Some(end) ==> from <= end && stands_at(
            text,
            "] occurrence "@,
            end,
        ),
    decreases text.len() - from,
{
    if from < text.len() && !stands_at(text, "] occurrence "@, from) {
        if stands_at(text, "=\""@, from) {
            literal_goes_on(text, from + 2, Seq::empty());
            if let Ok((_, next)) = literal_from(text, from + 2, Seq::empty()) {
                key_end_is_found(text, next);
            }
        } else {
            key_end_is_found(text, from + 1);
        }
    }
}

fn find_key_end(chars: &Vec<char>) -> (place: Option<usize>)
    ensures
        match place {
            Some(place) => key_end(chars@) == Some(place as int) && place + 13 <= chars@.len(),
            None => key_end(chars@) is None,
        },
{
    let end = chars_of("] occurrence ");
    let mark = chars_of("=\"");
    let mut from: usize = 0;
    proof {
        reveal_strlit("] occurrence ");
        reveal_strlit("=\"");
    }
    while from < chars.len()
        invariant
            from <= chars@.len(),
            end@ == "] occurrence "@,
            mark@ == "=\""@,
            end@.len() == 13,
            mark@.len() == 2,
            key_end_from(chars@, 0) == key_end_from(chars@, from as int),
        decreases chars.len() - from,
    {
        if is_at(chars, &end, from) {
            return Some(from);
        }
        if is_at(chars, &mark, from) {
            match read_literal(chars, from + 2) {
                Ok((_, next)) => {
                    from = next;
                },
                Err(_) => {
                    return find_from(chars, &end, 0);
                },
            }
        } else {
            from = from + 1;
        }
    }
    find_from(chars, &end, 0)
}

/// The row that a line tells of, if it is one that heads a change.
pub open spec fn selector_in(line: Seq<char>) -> Result<Option<SelectorModel>, Seq<char>> {
    if !"@@ key ["@.is_prefix_of(line) {
        Ok(None)
    } else {
        let rest = line.skip(8);
        match key_end(rest) {
            None => Err("invalid diff row header: "@ + line),
            Some(end) => match parted(rest.skip(end + 13), ' ') {
                None => Err("invalid occurrence section: "@ + line),
                Some((number, _)) => match number_value(number, 10, usize::MAX as int) {
                    Err(error) => Err(number_error_text(error)),
                    Ok(number) => if number < 1 {
                        Err("occurrence must be 1 or greater: "@ + line)
                    } else {
                        match key_entries_of(rest.take(end)) {
                            Err(message) => Err(message),
                            Ok(key) => Ok(
                                Some(SelectorModel { key, occurrence: (number - 1) as nat }),
                            ),
                        }
                    },
                },
            },
        }
    }
}

/// What a selector that may be missing, or may not be readable, says.
pub open spec fn selector_result(result: Result<Option<RowSelector>, String>) -> Result<
    Option<SelectorModel>,
    Seq<char>,
> {
    match result {
        Ok(Some(selector)) => Ok(Some(selector@)),
        Ok(None) => Ok(None),
        Err(message) => Err(message@),
    }
}

/// The row that the line tells of.
pub fn parse_selector_line(line: &str) -> (result: Result<Option<RowSelector>, String>)
    ensures
        selector_result(result) == selector_in(line@),
{
    proof {
        reveal_strlit("@@ key [");
    }
    if !begins_with(line, "@@ key [") {
        return Ok(None);
    }
    let chars = chars_of(line);
    let rest = chars_of(string_between(&chars, 8, chars.len()).as_str());
    assert(rest@ == line@.skip(8));
    let end = match find_key_end(&rest) {
        Some(end) => end,
        None => {
            let mut message = "invalid diff row header: ".to_owned();
            message.append(line);
            return Err(message);
        },
    };
    let key_part = string_between(&rest, 0, end);
    let occurrence_part = string_between(&rest, end + 13, rest.len());
    assert(key_part@ == rest@.take(end as int));
    assert(occurrence_part@ == rest@.skip(end + 13));
    let (number_text, _) = match part(occurrence_part.as_str(), ' ') {
        Some(parts) => parts,
        None => {
            let mut message = "invalid occurrence section: ".to_owned();
            message.append(line);
            return Err(message);
        },
    };
    let number = match parse_number(number_text.as_str(), 10, usize::MAX as u64) {
        Ok(number) => number,
        Err(message) => {
            return Err(message);
        },
    };
    if number < 1 {
        let mut message = "occurrence must be 1 or greater: ".to_owned();
        message.append(line);
        return Err(message);
    }
    match parse_key_entries(key_part.as_str()) {
        Ok(key) => Ok(Some(RowSelector { key, occurrence: (number - 1) as usize })),
        Err(message) => Err(message),
    }
}

/// What the lines tell: the key columns that the last line to list them lists, and the rows; or
/// why a line cannot be read.
pub open spec fn told_by(lines: Seq<Seq<char>>) -> Result<
    (Option<Seq<Seq<char>>>, Seq<SelectorModel>),
    Seq<char>,
>
    decreases lines.len(),
{
    if lines.len() == 0 {
        Ok((None, Seq::empty()))
    } else {
        match told_by(lines.drop_last()) {
            Err(message) => Err(message),
            Ok((columns, rows)) => match key_columns_in(lines.last()) {
                Some(columns) => Ok((Some(columns), rows)),
                None => match selector_in(lines.last()) {
                    Err(message) => Err(message),
                    Ok(None) => Ok((columns, rows)),
                    Ok(Some(selector)) => Ok((columns, rows.push(selector))),
                },
            },
        }
    }
}

proof fn told_by_stops(lines: Seq<Seq<char>>, count: int)
    requires
        0 <= count <= lines.len(),
        told_by(lines.take(count)) is Err,
    ensures
        told_by(lines) == told_by(lines.take(count)),
    decreases lines.len() - count,
{
    if count < lines.len() {
        assert(lines.take(count + 1).drop_last() == lines.take(count));
        told_by_stops(lines, count + 1);
    } else {
        assert(lines.take(count) == lines);
    }
}

/// The names of a key.
pub open spec fn names_of(key: Seq<(Seq<char>, Seq<char>)>) -> Seq<Seq<char>> {
    Seq::new(key.len(), |i: int| key[i].0)
}

/// Whether every row's key has the key columns for its names.
pub open spec fn selectors_match(selection: SelectionModel) -> bool {
    forall|i: int|
        0 <= i < selection.rows.len() ==> names_of((#[trigger] selection.rows[i]).key)
            == selection.key_columns
}

/// The key columns by which the rows are selected: those of the first row, where they are listed
/// with the same words, and those that are listed else.
pub open spec fn columns_meant(listed: Seq<Seq<char>>, rows: Seq<SelectorModel>) -> Seq<
    Seq<char>,
> {
    if rows.len() > 0 && rows[0].key.len() > 0 && joined(names_of(rows[0].key), ", "@) == joined(
        listed,
        ", "@,
    ) {
        names_of(rows[0].key)
    } else {
        listed
    }
}

fn choose_columns(listed: Vec<String>, rows: &Vec<RowSelector>) -> (columns: Vec<String>)
    ensures
        texts(columns@) == columns_meant(texts(listed@), selector_models(rows@)),
{
    if rows.len() == 0 || rows[0].key.0.len() == 0 {
        return listed;
    }
    assert(selector_models(rows@)[0] == rows@[0]@);
    let key = &rows[0].key;
    let mut names: Vec<String> = Vec::new();
    for i in 0..key.0.len()
        invariant
            names@.len() == i,
            forall|k: int| 0 <= k < i ==> (#[trigger] names@[k])@ == key@[k].0,
    {
        names.push(key.0[i].0.as_str().to_owned());
    }
    assert(texts(names@) == names_of(key@));
    if same_text(join(&names, ", ").as_str(), join(&listed, ", ").as_str()) {
        names
    } else {
        listed
    }
}

/// What a report's text selects, or why it cannot be read.
pub open spec fn selection_of(text: Seq<char>) -> Result<SelectionModel, Seq<char>> {
    match told_by(lines(text)) {
        Err(message) => Err(message),
        Ok((None, _)) => Err("diff does not contain a keys line"@),
        Ok((Some(listed), rows)) => {
            let selection = SelectionModel { key_columns: columns_meant(listed, rows), rows };
            if selectors_match(selection) {
                Ok(selection)
            } else {
                Err("diff row key does not match the keys line"@)
            }
        },
    }
}

fn has_names(key: &KeyValue, names: &Vec<String>) -> (has: bool)
    ensures
        has == (names_of(key@) == texts(names@)),
{
    if key.0.len() != names.len() {
        assert(names_of(key@).len() != texts(names@).len());
        return false;
    }
    for i in 0..names.len()
        invariant
            key.0@.len() == names@.len(),
            forall|k: int| 0 <= k < i ==> names_of(key@)[k] == texts(names@)[k],
    {
        let entry = &key.0[i];
        if !same_text(entry.0.as_str(), names[i].as_str()) {
            assert(names_of(key@)[i as int] != texts(names@)[i as int]);
            return false;
        }
    }
    assert(names_of(key@) == texts(names@));
    true
}

/// Whether every row's key has the key columns for its names.
pub fn validate_row_selectors(selection: &DiffSelection) -> (result: Result<(), String>)
    ensures
        match result {
            Ok(()) => selectors_match(selection@),
            Err(message) => !selectors_match(selection@) && message@
                == "diff row key does not match the keys line"@,
        },
{
    for i in 0..selection.rows.len()
        invariant
            forall|k: int|
                0 <= k < i ==> names_of((#[trigger] selection@.rows[k]).key)
                    == selection@.key_columns,
    {
        assert(selection@.rows[i as int] == selection.rows@[i as int]@);
        if !has_names(&selection.rows[i].key, &selection.key_columns) {
            return Err("diff row key does not match the keys line".to_owned());
        }
    }
    Ok(())
}

/// What a selection that may not be readable says.
pub open spec fn selection_result(result: Result<DiffSelection, String>) -> Result<
    SelectionModel,
    Seq<char>,
> {
    match result {
        Ok(selection) => Ok(selection@),
        Err(message) => Err(message@),
    }
}

/// What a list of names that may be missing says.
pub open spec fn option_texts(list: Option<Vec<String>>) -> Option<Seq<Seq<char>>> {
    match list {
        Some(list) => Some(texts(list@)),
        None => None,
    }
}

/// What the text of a report selects.
pub fn parse_diff_selection(diff_text: &str) -> (result: Result<DiffSelection, String>)
    ensures
        selection_result(result) == selection_of(diff_text@),
{
    let mut key_columns: Option<Vec<String>> = None;
    let mut rows: Vec<RowSelector> = Vec::new();
    let all_lines = lines_of(diff_text);
    let ghost all = texts(all_lines@);
    assert(selector_models(rows@) == Seq::<SelectorModel>::empty());
    for i in 0..all_lines.len()
        invariant
            all == texts(all_lines@),
            all == lines(diff_text@),
            told_by(all.take(i as int)) == Ok::<
                (Option<Seq<Seq<char>>>, Seq<SelectorModel>),
                Seq<char>,
            >((option_texts(key_columns), selector_models(rows@))),
    {
        let ghost upto = all.take(i + 1);
        assert(upto.drop_last() == all.take(i as int));
        assert(upto.last() == all_lines@[i as int]@);
        let line = all_lines[i].as_str();
        match parse_key_columns_line(line) {
            Some(columns) => {
                key_columns = Some(columns);
            },
            None => {
                match parse_selector_line(line) {
                    Err(message) => {
                        proof {
                            told_by_stops(all, i + 1);
                        }
                        return Err(message);
                    },
                    Ok(None) => {},
                    Ok(Some(selector)) => {
                        let ghost before = rows@;
                        rows.push(selector);
                        assert(selector_models(rows@) == selector_models(before).push(selector@));
                    },
                }
            },
        }
    }
    assert(all.take(all.len() as int) == all);
    let key_columns = match key_columns {
        Some(listed) => choose_columns(listed, &rows),
        None => {
            return Err("diff does not contain a keys line".to_owned());
        },
    };
    let selection = DiffSelection { key_columns, rows };
    match validate_row_selectors(&selection) {
        Ok(()) => Ok(selection),
        Err(message) => Err(message),
    }
}

/// The first key column of the selection that the table has not.
pub open spec fn missing_column(headers: Seq<Seq<char>>, key_columns: Seq<Seq<char>>) -> Option<
    Seq<char>,
>
    decreases key_columns.len(),
{
    if key_columns.len() == 0 {
        None
    } else if !headers.contains(key_columns[0]) {
        Some(key_columns[0])
    } else {
        missing_column(headers, key_columns.drop_first())
    }
}

/// Whether the table has the key columns of the selection.
pub fn validate_selection_columns(csv: &CsvData, selection: &DiffSelection, side: &str) -> (result: Result<
    (),
    String,
>)
    ensures
        match missing_column(csv@.headers, selection@.key_columns) {
            None => result is Ok,
            Some(column) => result matches Err(message) && message@ == side@
                + " CSV is missing diff key column: "@ + column,
        },
{
    let ghost all = selection@.key_columns;
    assert(all.skip(0) == all);
    for i in 0..selection.key_columns.len()
        invariant
            all == texts(selection.key_columns@),
            missing_column(csv@.headers, all) == missing_column(csv@.headers, all.skip(i as int)),
            all == selection@.key_columns,
    {
        assert(all.skip(i as int)[0] == selection.key_columns@[i as int]@);
        assert(all.skip(i as int).drop_first() == all.skip(i + 1));
        let column = selection.key_columns[i].as_str();
        if !holds_text(&csv.headers, column) {
            let mut message = side.to_owned();
            message.append(" CSV is missing diff key column: ");
            message.append(column);
            return Err(message);
        }
    }
    Ok(())
}

/// Which of the rows with its key the row is.
pub open spec fn occurrence_of<K>(keys: Seq<K>, row: int) -> nat {
    places_of_key(keys.take(row), keys[row]).len()
}

/// Whether the row is selected.
pub open spec fn is_selected(csv: CsvModel, selection: SelectionModel, row: int) -> bool {
    let keys = keys_of(csv, selection.key_columns);
    selection.rows.contains(
        SelectorModel { key: keys[row], occurrence: occurrence_of(keys, row) },
    )
}

/// The selected ones among the first `count` rows.
pub open spec fn selected_rows(csv: CsvModel, selection: SelectionModel, count: int) -> Seq<
    Seq<Seq<char>>,
>
    decreases count,
{
    if count <= 0 {
        Seq::empty()
    } else {
        let before = selected_rows(csv, selection, count - 1);
        if is_selected(csv, selection, count - 1) {
            before.push(csv.rows[count - 1])
        } else {
            before
        }
    }
}

fn count_key(keys: &Vec<KeyValue>, count: usize, key: &KeyValue) -> (number: usize)
    requires
        count <= keys@.len(),
    ensures
        number == places_of_key(key_models(keys@).take(count as int), key@).len(),
{
    let ghost all = key_models(keys@);
    let mut number: usize = 0;
    for i in 0..count
        invariant
            all == key_models(keys@),
            count <= keys@.len(),
            number == places_of_key(all.take(i as int), key@).len(),
            number <= i,
    {
        assert(all.take(i + 1).drop_last() == all.take(i as int));
        assert(all.take(i + 1).last() == keys@[i as int]@);
        if same_key(&keys[i], key) {
            number = number + 1;
        }
    }
    number
}

fn holds_selector(rows: &Vec<RowSelector>, key: &KeyValue, occurrence: usize) -> (holds: bool)
    ensures
        holds == selector_models(rows@).contains(
            SelectorModel { key: key@, occurrence: occurrence as nat },
        ),
{
    let ghost wanted = SelectorModel { key: key@, occurrence: occurrence as nat };
    for i in 0..rows.len()
        invariant
            wanted == (SelectorModel { key: key@, occurrence: occurrence as nat }),
            forall|k: int| 0 <= k < i ==> (#[trigger] selector_models(rows@)[k]) != wanted,
    {
        assert(selector_models(rows@)[i as int] == rows@[i as int]@);
        if rows[i].occurrence == occurrence && same_key(&rows[i].key, key) {
            return true;
        }
    }
    false
}

/// The rows of the table that are selected, in order.
pub fn extract_rows(csv: &CsvData, selection: &DiffSelection) -> (rows: Vec<Vec<String>>)
    ensures
        text_rows(rows@) == selected_rows(csv@, selection@, csv@.rows.len() as int),
{
    let keys = row_keys(csv, &selection.key_columns);
    let ghost all = keys_of(csv@, selection@.key_columns);
    let mut extracted: Vec<Vec<String>> = Vec::new();
    assert(text_rows(extracted@) == Seq::<Seq<Seq<char>>>::empty());
    assert(key_models(keys@).len() == csv.rows@.len());
    for i in 0..csv.rows.len()
        invariant
            all == keys_of(csv@, selection@.key_columns),
            key_models(keys@) == all,
            keys@.len() == csv.rows@.len(),
            text_rows(extracted@) == selected_rows(csv@, selection@, i as int),
    {
        let occurrence = count_key(&keys, i, &keys[i]);
        assert(keys@[i as int]@ == all[i as int]);
        if holds_selector(&selection.rows, &keys[i], occurrence) {
            let row = copy_texts(&csv.rows[i]);
            proof {
                text_rows_push(extracted@, row);
            }
            extracted.push(row);
        }
    }
    extracted
}

/// The selected rows of both tables as CSV text.
pub struct ExtractedRows {
    pub left: String,
    pub right: String,
}

/// What the extraction from two tables gives, or why it cannot be made.
pub open spec fn extraction_of(left: CsvModel, right: CsvModel, diff_text: Seq<char>) -> Result<
    (Seq<char>, Seq<char>),
    Seq<char>,
> {
    match selection_of(diff_text) {
        Err(message) => Err(message),
        Ok(selection) => match (
            missing_column(left.headers, selection.key_columns),
            missing_column(right.headers, selection.key_columns),
        ) {
            (Some(column), _) => Err("left"@ + " CSV is missing diff key column: "@ + column),
            (None, Some(column)) => Err("right"@ + " CSV is missing diff key column: "@ + column),
            (None, None) => match (
                extracted_text(left, selection),
                extracted_text(right, selection),
            ) {
                (Err(message), _) => Err(message),
                (Ok(_), Err(message)) => Err(message),
                (Ok(left_text), Ok(right_text)) => Ok((left_text, right_text)),
            },
        },
    }
}

/// The selected rows of a table as CSV text.
pub open spec fn extracted_text(csv: CsvModel, selection: SelectionModel) -> Result<
    Seq<char>,
    Seq<char>,
> {
    csv_text_of(
        seq![csv.headers] + selected_rows(csv, selection, csv.rows.len() as int),
    )
}

/// The rows of both tables that the text of a report tells of, as CSV text.
pub fn extract_diff_rows(left: &CsvData, right: &CsvData, diff_text: &str) -> (result: Result<
    ExtractedRows,
    String,
>)
    ensures
        match result {
            Ok(rows) => extraction_of(left@, right@, diff_text@) == Ok::<
                (Seq<char>, Seq<char>),
                Seq<char>,
            >((rows.left@, rows.right@)),
            Err(message) => extraction_of(left@, right@, diff_text@) == Err::<
                (Seq<char>, Seq<char>),
                Seq<char>,
            >(message@),
        },
{
    let selection = match parse_diff_selection(diff_text) {
        Ok(selection) => selection,
        Err(message) => {
            return Err(message);
        },
    };
    match validate_selection_columns(left, &selection, "left") {
        Ok(()) => {},
        Err(message) => {
            return Err(message);
        },
    }
    match validate_selection_columns(right, &selection, "right") {
        Ok(()) => {},
        Err(message) => {
            return Err(message);
        },
    }
    let left_rows = extract_rows(left, &selection);
    let right_rows = extract_rows(right, &selection);
    let left_text = match write_csv(&left.headers, &left_rows) {
        Ok(text) => text,
        Err(message) => {
            return Err(message);
        },
    };
    let right_text = match write_csv(&right.headers, &right_rows) {
        Ok(text) => text,
        Err(message) => {
            return Err(message);
        },
    };
    Ok(ExtractedRows { left: left_text, right: right_text })
}

} // verus!
