//! States that are shown below a plot, as bits of a mask.
use vstd::prelude::*;

use crate::cells::{find_column_index, is_equal, is_at_most};
use crate::csv_key_diff::CsvData;
use crate::points::sort_pairs;
use crate::text::{chars_of, parse_number, position_of, same_text, string_between, to_decimal, trim};

verus! {

use crate::cells::{at_most, equals, no_column_text};
use crate::csv_key_diff::{option_text, CsvModel};
use crate::csv_label_split::sorted_labels;
use crate::csv_text::text_result;
use crate::points::sorted;
use crate::text::{
    decimal, first_place, first_place_is_first, number_error_text, number_value, text_rows, texts,
    trimmed, NumberError,
};

/// How many states a plot shows at most.
pub const MAX_STATE_DEFINITIONS: usize = 3;

/// A color: red, green, blue.
#[derive(Debug, Clone, Copy, PartialEq, Eq, Structural)]
pub struct StateColor(pub u8, pub u8, pub u8);

/// A state: its bit, its name, and the color in which it is shown.
#[derive(Debug, Clone, PartialEq, Eq)]
pub struct StateDefinition {
    pub bit: u64,
    pub label: String,
    pub color: StateColor,
}

/// What a [`StateDefinition`] says.
pub struct DefinitionModel {
    pub bit: u64,
    pub label: Seq<char>,
    pub color: StateColor,
}

impl View for StateDefinition {
    type V = DefinitionModel;

    open spec fn view(&self) -> DefinitionModel {
        DefinitionModel { bit: self.bit, label: self.label@, color: self.color }
    }
}

/// What a list of states says.
pub open spec fn definition_models(definitions: Seq<StateDefinition>) -> Seq<DefinitionModel> {
    Seq::new(definitions.len(), |i: int| definitions[i]@)
}

/// The message of a row without a value for the column.
pub open spec fn no_state_text(row_index: int, column: Seq<char>) -> Seq<char> {
    "row "@ + decimal((row_index + 1) as nat) + " is missing column value: "@ + column
}

/// The text of a cell, or the message that there is none.
pub open spec fn cell_of(
    row: Seq<Seq<char>>,
    index: int,
    column: Seq<char>,
    row_index: int,
) -> Result<Seq<char>, Seq<char>> {
    if index >= row.len() {
        Err(no_state_text(row_index, column))
    } else {
        Ok(row[index])
    }
}

/// The text of a cell of the row.
pub fn state_cell(row: &Vec<String>, index: usize, column: &str, row_index: usize) -> (result: Result<
    String,
    String,
>)
    requires
        row_index < usize::MAX,
    ensures
        text_result(result) == cell_of(texts(row@), index as int, column@, row_index as int),
{
    if index >= row.len() {
        let mut message = "row ".to_owned();
        message.append(to_decimal((row_index + 1) as u64).as_str());
        message.append(" is missing column value: ");
        message.append(column);
        return Err(message);
    }
    Ok(row[index].clone())
}

/// The number that a text stands for: in hexadecimal digits behind `0x`, and else in decimal
/// digits.
pub open spec fn mask_value(text: Seq<char>) -> Result<int, NumberError> {
    let value = trimmed(text);
    if value.len() >= 2 && (value.take(2) == "0x"@ || value.take(2) == "0X"@) {
        number_value(value.skip(2), 16, u64::MAX as int)
    } else {
        number_value(value, 10, u64::MAX as int)
    }
}

/// The number in a cell, or the message that there is none.
pub open spec fn mask_number(text: Seq<char>, row_index: int, column: Seq<char>) -> Result<
    u64,
    Seq<char>,
> {
    match mask_value(text) {
        Ok(value) => Ok(value as u64),
        Err(error) => Err(
            "failed to parse row "@ + decimal((row_index + 1) as nat) + " column "@ + column + ": "@
                + number_error_text(error),
        ),
    }
}

/// What a number that may be missing says.
pub open spec fn mask_result(result: Result<u64, String>) -> Result<u64, Seq<char>> {
    match result {
        Ok(value) => Ok(value),
        Err(message) => Err(message@),
    }
}

/// The number in a cell.
pub fn parse_u64_value(text: &str, row_index: usize, column: &str) -> (result: Result<u64, String>)
    requires
        row_index < usize::MAX,
    ensures
        mask_result(result) == mask_number(text@, row_index as int, column@),
{
    let value = trim(text);
    let chars = chars_of(value.as_str());
    proof {
        reveal_strlit("0x");
        reveal_strlit("0X");
    }
    let hex = chars.len() >= 2 && chars[0] == '0' && (chars[1] == 'x' || chars[1] == 'X');
    let ghost front = value@.take(2);
    proof {
        if value@.len() >= 2 {
            if hex {
                if chars@[1] == 'x' {
                    assert(front == "0x"@);
                } else {
                    assert(front == "0X"@);
                }
            } else {
                assert(front[0] == chars@[0] && front[1] == chars@[1]);
                assert("0x"@[0] == '0' && "0x"@[1] == 'x');
                assert("0X"@[0] == '0' && "0X"@[1] == 'X');
                assert(front != "0x"@);
                assert(front != "0X"@);
            }
        }
    }
    let parsed = if hex {
        let digits = string_between(&chars, 2, chars.len());
        assert(digits@ == value@.skip(2));
        parse_number(digits.as_str(), 16, u64::MAX)
    } else {
        parse_number(value.as_str(), 10, u64::MAX)
    };
    match parsed {
        Ok(number) => Ok(number),
        Err(error) => {
            let mut message = "failed to parse row ".to_owned();
            message.append(to_decimal((row_index + 1) as u64).as_str());
            message.append(" column ");
            message.append(column);
            message.append(": ");
            message.append(error.as_str());
            Err(message)
        },
    }
}

/// Whether the number is a power of two.
pub open spec fn is_one_bit(number: u64) -> bool {
    exists|k: u64| k < 64 && number == #[trigger] (1u64 << k)
}

fn one_bit(number: u64) -> (one: bool)
    ensures
        one == is_one_bit(number),
{
    for k in 0..64u64
        invariant
            forall|j: u64| j < k ==> number != #[trigger] (1u64 << j),
    {
        if number == 1u64 << k {
            return true;
        }
    }
    false
}

/// The bit in a cell, or the message that there is none.
pub open spec fn bit_number(text: Seq<char>, row_index: int) -> Result<u64, Seq<char>> {
    match mask_number(text, row_index, "bit"@) {
        Err(message) => Err(message),
        Ok(bit) => if is_one_bit(bit) {
            Ok(bit)
        } else {
            Err("row "@ + decimal((row_index + 1) as nat) + " column bit must contain one bit"@)
        },
    }
}

/// The bit in a cell.
pub fn parse_bit(text: &str, row_index: usize) -> (result: Result<u64, String>)
    requires
        row_index < usize::MAX,
    ensures
        mask_result(result) == bit_number(text@, row_index as int),
{
    match parse_u64_value(text, row_index, "bit") {
        Err(message) => Err(message),
        Ok(bit) => if one_bit(bit) {
            Ok(bit)
        } else {
            let mut message = "row ".to_owned();
            message.append(to_decimal((row_index + 1) as u64).as_str());
            message.append(" column bit must contain one bit");
            Err(message)
        },
    }
}

/// The text without the number signs at its front.
pub open spec fn without_signs(text: Seq<char>) -> Seq<char>
    decreases text.len(),
{
    if text.len() > 0 && text[0] == '#' {
        without_signs(text.drop_first())
    } else {
        text
    }
}

/// How many bytes the character takes in UTF-8.
pub open spec fn char_bytes(c: char) -> int {
    if (c as u32) < 0x80 {
        1
    } else if (c as u32) < 0x800 {
        2
    } else if (c as u32) < 0x10000 {
        3
    } else {
        4
    }
}

/// How many bytes the text takes in UTF-8.
pub open spec fn text_bytes(text: Seq<char>) -> int
    decreases text.len(),
{
    if text.len() == 0 {
        0
    } else {
        text_bytes(text.drop_last()) + char_bytes(text.last())
    }
}

/// The color that a text names, or the message that it names none. A text of six bytes that are
/// no six characters has no digits in their places.
pub open spec fn color_of(text: Seq<char>) -> Result<StateColor, Seq<char>> {
    let value = without_signs(trimmed(text));
    if value.len() == 0 {
        Err("state color must not be empty"@)
    } else if text_bytes(value) != 6 {
        Err("state color must be #RRGGBB: "@ + value)
    } else if value.len() != 6 {
        Err(number_error_text(NumberError::InvalidDigit))
    } else {
        match (
            number_value(value.subrange(0, 2), 16, u8::MAX as int),
            number_value(value.subrange(2, 4), 16, u8::MAX as int),
            number_value(value.subrange(4, 6), 16, u8::MAX as int),
        ) {
            (Err(error), _, _) => Err(number_error_text(error)),
            (Ok(_), Err(error), _) => Err(number_error_text(error)),
            (Ok(_), Ok(_), Err(error)) => Err(number_error_text(error)),
            (Ok(red), Ok(green), Ok(blue)) => Ok(StateColor(red as u8, green as u8, blue as u8)),
        }
    }
}

/// What a color that may be missing says.
pub open spec fn color_result(result: Result<StateColor, String>) -> Result<
    StateColor,
    Seq<char>,
> {
    match result {
        Ok(color) => Ok(color),
        Err(message) => Err(message@),
    }
}

proof fn bytes_are_more_than_chars(text: Seq<char>, count: int)
    requires
        0 <= count <= text.len(),
    ensures
        text_bytes(text.take(count)) >= count,
        text_bytes(text) >= text_bytes(text.take(count)) + (text.len() - count),
    decreases text.len(),
{
    if text.len() == 0 {
        assert(text.take(count) == text);
    } else if count == text.len() {
        assert(text.take(count) == text);
        bytes_are_more_than_chars(text.drop_last(), count - 1);
        assert(text.drop_last().take(count - 1) == text.drop_last());
    } else {
        assert(text.drop_last().take(count) == text.take(count));
        bytes_are_more_than_chars(text.drop_last(), count);
    }
}

/// Whether the text takes six bytes in UTF-8.
fn is_six_bytes(chars: &Vec<char>) -> (six: bool)
    ensures
        six == (text_bytes(chars@) == 6),
{
    let mut bytes: usize = 0;
    assert(chars@.take(0) == Seq::<char>::empty());
    for i in 0..chars.len()
        invariant
            bytes == text_bytes(chars@.take(i as int)),
            bytes <= 6,
    {
        assert(chars@.take(i + 1).drop_last() == chars@.take(i as int));
        let c = chars[i] as u32;
        let width: usize = if c < 0x80 {
            1
        } else if c < 0x800 {
            2
        } else if c < 0x10000 {
            3
        } else {
            4
        };
        bytes = bytes + width;
        if bytes > 6 {
            proof {
                bytes_are_more_than_chars(chars@, i + 1);
            }
            return false;
        }
    }
    assert(chars@.take(chars@.len() as int) == chars@);
    bytes == 6
}

/// The color that the text names.
pub fn parse_state_color(text: &str) -> (result: Result<StateColor, String>)
    ensures
        color_result(result) == color_of(text@),
{
    let value = trim(text);
    let all = chars_of(value.as_str());
    let mut from: usize = 0;
    assert(all@.skip(0) == all@);
    while from < all.len() && all[from] == '#'
        invariant
            from <= all@.len(),
            without_signs(all@) == without_signs(all@.skip(from as int)),
        decreases all@.len() - from,
    {
        assert(all@.skip(from as int).drop_first() == all@.skip(from + 1));
        from = from + 1;
    }
    let rest = string_between(&all, from, all.len());
    assert(rest@ == all@.skip(from as int));
    assert(rest@ == without_signs(trimmed(text@)));
    let chars = chars_of(rest.as_str());
    if chars.len() == 0 {
        return Err("state color must not be empty".to_owned());
    }
    if !is_six_bytes(&chars) {
        let mut message = "state color must be #RRGGBB: ".to_owned();
        message.append(rest.as_str());
        return Err(message);
    }
    if chars.len() != 6 {
        return Err("invalid digit found in string".to_owned());
    }
    let red = match parse_number(string_between(&chars, 0, 2).as_str(), 16, 255) {
        Ok(red) => red,
        Err(message) => {
            return Err(message);
        },
    };
    let green = match parse_number(string_between(&chars, 2, 4).as_str(), 16, 255) {
        Ok(green) => green,
        Err(message) => {
            return Err(message);
        },
    };
    let blue = match parse_number(string_between(&chars, 4, 6).as_str(), 16, 255) {
        Ok(blue) => blue,
        Err(message) => {
            return Err(message);
        },
    };
    Ok(StateColor(red as u8, green as u8, blue as u8))
}

/// The color of a state without one of its own.
pub open spec fn auto_color(index: int) -> StateColor {
    if index == 0 {
        StateColor(225, 87, 89)
    } else if index == 1 {
        StateColor(80, 170, 220)
    } else {
        StateColor(244, 180, 0)
    }
}

/// The color of a state without one of its own.
pub fn auto_state_color(index: usize) -> (color: StateColor)
    requires
        index < MAX_STATE_DEFINITIONS,
    ensures
        color == auto_color(index as int),
{
    if index == 0 {
        StateColor(225, 87, 89)
    } else if index == 1 {
        StateColor(80, 170, 220)
    } else {
        StateColor(244, 180, 0)
    }
}

/// The color in a cell of a row, or why there is none.
pub open spec fn color_in(
    row: Seq<Seq<char>>,
    color_index: Option<int>,
    row_index: int,
) -> Result<StateColor, Seq<char>> {
    match color_index {
        None => Ok(auto_color(row_index)),
        Some(index) => match cell_of(row, index, "color"@, row_index) {
            Err(message) => Err(message),
            Ok(text) => if trimmed(text).len() == 0 {
                Ok(auto_color(row_index))
            } else {
                color_of(text)
            },
        },
    }
}

/// The state that a row defines, or why it defines none, where `bits` are those of the states
/// before it.
pub open spec fn definition_of(
    row: Seq<Seq<char>>,
    bit_index: int,
    label_index: int,
    color_index: Option<int>,
    row_index: int,
    bits: Seq<u64>,
) -> Result<DefinitionModel, Seq<char>> {
    match cell_of(row, bit_index, "bit"@, row_index) {
        Err(message) => Err(message),
        Ok(text) => match bit_number(text, row_index) {
            Err(message) => Err(message),
            Ok(bit) => if bits.contains(bit) {
                Err("duplicate state bit: "@ + decimal(bit as nat))
            } else {
                match cell_of(row, label_index, "label"@, row_index) {
                    Err(message) => Err(message),
                    Ok(label) => if trimmed(label).len() == 0 {
                        Err(
                            "row "@ + decimal((row_index + 1) as nat)
                                + " column label must not be empty"@,
                        )
                    } else {
                        match color_in(row, color_index, row_index) {
                            Err(message) => Err(message),
                            Ok(color) => Ok(DefinitionModel { bit, label: trimmed(label), color }),
                        }
                    },
                }
            },
        },
    }
}

/// The bits of the states.
pub open spec fn bits_of(definitions: Seq<DefinitionModel>) -> Seq<u64> {
    Seq::new(definitions.len(), |i: int| definitions[i].bit)
}

/// The states that the first `count` rows define, or why one defines none.
pub open spec fn definitions_upto(
    rows: Seq<Seq<Seq<char>>>,
    bit_index: int,
    label_index: int,
    color_index: Option<int>,
    count: int,
) -> Result<Seq<DefinitionModel>, Seq<char>>
    decreases count,
{
    if count <= 0 {
        Ok(Seq::empty())
    } else {
        match definitions_upto(rows, bit_index, label_index, color_index, count - 1) {
            Err(message) => Err(message),
            Ok(before) => match definition_of(
                rows[count - 1],
                bit_index,
                label_index,
                color_index,
                count - 1,
                bits_of(before),
            ) {
                Err(message) => Err(message),
                Ok(definition) => Ok(before.push(definition)),
            },
        }
    }
}

proof fn definitions_stop(
    rows: Seq<Seq<Seq<char>>>,
    bit_index: int,
    label_index: int,
    color_index: Option<int>,
    count: int,
    total: int,
)
    requires
        count <= total,
        definitions_upto(rows, bit_index, label_index, color_index, count) is Err,
    ensures
        definitions_upto(rows, bit_index, label_index, color_index, total) == definitions_upto(
            rows,
            bit_index,
            label_index,
            color_index,
            count,
        ),
    decreases total - count,
{
    if count < total {
        definitions_stop(rows, bit_index, label_index, color_index, count, total - 1);
    }
}

/// The place of the column, if it is there.
pub open spec fn place_in(headers: Seq<Seq<char>>, name: Seq<char>) -> Option<int> {
    if headers.contains(name) {
        Some(first_place(headers, name))
    } else {
        None
    }
}

/// The states that a table defines, or why it defines none.
pub open spec fn definitions_in(csv: CsvModel) -> Result<Seq<DefinitionModel>, Seq<char>> {
    match (place_in(csv.headers, "bit"@), place_in(csv.headers, "label"@)) {
        (None, _) => Err(no_column_text("bit"@)),
        (Some(_), None) => Err(no_column_text("label"@)),
        (Some(bit_index), Some(label_index)) => if csv.rows.len() == 0 {
            Err("state CSV requires at least one state definition"@)
        } else if csv.rows.len() > MAX_STATE_DEFINITIONS {
            Err("state CSV supports at most "@ + decimal(3) + " state definitions"@)
        } else {
            definitions_upto(
                csv.rows,
                bit_index,
                label_index,
                place_in(csv.headers, "color"@),
                csv.rows.len() as int,
            )
        },
    }
}

/// What a list of states that may be missing says.
pub open spec fn definitions_result(result: Result<Vec<StateDefinition>, String>) -> Result<
    Seq<DefinitionModel>,
    Seq<char>,
> {
    match result {
        Ok(definitions) => Ok(definition_models(definitions@)),
        Err(message) => Err(message@),
    }
}

/// What a state that may be missing says.
pub open spec fn definition_result(result: Result<StateDefinition, String>) -> Result<
    DefinitionModel,
    Seq<char>,
> {
    match result {
        Ok(definition) => Ok(definition@),
        Err(message) => Err(message@),
    }
}

fn has_bit(definitions: &Vec<StateDefinition>, bit: u64) -> (has: bool)
    ensures
        has == bits_of(definition_models(definitions@)).contains(bit),
{
    let ghost bits = bits_of(definition_models(definitions@));
    for i in 0..definitions.len()
        invariant
            bits == bits_of(definition_models(definitions@)),
            forall|k: int| 0 <= k < i ==> bits[k] != bit,
    {
        assert(bits[i as int] == definitions@[i as int].bit);
        if definitions[i].bit == bit {
            return true;
        }
    }
    false
}

/// What a place that may be missing says.
pub open spec fn some_place(place: Option<usize>) -> Option<int> {
    match place {
        Some(place) => Some(place as int),
        None => None,
    }
}

fn read_color(row: &Vec<String>, color_index: Option<usize>, row_index: usize) -> (result: Result<
    StateColor,
    String,
>)
    requires
        row_index < MAX_STATE_DEFINITIONS,
    ensures
        color_result(result) == color_in(texts(row@), some_place(color_index), row_index as int),
{
    match color_index {
        None => Ok(auto_state_color(row_index)),
        Some(index) => match state_cell(row, index, "color", row_index) {
            Err(message) => Err(message),
            Ok(text) => if trim(text.as_str()).as_str().is_empty() {
                Ok(auto_state_color(row_index))
            } else {
                parse_state_color(text.as_str())
            },
        },
    }
}

fn read_definition(
    row: &Vec<String>,
    bit_index: usize,
    label_index: usize,
    color_index: Option<usize>,
    row_index: usize,
    before: &Vec<StateDefinition>,
) -> (result: Result<StateDefinition, String>)
    requires
        row_index < MAX_STATE_DEFINITIONS,
    ensures
        definition_result(result) == definition_of(
            texts(row@),
            bit_index as int,
            label_index as int,
            some_place(color_index),
            row_index as int,
            bits_of(definition_models(before@)),
        ),
{
    let text = match state_cell(row, bit_index, "bit", row_index) {
        Ok(text) => text,
        Err(message) => {
            return Err(message);
        },
    };
    let bit = match parse_bit(text.as_str(), row_index) {
        Ok(bit) => bit,
        Err(message) => {
            return Err(message);
        },
    };
    if has_bit(before, bit) {
        let mut message = "duplicate state bit: ".to_owned();
        message.append(to_decimal(bit).as_str());
        return Err(message);
    }
    let label = match state_cell(row, label_index, "label", row_index) {
        Ok(label) => trim(label.as_str()),
        Err(message) => {
            return Err(message);
        },
    };
    if label.as_str().is_empty() {
        let mut message = "row ".to_owned();
        message.append(to_decimal((row_index + 1) as u64).as_str());
        message.append(" column label must not be empty");
        return Err(message);
    }
    match read_color(row, color_index, row_index) {
        Ok(color) => Ok(StateDefinition { bit, label, color }),
        Err(message) => Err(message),
    }
}

/// The states that the table defines.
pub fn load_state_definitions(csv: &CsvData) -> (result: Result<Vec<StateDefinition>, String>)
    ensures
        definitions_result(result) == definitions_in(csv@),
{
    let bit_index = match find_column_index(&csv.headers, "bit") {
        Ok(index) => index,
        Err(message) => {
            return Err(message);
        },
    };
    let label_index = match find_column_index(&csv.headers, "label") {
        Ok(index) => index,
        Err(message) => {
            return Err(message);
        },
    };
    let color_index = position_of(&csv.headers, "color");
    proof {
        first_place_is_first(csv@.headers, "color"@);
    }
    assert(some_place(color_index) == place_in(csv@.headers, "color"@));
    if csv.rows.len() == 0 {
        return Err("state CSV requires at least one state definition".to_owned());
    }
    if csv.rows.len() > MAX_STATE_DEFINITIONS {
        let mut message = "state CSV supports at most ".to_owned();
        message.append(to_decimal(MAX_STATE_DEFINITIONS as u64).as_str());
        message.append(" state definitions");
        return Err(message);
    }
    let ghost rows = text_rows(csv.rows@);
    let mut definitions: Vec<StateDefinition> = Vec::new();
    assert(definition_models(definitions@) == Seq::<DefinitionModel>::empty());
    for i in 0..csv.rows.len()
        invariant
            rows == text_rows(csv.rows@),
            rows.len() <= MAX_STATE_DEFINITIONS,
            definitions_in(csv@) == definitions_upto(
                rows,
                bit_index as int,
                label_index as int,
                some_place(color_index),
                rows.len() as int,
            ),
            definitions_upto(
                rows,
                bit_index as int,
                label_index as int,
                some_place(color_index),
                i as int,
            ) == Ok::<Seq<DefinitionModel>, Seq<char>>(definition_models(definitions@)),
    {
        assert(rows[i as int] == texts(csv.rows@[i as int]@));
        match read_definition(
            &csv.rows[i],
            bit_index,
            label_index,
            color_index,
            i,
            &definitions,
        ) {
            Ok(definition) => {
                let ghost before = definitions@;
                definitions.push(definition);
                assert(definition_models(definitions@) == definition_models(before).push(
                    definition@,
                ));
            },
            Err(message) => {
                proof {
                    definitions_stop(
                        rows,
                        bit_index as int,
                        label_index as int,
                        some_place(color_index),
                        i + 1,
                        rows.len() as int,
                    );
                }
                return Err(message);
            },
        }
    }
    Ok(definitions)
}

/// All bits of the states.
pub open spec fn known_bits(definitions: Seq<DefinitionModel>) -> u64
    decreases definitions.len(),
{
    if definitions.len() == 0 {
        0
    } else {
        known_bits(definitions.drop_last()) | definitions.last().bit
    }
}

/// All bits of the states.
pub fn combine_bits(definitions: &Vec<StateDefinition>) -> (bits: u64)
    ensures
        bits == known_bits(definition_models(definitions@)),
{
    let ghost all = definition_models(definitions@);
    let mut bits: u64 = 0;
    assert(all.take(0) == Seq::<DefinitionModel>::empty());
    for i in 0..definitions.len()
        invariant
            all == definition_models(definitions@),
            bits == known_bits(all.take(i as int)),
    {
        assert(all.take(i + 1).drop_last() == all.take(i as int));
        assert(all.take(i + 1).last() == definitions@[i as int]@);
        bits = bits | definitions[i].bit;
    }
    assert(all.take(all.len() as int) == all);
    bits
}

/// The mask in a cell of a row, or why there is none.
pub open spec fn mask_in(
    row: Seq<Seq<char>>,
    index: int,
    column: Seq<char>,
    known: u64,
    row_index: int,
) -> Result<u64, Seq<char>> {
    match cell_of(row, index, column, row_index) {
        Err(message) => Err(message),
        Ok(text) => match mask_number(trimmed(text), row_index, column) {
            Err(message) => Err(message),
            Ok(mask) => if mask & !known != 0 {
                Err(
                    "row "@ + decimal((row_index + 1) as nat) + " column "@ + column
                        + " contains bits missing from the state CSV"@,
                )
            } else {
                Ok(mask)
            },
        },
    }
}

/// The masks of the first `count` rows, or why one has none.
pub open spec fn masks_upto(
    rows: Seq<Seq<Seq<char>>>,
    index: int,
    column: Seq<char>,
    known: u64,
    count: int,
) -> Result<Seq<u64>, Seq<char>>
    decreases count,
{
    if count <= 0 {
        Ok(Seq::empty())
    } else {
        match masks_upto(rows, index, column, known, count - 1) {
            Err(message) => Err(message),
            Ok(before) => match mask_in(rows[count - 1], index, column, known, count - 1) {
                Err(message) => Err(message),
                Ok(mask) => Ok(before.push(mask)),
            },
        }
    }
}

proof fn masks_stop(
    rows: Seq<Seq<Seq<char>>>,
    index: int,
    column: Seq<char>,
    known: u64,
    count: int,
    total: int,
)
    requires
        count <= total,
        masks_upto(rows, index, column, known, count) is Err,
    ensures
        masks_upto(rows, index, column, known, total) == masks_upto(
            rows,
            index,
            column,
            known,
            count,
        ),
    decreases total - count,
{
    if count < total {
        masks_stop(rows, index, column, known, count, total - 1);
    }
}

/// What a list of masks that may be missing says.
pub open spec fn masks_result(result: Result<Vec<u64>, String>) -> Result<Seq<u64>, Seq<char>> {
    match result {
        Ok(masks) => Ok(masks@),
        Err(message) => Err(message@),
    }
}

/// The mask in a cell of the row.
pub fn parse_state_mask(
    row: &Vec<String>,
    index: usize,
    column: &str,
    known: u64,
    row_index: usize,
) -> (result: Result<u64, String>)
    requires
        row_index < usize::MAX,
    ensures
        mask_result(result) == mask_in(
            texts(row@),
            index as int,
            column@,
            known,
            row_index as int,
        ),
{
    let text = match state_cell(row, index, column, row_index) {
        Ok(text) => trim(text.as_str()),
        Err(message) => {
            return Err(message);
        },
    };
    match parse_u64_value(text.as_str(), row_index, column) {
        Err(message) => Err(message),
        Ok(mask) => if mask & !known != 0 {
            let mut message = "row ".to_owned();
            message.append(to_decimal((row_index + 1) as u64).as_str());
            message.append(" column ");
            message.append(column);
            message.append(" contains bits missing from the state CSV");
            Err(message)
        } else {
            Ok(mask)
        },
    }
}

/// The masks of the rows.
pub fn read_masks(rows: &Vec<Vec<String>>, index: usize, column: &str, known: u64) -> (result: Result<
    Vec<u64>,
    String,
>)
    ensures
        masks_result(result) == masks_upto(
            text_rows(rows@),
            index as int,
            column@,
            known,
            rows@.len() as int,
        ),
{
    let ghost all = text_rows(rows@);
    let mut masks: Vec<u64> = Vec::new();
    for i in 0..rows.len()
        invariant
            all == text_rows(rows@),
            masks_upto(all, index as int, column@, known, i as int) == Ok::<Seq<u64>, Seq<char>>(
                masks@,
            ),
    {
        assert(all[i as int] == texts(rows@[i as int]@));
        match parse_state_mask(&rows[i], index, column, known, i) {
            Ok(mask) => {
                masks.push(mask);
            },
            Err(message) => {
                proof {
                    masks_stop(all, index as int, column@, known, i + 1, rows@.len() as int);
                }
                return Err(message);
            },
        }
    }
    Ok(masks)
}

/// The items whose label is the given one.
pub open spec fn with_label<T>(
    items: Seq<T>,
    labels: Seq<Seq<char>>,
    label: Seq<char>,
) -> Seq<T>
    decreases items.len(),
{
    if items.len() == 0 {
        items
    } else {
        let before = with_label(items.drop_last(), labels, label);
        if labels[items.len() - 1] == label {
            before.push(items.last())
        } else {
            before
        }
    }
}

/// The items whose label is the given one.
pub fn take_with_label<T: Copy>(items: &Vec<T>, labels: &Vec<String>, label: &str) -> (taken: Vec<
    T,
>)
    requires
        labels@.len() == items@.len(),
    ensures
        taken@ == with_label(items@, texts(labels@), label@),
{
    let mut taken: Vec<T> = Vec::new();
    assert(items@.take(0) == Seq::<T>::empty());
    for i in 0..items.len()
        invariant
            labels@.len() == items@.len(),
            taken@ == with_label(items@.take(i as int), texts(labels@), label@),
    {
        assert(items@.take(i + 1).drop_last() == items@.take(i as int));
        assert(texts(labels@)[i as int] == labels@[i as int]@);
        if same_text(labels[i].as_str(), label) {
            taken.push(items[i]);
        }
    }
    assert(items@.take(items@.len() as int) == items@);
    taken
}

/// The points, with the masks of points at the same place combined into one.
pub open spec fn merged(points: Seq<(i64, u64)>) -> Seq<(i64, u64)>
    decreases points.len(),
{
    if points.len() == 0 {
        points
    } else {
        let before = merged(points.drop_last());
        let (x, mask) = points.last();
        if before.len() > 0 && equals(before.last().0, x) {
            before.drop_last().push((before.last().0, before.last().1 | mask))
        } else {
            before.push((x, mask))
        }
    }
}

/// The places at which masks are combined.
pub open spec fn combined(points: Seq<(i64, u64)>) -> Seq<i64>
    decreases points.len(),
{
    if points.len() == 0 {
        Seq::empty()
    } else {
        let before = combined(points.drop_last());
        let others = merged(points.drop_last());
        if others.len() > 0 && equals(others.last().0, points.last().0) {
            before.push(points.last().0)
        } else {
            before
        }
    }
}

/// The points in order, with the masks of points at the same place combined into one, and the
/// places at which that was done.
pub fn merge_state_points(points: &Vec<(i64, u64)>) -> (result: (Vec<(i64, u64)>, Vec<i64>))
    ensures
        result.0@ == merged(sorted(points@)),
        result.1@ == combined(sorted(points@)),
{
    let ordered = sort_pairs(points);
    let mut masks: Vec<(i64, u64)> = Vec::new();
    let mut places: Vec<i64> = Vec::new();
    assert(ordered@.take(0) == Seq::<(i64, u64)>::empty());
    for i in 0..ordered.len()
        invariant
            masks@ == merged(ordered@.take(i as int)),
            places@ == combined(ordered@.take(i as int)),
    {
        assert(ordered@.take(i + 1).drop_last() == ordered@.take(i as int));
        let (x, mask) = ordered[i];
        let count = masks.len();
        if count > 0 && is_equal(masks[count - 1].0, x) {
            let (place, before) = masks[count - 1];
            masks.set(count - 1, (place, before | mask));
            places.push(x);
            assert(masks@ == merged(ordered@.take(i as int)).drop_last().push(
                (place, before | mask),
            ));
        } else {
            masks.push((x, mask));
        }
    }
    assert(ordered@.take(ordered@.len() as int) == ordered@);
    (masks, places)
}

/// The masks of the rows with the same label, or of all rows, over the places at which they
/// begin. `combined` are the places at which masks of several rows were combined.
#[derive(Debug, Clone, PartialEq, Eq)]
pub struct StateTrack {
    pub label: Option<String>,
    pub points: Vec<(i64, u64)>,
    pub combined: Vec<i64>,
}

/// What a [`StateTrack`] says.
#[verifier::ext_equal]
pub struct TrackModel {
    pub label: Option<Seq<char>>,
    pub points: Seq<(i64, u64)>,
    pub combined: Seq<i64>,
}

impl View for StateTrack {
    type V = TrackModel;

    open spec fn view(&self) -> TrackModel {
        TrackModel {
            label: option_text(self.label),
            points: self.points@,
            combined: self.combined@,
        }
    }
}

/// What a list of tracks says.
pub open spec fn track_models(tracks: Seq<StateTrack>) -> Seq<TrackModel> {
    Seq::new(tracks.len(), |i: int| tracks[i]@)
}

/// The states of a plot, and where they hold.
#[derive(Debug, Clone, PartialEq, Eq)]
pub struct StateBands {
    pub definitions: Vec<StateDefinition>,
    pub tracks: Vec<StateTrack>,
}

/// What a [`StateBands`] says.
#[verifier::ext_equal]
pub struct BandsModel {
    pub definitions: Seq<DefinitionModel>,
    pub tracks: Seq<TrackModel>,
}

impl View for StateBands {
    type V = BandsModel;

    open spec fn view(&self) -> BandsModel {
        BandsModel {
            definitions: definition_models(self.definitions@),
            tracks: track_models(self.tracks@),
        }
    }
}

/// The track of the points.
pub open spec fn track_of(label: Option<Seq<char>>, points: Seq<(i64, u64)>) -> TrackModel {
    TrackModel { label, points: merged(sorted(points)), combined: combined(sorted(points)) }
}

/// The places with their masks.
pub open spec fn pairs<A, B>(left: Seq<A>, right: Seq<B>) -> Seq<(A, B)> {
    Seq::new(left.len(), |i: int| (left[i], right[i]))
}

/// The tracks of the rows: one for each label, in order, or one for all rows, if they have no
/// labels.
pub open spec fn tracks_of(
    points: Seq<(i64, u64)>,
    labels: Option<Seq<Seq<char>>>,
) -> Seq<TrackModel> {
    match labels {
        Some(labels) => {
            let names = sorted_labels(labels);
            Seq::new(
                names.len(),
                |i: int| track_of(Some(names[i]), with_label(points, labels, names[i])),
            )
        },
        None => if points.len() == 0 {
            Seq::empty()
        } else {
            seq![track_of(None, points)]
        },
    }
}

/// What labels that may be missing say.
pub open spec fn some_texts(labels: Option<&Vec<String>>) -> Option<Seq<Seq<char>>> {
    match labels {
        Some(labels) => Some(texts(labels@)),
        None => None,
    }
}

fn make_tracks(points: &Vec<(i64, u64)>, labels: Option<&Vec<String>>) -> (tracks: Vec<StateTrack>)
    requires
        labels matches Some(labels) ==> labels@.len() == points@.len(),
    ensures
        track_models(tracks@) == tracks_of(points@, some_texts(labels)),
{
    let mut tracks: Vec<StateTrack> = Vec::new();
    match labels {
        Some(labels) => {
            let names = crate::csv_label_split::sort_labels(labels);
            let ghost wanted = tracks_of(points@, Some(texts(labels@)));
            assert(track_models(tracks@) == wanted.take(0));
            for i in 0..names.len()
                invariant
                    labels@.len() == points@.len(),
                    texts(names@) == sorted_labels(texts(labels@)),
                    wanted == tracks_of(points@, Some(texts(labels@))),
                    track_models(tracks@) == wanted.take(i as int),
            {
                assert(texts(names@)[i as int] == names@[i as int]@);
                let own = take_with_label(points, labels, names[i].as_str());
                let (merged_points, places) = merge_state_points(&own);
                let track = StateTrack {
                    label: Some(names[i].clone()),
                    points: merged_points,
                    combined: places,
                };
                let ghost before = tracks@;
                tracks.push(track);
                assert(track@ == wanted[i as int]);
                assert(track_models(tracks@) == track_models(before).push(track@));
                assert(wanted.take(i + 1) == wanted.take(i as int).push(wanted[i as int]));
            }
            assert(wanted.take(wanted.len() as int) == wanted);
        },
        None => {
            if points.len() > 0 {
                let (merged_points, places) = merge_state_points(points);
                tracks.push(
                    StateTrack { label: None, points: merged_points, combined: places },
                );
                assert(track_models(tracks@)[0] == track_of(None, points@));
            }
            assert(track_models(tracks@) == tracks_of(points@, None));
        },
    }
    tracks
}

/// The states of a plot, or why there are none. `places` are those of the rows; `state_csv` is the
/// table that defines the states, or why it could not be read.
pub open spec fn bands_of(
    csv: CsvModel,
    places: Seq<i64>,
    labels: Option<Seq<Seq<char>>>,
    state_column: Seq<char>,
    state_csv: Result<CsvModel, Seq<char>>,
) -> Result<BandsModel, Seq<char>> {
    match place_in(csv.headers, state_column) {
        None => Err(no_column_text(state_column)),
        Some(index) => match state_csv {
            Err(message) => Err(message),
            Ok(table) => match definitions_in(table) {
                Err(message) => Err(message),
                Ok(definitions) => match masks_upto(
                    csv.rows,
                    index,
                    state_column,
                    known_bits(definitions),
                    csv.rows.len() as int,
                ) {
                    Err(message) => Err(message),
                    Ok(masks) => Ok(
                        BandsModel { definitions, tracks: tracks_of(pairs(places, masks), labels) },
                    ),
                },
            },
        },
    }
}

/// What states that may be missing say.
pub open spec fn bands_result(result: Result<StateBands, String>) -> Result<
    BandsModel,
    Seq<char>,
> {
    match result {
        Ok(bands) => Ok(bands@),
        Err(message) => Err(message@),
    }
}

proof fn masks_count(
    rows: Seq<Seq<Seq<char>>>,
    index: int,
    column: Seq<char>,
    known: u64,
    count: int,
)
    requires
        0 <= count,
    ensures
        masks_upto(rows, index, column, known, count) matches Ok(masks) ==> masks.len() == count,
    decreases count,
{
    if count > 0 {
        masks_count(rows, index, column, known, count - 1);
    }
}

/// The states of the plot of the rows at the places.
pub fn load_state_bands(
    csv: &CsvData,
    places: &Vec<i64>,
    labels: Option<&Vec<String>>,
    state_column: &str,
    state_csv: &Result<CsvData, String>,
) -> (result: Result<StateBands, String>)
    requires
        places@.len() == csv.rows@.len(),
        labels matches Some(labels) ==> labels@.len() == csv.rows@.len(),
    ensures
        bands_result(result) == bands_of(
            csv@,
            places@,
            some_texts(labels),
            state_column@,
            crate::csv_key_diff::csv_result(*state_csv),
        ),
{
    let state_index = match find_column_index(&csv.headers, state_column) {
        Ok(index) => index,
        Err(message) => {
            return Err(message);
        },
    };
    let table = match state_csv {
        Ok(table) => table,
        Err(message) => {
            return Err(message.clone());
        },
    };
    let definitions = match load_state_definitions(table) {
        Ok(definitions) => definitions,
        Err(message) => {
            return Err(message);
        },
    };
    let known = combine_bits(&definitions);
    let masks = match read_masks(&csv.rows, state_index, state_column, known) {
        Ok(masks) => masks,
        Err(message) => {
            return Err(message);
        },
    };
    proof {
        masks_count(
            csv@.rows,
            state_index as int,
            state_column@,
            known,
            csv.rows@.len() as int,
        );
    }
    let mut points: Vec<(i64, u64)> = Vec::new();
    for i in 0..places.len()
        invariant
            masks@.len() == places@.len(),
            points@ == pairs(places@, masks@).take(i as int),
    {
        points.push((places[i], masks[i]));
        assert(pairs(places@, masks@).take(i + 1) == pairs(places@, masks@).take(i as int).push(
            (places@[i as int], masks@[i as int]),
        ));
    }
    assert(points@ == pairs(places@, masks@));
    let tracks = make_tracks(&points, labels);
    Ok(StateBands { definitions, tracks })
}

/// The mask that holds at a place: that of the last point that does not lie behind it.
pub open spec fn mask_at(points: Seq<(i64, u64)>, place: i64) -> u64
    decreases points.len(),
{
    if points.len() == 0 {
        0
    } else if at_most(points.last().0, place) {
        points.last().1
    } else {
        mask_at(points.drop_last(), place)
    }
}

/// The mask that holds at the place.
pub fn state_mask_at(track: &StateTrack, place: i64) -> (mask: u64)
    ensures
        mask == mask_at(track.points@, place),
{
    let mut end: usize = track.points.len();
    assert(track.points@.take(end as int) == track.points@);
    while end > 0
        invariant
            end <= track.points@.len(),
            mask_at(track.points@, place) == mask_at(track.points@.take(end as int), place),
        decreases end,
    {
        let (x, mask) = track.points[end - 1];
        assert(track.points@.take(end as int).last() == (x, mask));
        if is_at_most(x, place) {
            return mask;
        }
        assert(track.points@.take(end as int).drop_last() == track.points@.take(end - 1));
        end = end - 1;
    }
    assert(track.points@.take(0) == Seq::<(i64, u64)>::empty());
    0
}

/// Whether a state holds at the place.
pub fn is_active(track: &StateTrack, definition: &StateDefinition, place: i64) -> (active: bool)
    ensures
        active == (mask_at(track.points@, place) & definition.bit != 0),
{
    state_mask_at(track, place) & definition.bit != 0
}

/// The lanes of the first `tracks` tracks: one for each state of each track.
pub open spec fn lanes_upto(tracks: int, definitions: int) -> Seq<(usize, usize)>
    decreases tracks,
{
    if tracks <= 0 {
        Seq::empty()
    } else {
        lanes_upto(tracks - 1, definitions) + Seq::new(
            definitions as nat,
            |i: int| ((tracks - 1) as usize, i as usize),
        )
    }
}

/// There is a lane for each state of each track.
pub proof fn lanes_count(tracks: int, definitions: int)
    requires
        0 <= tracks,
        0 <= definitions,
    ensures
        lanes_upto(tracks, definitions).len() == tracks * definitions,
        forall|i: int|
            0 <= i < lanes_upto(tracks, definitions).len() && tracks <= usize::MAX && definitions
                <= usize::MAX ==> (#[trigger] lanes_upto(tracks, definitions)[i]).0 < tracks
                && lanes_upto(tracks, definitions)[i].1 < definitions,
    decreases tracks,
{
    if tracks > 0 {
        lanes_count(tracks - 1, definitions);
        assert(tracks * definitions == (tracks - 1) * definitions + definitions)
            by (nonlinear_arith);
    } else {
        assert(tracks * definitions == 0) by (nonlinear_arith)
            requires
                tracks == 0,
        ;
    }
}

/// The lanes, from the top: the place of the track and that of the state.
pub fn state_lanes(bands: &StateBands) -> (lanes: Vec<(usize, usize)>)
    ensures
        lanes@ == lanes_upto(bands.tracks@.len() as int, bands.definitions@.len() as int),
{
    let mut lanes: Vec<(usize, usize)> = Vec::new();
    let count = bands.definitions.len();
    for track in 0..bands.tracks.len()
        invariant
            count == bands.definitions@.len(),
            lanes@ == lanes_upto(track as int, count as int),
    {
        let ghost wanted = Seq::new(count as nat, |i: int| (track, i as usize));
        let ghost before = lanes@;
        for definition in 0..count
            invariant
                wanted == Seq::new(count as nat, |i: int| (track, i as usize)),
                lanes@ == before + wanted.take(definition as int),
        {
            lanes.push((track, definition));
            assert(wanted.take(definition + 1) == wanted.take(definition as int).push(
                (track, definition),
            ));
        }
        assert(wanted.take(count as int) == wanted);
    }
    lanes
}

/// How many lanes there are.
pub fn state_lane_count(bands: &StateBands) -> (count: usize)
    requires
        bands.tracks@.len() * bands.definitions@.len() <= usize::MAX,
    ensures
        count == lanes_upto(bands.tracks@.len() as int, bands.definitions@.len() as int).len(),
{
    proof {
        lanes_count(bands.tracks@.len() as int, bands.definitions@.len() as int);
    }
    bands.tracks.len() * bands.definitions.len()
}

/// The name of a lane.
pub open spec fn lane_label(track: TrackModel, definition: DefinitionModel) -> Seq<char> {
    match track.label {
        Some(label) => label + " / "@ + definition.label,
        None => definition.label,
    }
}

/// The name of the lane.
pub fn state_lane_label(track: &StateTrack, definition: &StateDefinition) -> (label: String)
    ensures
        label@ == lane_label(track@, definition@),
{
    match &track.label {
        Some(label) => {
            let mut text = label.clone();
            text.append(" / ");
            text.append(definition.label.as_str());
            text
        },
        None => definition.label.clone(),
    }
}

/// The names of the lanes.
pub open spec fn lane_labels(bands: BandsModel) -> Seq<Seq<char>> {
    let lanes = lanes_upto(bands.tracks.len() as int, bands.definitions.len() as int);
    Seq::new(
        lanes.len(),
        |i: int| lane_label(bands.tracks[lanes[i].0 as int], bands.definitions[lanes[i].1 as int]),
    )
}

/// The names of the lanes.
pub fn state_lane_labels(bands: &StateBands) -> (labels: Vec<String>)
    ensures
        texts(labels@) == lane_labels(bands@),
{
    let lanes = state_lanes(bands);
    let mut labels: Vec<String> = Vec::new();
    proof {
        lanes_count(bands.tracks@.len() as int, bands.definitions@.len() as int);
    }
    assert(bands.tracks@.len() == bands.tracks.len());
    assert(bands.definitions@.len() == bands.definitions.len());
    for i in 0..lanes.len()
        invariant
            lanes@ == lanes_upto(bands.tracks@.len() as int, bands.definitions@.len() as int),
            forall|k: int|
                0 <= k < lanes@.len() ==> (#[trigger] lanes@[k]).0 < bands.tracks@.len()
                    && lanes@[k].1 < bands.definitions@.len(),
            labels@.len() == i,
            forall|k: int|
                0 <= k < i ==> (#[trigger] labels@[k])@ == lane_labels(bands@)[k],
    {
        let (track, definition) = lanes[i];
        assert(lanes@[i as int].0 < bands.tracks@.len());
        labels.push(state_lane_label(&bands.tracks[track], &bands.definitions[definition]));
    }
    assert(texts(labels@) == lane_labels(bands@));
    labels
}

/// A stretch of a lane on which its state holds.
#[derive(Debug, Clone, Copy, PartialEq, Eq, Structural)]
pub struct Stretch {
    pub lane: usize,
    pub from: i64,
    pub to: i64,
}

/// The later of two places.
pub open spec fn later(left: i64, right: i64) -> i64 {
    if left < right {
        right
    } else {
        left
    }
}

/// The earlier of two places.
pub open spec fn earlier(left: i64, right: i64) -> i64 {
    if left < right {
        left
    } else {
        right
    }
}

/// Where the point at a place of the list ends: at the next one, or at the end of the plot.
pub open spec fn end_of(points: Seq<(i64, u64)>, i: int, bounds: (i64, i64)) -> i64 {
    if i + 1 < points.len() {
        earlier(points[i + 1].0, bounds.1)
    } else {
        bounds.1
    }
}

/// The stretches between the bounds on which the bit is set in the first `count` points.
pub open spec fn stretches_upto(
    lane: usize,
    points: Seq<(i64, u64)>,
    bit: u64,
    bounds: (i64, i64),
    count: int,
) -> Seq<Stretch>
    decreases count,
{
    if count <= 0 {
        Seq::empty()
    } else {
        let before = stretches_upto(lane, points, bit, bounds, count - 1);
        let from = later(points[count - 1].0, bounds.0);
        let to = end_of(points, count - 1, bounds);
        if points[count - 1].1 & bit != 0 && !at_most(to, from) {
            before.push(Stretch { lane, from, to })
        } else {
            before
        }
    }
}

/// The stretches of the first `count` lanes.
pub open spec fn lanes_stretches(bands: BandsModel, bounds: (i64, i64), count: int) -> Seq<Stretch>
    decreases count,
{
    if count <= 0 {
        Seq::empty()
    } else {
        let (track, definition) = lanes_upto(
            bands.tracks.len() as int,
            bands.definitions.len() as int,
        )[count - 1];
        let points = bands.tracks[track as int].points;
        lanes_stretches(bands, bounds, count - 1) + stretches_upto(
            (count - 1) as usize,
            points,
            bands.definitions[definition as int].bit,
            bounds,
            points.len() as int,
        )
    }
}

fn push_stretches(
    stretches: &mut Vec<Stretch>,
    lane: usize,
    points: &Vec<(i64, u64)>,
    bit: u64,
    bounds: (i64, i64),
)
    ensures
        final(stretches)@ == old(stretches)@ + stretches_upto(
            lane,
            points@,
            bit,
            bounds,
            points@.len() as int,
        ),
{
    let ghost start = stretches@;
    for i in 0..points.len()
        invariant
            start == old(stretches)@,
            stretches@ == start + stretches_upto(lane, points@, bit, bounds, i as int),
    {
        let (x, mask) = points[i];
        let from = if x < bounds.0 {
            bounds.0
        } else {
            x
        };
        let to = if points.len() - i > 1 && points[i + 1].0 < bounds.1 {
            points[i + 1].0
        } else {
            bounds.1
        };
        assert(to == end_of(points@, i as int, bounds));
        if mask & bit != 0 && !is_at_most(to, from) {
            stretches.push(Stretch { lane, from, to });
        }
    }
}

/// The stretches of the lanes between the bounds on which their states hold.
pub fn state_stretches(bands: &StateBands, bounds: (i64, i64)) -> (stretches: Vec<Stretch>)
    ensures
        stretches@ == lanes_stretches(
            bands@,
            bounds,
            lanes_upto(bands.tracks@.len() as int, bands.definitions@.len() as int).len() as int,
        ),
{
    let lanes = state_lanes(bands);
    let mut stretches: Vec<Stretch> = Vec::new();
    proof {
        lanes_count(bands.tracks@.len() as int, bands.definitions@.len() as int);
    }
    assert(bands.tracks@.len() == bands.tracks.len());
    assert(bands.definitions@.len() == bands.definitions.len());
    for i in 0..lanes.len()
        invariant
            lanes@ == lanes_upto(bands.tracks@.len() as int, bands.definitions@.len() as int),
            forall|k: int|
                0 <= k < lanes@.len() ==> (#[trigger] lanes@[k]).0 < bands.tracks@.len()
                    && lanes@[k].1 < bands.definitions@.len(),
            stretches@ == lanes_stretches(bands@, bounds, i as int),
    {
        let (track, definition) = lanes[i];
        assert(lanes@[i as int].0 < bands.tracks@.len());
        push_stretches(
            &mut stretches,
            i,
            &bands.tracks[track].points,
            bands.definitions[definition].bit,
            bounds,
        );
    }
    stretches
}

} // verus!
