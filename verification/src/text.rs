//! Text as sequences of characters: the string operations that the tools are built from.
use vstd::prelude::*;

verus! {

use crate::literals::{is_literal_of, plain_is_literal};

/// `String::push` appends one character.
pub assume_specification[ String::push ](text: &mut String, c: char)
    ensures
        final(text)@ == old(text)@.push(c),
;

/// The characters of `text`, in order.
pub fn chars_of(text: &str) -> (chars: Vec<char>)
    ensures
        chars@ == text@,
{
    let mut chars: Vec<char> = Vec::new();
    for c in iter: text.chars()
        invariant
            iter.seq() == text@,
            chars@ == text@.take(iter.index()),
    {
        proof {
            assert(text@.take(iter.index() + 1) == text@.take(iter.index()).push(text@[iter.index()]));
        }
        chars.push(c);
    }
    assert(text@.take(text@.len() as int) == text@);
    chars
}

/// The text made of `chars[from..to]`.
pub fn string_between(chars: &Vec<char>, from: usize, to: usize) -> (text: String)
    requires
        from <= to <= chars@.len(),
    ensures
        text@ == chars@.subrange(from as int, to as int),
{
    let mut text = String::new();
    for i in from..to
        invariant
            from <= to <= chars@.len(),
            text@ == chars@.subrange(from as int, i as int),
    {
        text.push(chars[i]);
        assert(chars@.subrange(from as int, i + 1) == chars@.subrange(from as int, i as int).push(
            chars@[i as int],
        ));
    }
    text
}

pub fn same_text(left: &str, right: &str) -> (same: bool)
    ensures
        same == (left@ == right@),
{
    left.to_owned() == right.to_owned()
}

/// What a list of texts says.
pub open spec fn texts(list: Seq<String>) -> Seq<Seq<char>> {
    Seq::new(list.len(), |i: int| list[i]@)
}

/// What a table of texts says.
pub open spec fn text_rows(rows: Seq<Vec<String>>) -> Seq<Seq<Seq<char>>> {
    Seq::new(rows.len(), |i: int| texts(rows[i]@))
}

/// One text more at the end of a list is one more in what it says.
pub broadcast proof fn texts_push(list: Seq<String>, text: String)
    ensures
        #[trigger] texts(list.push(text)) == texts(list).push(text@),
{
}

/// One row more at the end of a table is one more in what it says.
pub broadcast proof fn text_rows_push(rows: Seq<Vec<String>>, row: Vec<String>)
    ensures
        #[trigger] text_rows(rows.push(row)) == text_rows(rows).push(texts(row@)),
{
}

/// A copy of a list of texts.
pub fn copy_texts(list: &Vec<String>) -> (copy: Vec<String>)
    ensures
        texts(copy@) == texts(list@),
{
    let mut copy: Vec<String> = Vec::new();
    for i in 0..list.len()
        invariant
            copy@.len() == i,
            forall|k: int| 0 <= k < i ==> (#[trigger] copy@[k])@ == list@[k]@,
    {
        copy.push(list[i].clone());
    }
    copy
}

/// The place of the first item of the list that is `wanted`; its length if there is none.
pub open spec fn first_place<T>(list: Seq<T>, wanted: T) -> int
    decreases list.len(),
{
    if list.len() == 0 || list[0] == wanted {
        0
    } else {
        1 + first_place(list.drop_first(), wanted)
    }
}

/// The first place is the least.
pub proof fn first_place_is_first<T>(list: Seq<T>, wanted: T)
    ensures
        0 <= first_place(list, wanted) <= list.len(),
        first_place(list, wanted) < list.len() ==> list[first_place(list, wanted)] == wanted,
        forall|k: int| 0 <= k < first_place(list, wanted) ==> #[trigger] list[k] != wanted,
        list.contains(wanted) <==> first_place(list, wanted) < list.len(),
    decreases list.len(),
{
    if list.len() > 0 && list[0] != wanted {
        let rest = list.drop_first();
        first_place_is_first(rest, wanted);
        let place = first_place(list, wanted);
        assert forall|k: int| 0 <= k < place implies #[trigger] list[k] != wanted by {
            if k > 0 {
                assert(rest[k - 1] == list[k]);
            }
        }
        if place < list.len() {
            assert(rest[place - 1] == list[place]);
        }
        if list.contains(wanted) {
            let k = choose|k: int| 0 <= k < list.len() && list[k] == wanted;
            assert(rest[k - 1] == wanted);
        }
    }
}

/// The place of the first text of the list that is `wanted`.
pub fn position_of(list: &Vec<String>, wanted: &str) -> (place: Option<usize>)
    ensures
        match place {
            Some(place) => place == first_place(texts(list@), wanted@) && place < list@.len(),
            None => first_place(texts(list@), wanted@) == list@.len() && !texts(
                list@,
            ).contains(wanted@),
        },
{
    proof {
        first_place_is_first(texts(list@), wanted@);
    }
    for i in 0..list.len()
        invariant
            forall|k: int| 0 <= k < i ==> (#[trigger] texts(list@)[k]) != wanted@,
    {
        assert(texts(list@)[i as int] == list@[i as int]@);
        if same_text(list[i].as_str(), wanted) {
            proof {
                first_place_is_first(texts(list@), wanted@);
                assert(texts(list@).contains(texts(list@)[i as int]));
            }
            return Some(i);
        }
    }
    proof {
        first_place_is_first(texts(list@), wanted@);
    }
    None
}

/// Whether the text is in the list.
pub fn holds_text(list: &Vec<String>, wanted: &str) -> (holds: bool)
    ensures
        holds == texts(list@).contains(wanted@),
{
    proof {
        first_place_is_first(texts(list@), wanted@);
    }
    position_of(list, wanted).is_some()
}

/// The characters that count as white space.
pub open spec fn is_white(c: char) -> bool {
    ||| '\u{9}' <= c <= '\u{d}'
    ||| c == ' '
    ||| c == '\u{85}'
    ||| c == '\u{a0}'
    ||| c == '\u{1680}'
    ||| '\u{2000}' <= c <= '\u{200a}'
    ||| c == '\u{2028}'
    ||| c == '\u{2029}'
    ||| c == '\u{202f}'
    ||| c == '\u{205f}'
    ||| c == '\u{3000}'
}

pub fn white(c: char) -> (white: bool)
    ensures
        white == is_white(c),
{
    ('\u{9}' <= c && c <= '\u{d}') || c == ' ' || c == '\u{85}' || c == '\u{a0}' || c
        == '\u{1680}' || ('\u{2000}' <= c && c <= '\u{200a}') || c == '\u{2028}' || c == '\u{2029}'
        || c == '\u{202f}' || c == '\u{205f}' || c == '\u{3000}'
}

/// The text without the white space in front of it.
pub open spec fn trim_front(text: Seq<char>) -> Seq<char>
    decreases text.len(),
{
    if text.len() > 0 && is_white(text[0]) {
        trim_front(text.drop_first())
    } else {
        text
    }
}

/// The text without the white space behind it.
pub open spec fn trim_back(text: Seq<char>) -> Seq<char>
    decreases text.len(),
{
    if text.len() > 0 && is_white(text.last()) {
        trim_back(text.drop_last())
    } else {
        text
    }
}

/// The text without the white space around it.
pub open spec fn trimmed(text: Seq<char>) -> Seq<char> {
    trim_back(trim_front(text))
}

/// The text without the white space around it.
pub fn trim(text: &str) -> (result: String)
    ensures
        result@ == trimmed(text@),
{
    let chars = chars_of(text);
    let mut from: usize = 0;
    let ghost all = chars@;
    assert(all.skip(0) == all);
    while from < chars.len() && white(chars[from])
        invariant
            all == chars@,
            from <= all.len(),
            trim_front(all) == trim_front(all.skip(from as int)),
        decreases all.len() - from,
    {
        assert(all.skip(from as int).drop_first() == all.skip(from + 1));
        from = from + 1;
    }
    let mut to: usize = chars.len();
    assert(all.subrange(from as int, to as int) == all.skip(from as int));
    while to > from && white(chars[to - 1])
        invariant
            all == chars@,
            from <= to <= all.len(),
            trimmed(all) == trim_back(all.subrange(from as int, to as int)),
        decreases to,
    {
        assert(all.subrange(from as int, to as int).drop_last() == all.subrange(
            from as int,
            to - 1,
        ));
        to = to - 1;
    }
    string_between(&chars, from, to)
}

/// The pieces between the separators.
pub open spec fn split(text: Seq<char>, separator: char) -> Seq<Seq<char>>
    decreases text.len(),
{
    if text.len() == 0 {
        seq![Seq::empty()]
    } else {
        let before = split(text.drop_last(), separator);
        if text.last() == separator {
            before.push(Seq::empty())
        } else {
            before.drop_last().push(before.last().push(text.last()))
        }
    }
}

/// There is always a piece.
pub proof fn split_has_a_piece(text: Seq<char>, separator: char)
    ensures
        split(text, separator).len() > 0,
    decreases text.len(),
{
    if text.len() > 0 {
        split_has_a_piece(text.drop_last(), separator);
    }
}

/// The pieces between the separators.
pub fn split_at(text: &str, separator: char) -> (pieces: Vec<String>)
    ensures
        texts(pieces@) == split(text@, separator),
{
    let chars = chars_of(text);
    let mut pieces: Vec<String> = Vec::new();
    let mut piece = String::new();
    let ghost all = chars@;
    assert(all.take(0) == Seq::<char>::empty());
    assert(texts(pieces@).push(piece@) == seq![Seq::<char>::empty()]);
    for i in 0..chars.len()
        invariant
            all == chars@,
            texts(pieces@).push(piece@) == split(all.take(i as int), separator),
    {
        assert(all.take(i + 1).drop_last() == all.take(i as int));
        let ghost before = texts(pieces@).push(piece@);
        assert(before.drop_last() == texts(pieces@));
        if chars[i] == separator {
            proof {
                texts_push(pieces@, piece);
            }
            pieces.push(piece);
            piece = String::new();
        } else {
            piece.push(chars[i]);
        }
    }
    assert(all.take(all.len() as int) == all);
    proof {
        texts_push(pieces@, piece);
    }
    pieces.push(piece);
    pieces
}

/// The text without a carriage return at its end.
pub open spec fn without_return(line: Seq<char>) -> Seq<char> {
    if line.len() > 0 && line.last() == '\r' {
        line.drop_last()
    } else {
        line
    }
}

/// The lines of the text. A line ends with a line feed or with a carriage return and a line
/// feed; the last one need not end.
pub open spec fn lines(text: Seq<char>) -> Seq<Seq<char>> {
    let pieces = split(text, '\n');
    let ended = Seq::new(
        (pieces.len() - 1) as nat,
        |i: int| without_return(pieces[i]),
    );
    if pieces.last().len() == 0 {
        ended
    } else {
        ended.push(pieces.last())
    }
}

/// The lines of the text.
pub fn lines_of(text: &str) -> (result: Vec<String>)
    ensures
        texts(result@) == lines(text@),
{
    let pieces = split_at(text, '\n');
    let ghost all = split(text@, '\n');
    proof {
        split_has_a_piece(text@, '\n');
        assert(all.len() == pieces@.len());
    }
    let mut result: Vec<String> = Vec::new();
    let count: usize = pieces.len() - 1;
    for i in 0..count
        invariant
            count == pieces@.len() - 1,
            all == texts(pieces@),
            texts(result@) == Seq::new(i as nat, |k: int| without_return(all[k])),
    {
        let chars = chars_of(pieces[i].as_str());
        let length = chars.len();
        assert(all[i as int] == chars@);
        let line = if length > 0 && chars[length - 1] == '\r' {
            string_between(&chars, 0, length - 1)
        } else {
            string_between(&chars, 0, length)
        };
        assert(line@ == without_return(all[i as int]));
        proof {
            texts_push(result@, line);
        }
        result.push(line);
        assert(Seq::new(i as nat, |k: int| without_return(all[k])).push(
            without_return(all[i as int]),
        ) == Seq::new((i + 1) as nat, |k: int| without_return(all[k])));
    }
    let last = pieces[count].clone();
    assert(last@ == all.last());
    let empty = last.as_str().is_empty();
    if !empty {
        proof {
            texts_push(result@, last);
        }
        result.push(last);
    }
    result
}

/// The texts, one after another, with the separator between them.
pub open spec fn joined(parts: Seq<Seq<char>>, separator: Seq<char>) -> Seq<char>
    decreases parts.len(),
{
    if parts.len() == 0 {
        Seq::empty()
    } else if parts.len() == 1 {
        parts[0]
    } else {
        joined(parts.drop_last(), separator) + separator + parts.last()
    }
}

/// The texts, one after another, with the separator between them.
pub fn join(parts: &Vec<String>, separator: &str) -> (text: String)
    ensures
        text@ == joined(texts(parts@), separator@),
{
    let mut text = String::new();
    let ghost all = texts(parts@);
    for i in 0..parts.len()
        invariant
            all == texts(parts@),
            text@ == joined(all.take(i as int), separator@),
    {
        assert(all.take(i + 1).drop_last() == all.take(i as int));
        if i > 0 {
            text.append(separator);
        }
        text.append(parts[i].as_str());
        if i == 0 {
            assert(text@ == all[0]);
        }
    }
    assert(all.take(all.len() as int) == all);
    text
}

/// The digit of a number below ten.
pub open spec fn digit_char(digit: nat) -> char {
    (('0' as u32) + digit) as char
}

/// The number in decimal digits.
pub open spec fn decimal(number: nat) -> Seq<char>
    decreases number,
{
    if number < 10 {
        seq![digit_char(number)]
    } else {
        decimal(number / 10).push(digit_char(number % 10))
    }
}

/// The number in decimal digits.
pub fn to_decimal(number: u64) -> (text: String)
    ensures
        text@ == decimal(number as nat),
    decreases number,
{
    let digit: u8 = (number % 10) as u8;
    let c: char = (48 + digit) as char;
    assert(c == digit_char((number % 10) as nat));
    let mut text = if number < 10 {
        String::new()
    } else {
        to_decimal(number / 10)
    };
    text.push(c);
    text
}

/// `count` times the same character.
pub open spec fn repeated(c: char, count: int) -> Seq<char> {
    Seq::new(
        if count > 0 {
            count as nat
        } else {
            0
        },
        |i: int| c,
    )
}

/// `count` times the same character.
pub fn repeat(c: char, count: usize) -> (text: String)
    ensures
        text@ == repeated(c, count as int),
{
    let mut text = String::new();
    for i in 0..count
        invariant
            text@ == repeated(c, i as int),
    {
        text.push(c);
        assert(repeated(c, i as int).push(c) == repeated(c, i + 1));
    }
    text
}

/// The text with spaces behind it, up to the width.
pub open spec fn padded_right(text: Seq<char>, width: int) -> Seq<char> {
    text + repeated(' ', width - text.len())
}

/// The text with spaces behind it, up to the width.
pub fn pad_right(text: &str, width: usize) -> (padded: String)
    ensures
        padded@ == padded_right(text@, width as int),
{
    let length = chars_of(text).len();
    let mut padded = text.to_owned();
    if length < width {
        padded.append(repeat(' ', width - length).as_str());
    } else {
        assert(text@ + repeated(' ', width - text@.len()) == text@);
    }
    padded
}

/// The number in decimal digits, with zeros before it, up to the width.
pub open spec fn zero_padded(number: nat, width: int) -> Seq<char> {
    repeated('0', width - decimal(number).len()) + decimal(number)
}

/// The number in decimal digits, with zeros before it, up to the width.
pub fn pad_with_zeros(number: u64, width: usize) -> (padded: String)
    ensures
        padded@ == zero_padded(number as nat, width as int),
{
    let digits = to_decimal(number);
    let length = chars_of(digits.as_str()).len();
    let mut padded = if length < width {
        repeat('0', width - length)
    } else {
        String::new()
    };
    padded.append(digits.as_str());
    assert(padded@ == zero_padded(number as nat, width as int));
    padded
}

/// Why a text is no number.
pub enum NumberError {
    Empty,
    InvalidDigit,
    TooLarge,
}

/// The message of a number error.
pub open spec fn number_error_text(error: NumberError) -> Seq<char> {
    match error {
        NumberError::Empty => "cannot parse integer from empty string"@,
        NumberError::InvalidDigit => "invalid digit found in string"@,
        NumberError::TooLarge => "number too large to fit in target type"@,
    }
}

/// The value of a digit below `radix`.
pub open spec fn digit_value(c: char, radix: int) -> Option<int> {
    let value = if '0' <= c <= '9' {
        c as int - '0' as int
    } else if 'a' <= c <= 'z' {
        c as int - 'a' as int + 10
    } else if 'A' <= c <= 'Z' {
        c as int - 'A' as int + 10
    } else {
        radix
    };
    if value < radix {
        Some(value)
    } else {
        None
    }
}

/// The number that the digits stand for, read from the left.
pub open spec fn digits_value(digits: Seq<char>, radix: int, max: int) -> Result<
    int,
    NumberError,
>
    decreases digits.len(),
{
    if digits.len() == 0 {
        Ok(0)
    } else {
        match digits_value(digits.drop_last(), radix, max) {
            Err(error) => Err(error),
            Ok(before) => match digit_value(digits.last(), radix) {
                None => Err(NumberError::InvalidDigit),
                Some(digit) => if before * radix + digit > max {
                    Err(NumberError::TooLarge)
                } else {
                    Ok(before * radix + digit)
                },
            },
        }
    }
}

/// The number that the text stands for: digits, with a plus sign before them if need be.
pub open spec fn number_value(text: Seq<char>, radix: int, max: int) -> Result<
    int,
    NumberError,
> {
    if text.len() == 0 {
        Err(NumberError::Empty)
    } else if text[0] == '+' && text.len() > 1 {
        digits_value(text.drop_first(), radix, max)
    } else {
        digits_value(text, radix, max)
    }
}

/// A number that is read is at most `max`.
pub proof fn number_value_bounds(text: Seq<char>, radix: int, max: int)
    requires
        0 <= radix,
        0 <= max,
    ensures
        number_value(text, radix, max) matches Ok(value) ==> 0 <= value <= max,
{
    digits_value_bounds(text, radix, max);
    if text.len() > 0 {
        digits_value_bounds(text.drop_first(), radix, max);
    }
}

proof fn digits_value_bounds(digits: Seq<char>, radix: int, max: int)
    requires
        0 <= radix,
        0 <= max,
    ensures
        digits_value(digits, radix, max) matches Ok(value) ==> 0 <= value <= max,
    decreases digits.len(),
{
    if digits.len() > 0 {
        digits_value_bounds(digits.drop_last(), radix, max);
        if let Ok(before) = digits_value(digits.drop_last(), radix, max) {
            assert(before * radix >= 0) by (nonlinear_arith)
                requires
                    before >= 0,
                    radix >= 0,
            ;
        }
    }
}

pub fn to_digit(c: char, radix: u32) -> (digit: Option<u32>)
    requires
        radix <= 36,
    ensures
        match digit {
            Some(digit) => digit_value(c, radix as int) == Some(digit as int) && digit < radix,
            None => digit_value(c, radix as int) is None,
        },
{
    let code = c as u32;
    let value: u32 = if '0' <= c && c <= '9' {
        code - 48
    } else if 'a' <= c && c <= 'z' {
        code - 87
    } else if 'A' <= c && c <= 'Z' {
        code - 55
    } else {
        radix
    };
    if value < radix {
        Some(value)
    } else {
        None
    }
}

proof fn digits_stop(digits: Seq<char>, count: int, radix: int, max: int)
    requires
        0 <= count <= digits.len(),
        digits_value(digits.take(count), radix, max) is Err,
    ensures
        digits_value(digits, radix, max) == digits_value(digits.take(count), radix, max),
    decreases digits.len() - count,
{
    if count < digits.len() {
        assert(digits.take(count + 1).drop_last() == digits.take(count));
        digits_stop(digits, count + 1, radix, max);
    } else {
        assert(digits.take(count) == digits);
    }
}

/// The number that the text stands for, if it is at most `max`.
pub fn parse_number(text: &str, radix: u32, max: u64) -> (result: Result<u64, String>)
    requires
        2 <= radix <= 36,
    ensures
        match result {
            Ok(value) => number_value(text@, radix as int, max as int) == Ok::<
                int,
                NumberError,
            >(value as int) && value <= max,
            Err(message) => number_value(text@, radix as int, max as int) matches Err(error)
                && message@ == number_error_text(error),
        },
{
    let chars = chars_of(text);
    if chars.len() == 0 {
        return Err("cannot parse integer from empty string".to_owned());
    }
    let from: usize = if chars[0] == '+' && chars.len() > 1 {
        1
    } else {
        0
    };
    let ghost digits = chars@.skip(from as int);
    assert(chars@.skip(0) == chars@);
    assert(chars@.skip(1) == chars@.drop_first());
    assert(number_value(text@, radix as int, max as int) == digits_value(
        digits,
        radix as int,
        max as int,
    ));
    let mut value: u64 = 0;
    assert(digits.take(0) == Seq::<char>::empty());
    for i in from..chars.len()
        invariant
            2 <= radix <= 36,
            from <= 1,
            digits == chars@.skip(from as int),
            value <= max,
            number_value(text@, radix as int, max as int) == digits_value(
                digits,
                radix as int,
                max as int,
            ),
            digits_value(digits.take(i - from), radix as int, max as int) == Ok::<
                int,
                NumberError,
            >(value as int),
    {
        let ghost upto = digits.take(i - from + 1);
        assert(upto.drop_last() == digits.take(i - from));
        assert(upto.last() == chars@[i as int]);
        match to_digit(chars[i], radix) {
            None => {
                proof {
                    digits_stop(digits, i - from + 1, radix as int, max as int);
                }
                return Err("invalid digit found in string".to_owned());
            },
            Some(digit) => {
                let next: u128 = mul_add(value, radix, digit);
                if next > max as u128 {
                    proof {
                        digits_stop(digits, i - from + 1, radix as int, max as int);
                    }
                    return Err("number too large to fit in target type".to_owned());
                }
                value = next as u64;
            },
        }
    }
    assert(digits.take(digits.len() as int) == digits);
    Ok(value)
}

fn mul_add(value: u64, radix: u32, digit: u32) -> (next: u128)
    requires
        radix <= 36,
        digit <= 36,
    ensures
        next == value * radix + digit,
{
    assert(0 <= value * radix <= u64::MAX * 36) by (nonlinear_arith)
        requires
            0 <= value <= u64::MAX,
            0 <= radix <= 36,
    ;
    (value as u128) * (radix as u128) + (digit as u128)
}

/// The text with its capital letters A to Z made small.
pub open spec fn lowered(text: Seq<char>) -> Seq<char> {
    Seq::new(text.len(), |i: int| lowered_char(text[i]))
}

/// The letter made small, if it is one of A to Z.
pub open spec fn lowered_char(c: char) -> char {
    if 'A' <= c <= 'Z' {
        (c as u32 + 32) as char
    } else {
        c
    }
}

/// The text with its capital letters A to Z made small.
pub fn lower(text: &str) -> (result: String)
    ensures
        result@ == lowered(text@),
{
    let chars = chars_of(text);
    let mut result = String::new();
    for i in 0..chars.len()
        invariant
            chars@ == text@,
            result@ == lowered(text@.take(i as int)),
    {
        let c = chars[i];
        let small = if 'A' <= c && c <= 'Z' {
            (c as u8 + 32) as char
        } else {
            c
        };
        assert(small == lowered_char(text@[i as int]));
        result.push(small);
        assert(lowered(text@.take(i + 1)) == lowered(text@.take(i as int)).push(small));
    }
    assert(text@.take(text@.len() as int) == text@);
    result
}

/// Whether the text begins with `prefix`.
pub fn begins_with(text: &str, prefix: &str) -> (begins: bool)
    ensures
        begins == prefix@.is_prefix_of(text@),
{
    let chars = chars_of(text);
    let wanted = chars_of(prefix);
    if wanted.len() > chars.len() {
        return false;
    }
    for i in 0..wanted.len()
        invariant
            chars@ == text@,
            wanted@ == prefix@,
            wanted@.len() <= chars@.len(),
            forall|k: int| 0 <= k < i ==> chars@[k] == wanted@[k],
    {
        if chars[i] != wanted[i] {
            assert(text@.subrange(0, prefix@.len() as int)[i as int] != prefix@[i as int]);
            return false;
        }
    }
    assert(text@.subrange(0, prefix@.len() as int) == prefix@);
    true
}

/// Whether the text ends with `suffix`.
pub fn ends_with(text: &str, suffix: &str) -> (ends: bool)
    ensures
        ends == suffix@.is_suffix_of(text@),
{
    let chars = chars_of(text);
    let wanted = chars_of(suffix);
    if wanted.len() > chars.len() {
        return false;
    }
    let offset: usize = chars.len() - wanted.len();
    for i in 0..wanted.len()
        invariant
            chars@ == text@,
            wanted@ == suffix@,
            offset + wanted.len() == chars.len(),
            forall|k: int| 0 <= k < i ==> chars@[offset + k] == wanted@[k],
    {
        if chars[offset + i] != wanted[i] {
            assert(text@.subrange(text@.len() - suffix@.len(), text@.len() as int)[i as int]
                != suffix@[i as int]);
            return false;
        }
    }
    assert(text@.subrange(text@.len() - suffix@.len(), text@.len() as int) == suffix@);
    true
}

/// One text after another.
pub fn concat(left: &str, right: &str) -> (text: String)
    ensures
        text@ == left@ + right@,
{
    let mut text = left.to_owned();
    text.append(right);
    text
}

/// What stands before and behind the first separator.
pub open spec fn parted(text: Seq<char>, separator: char) -> Option<(Seq<char>, Seq<char>)> {
    let place = first_place(text, separator);
    if place < text.len() {
        Some((text.take(place), text.skip(place + 1)))
    } else {
        None
    }
}

/// What stands before and behind the first separator.
pub fn part(text: &str, separator: char) -> (parts: Option<(String, String)>)
    ensures
        match parts {
            Some((before, behind)) => parted(text@, separator) == Some((before@, behind@)),
            None => parted(text@, separator) is None,
        },
{
    let chars = chars_of(text);
    proof {
        first_place_is_first(text@, separator);
    }
    for i in 0..chars.len()
        invariant
            chars@ == text@,
            forall|k: int| 0 <= k < i ==> #[trigger] text@[k] != separator,
    {
        if chars[i] == separator {
            proof {
                first_place_is_first(text@, separator);
            }
            let before = string_between(&chars, 0, i);
            let behind = string_between(&chars, i + 1, chars.len());
            assert(before@ == text@.take(i as int));
            assert(behind@ == text@.skip(i + 1));
            return Some((before, behind));
        }
    }
    proof {
        first_place_is_first(text@, separator);
    }
    None
}

/// The place of the last item of the list that is `wanted`.
pub open spec fn last_place<T>(list: Seq<T>, wanted: T) -> Option<int>
    decreases list.len(),
{
    if list.len() == 0 {
        None
    } else if list.last() == wanted {
        Some(list.len() - 1)
    } else {
        last_place(list.drop_last(), wanted)
    }
}

/// The place of the last text of the list that is `wanted`.
pub fn last_position_of(list: &Vec<String>, wanted: &str) -> (place: Option<usize>)
    ensures
        match place {
            Some(place) => last_place(texts(list@), wanted@) == Some(place as int) && place
                < list@.len(),
            None => last_place(texts(list@), wanted@) is None,
        },
{
    let ghost all = texts(list@);
    let mut i: usize = list.len();
    assert(all.take(all.len() as int) == all);
    while i > 0
        invariant
            all == texts(list@),
            i <= list@.len(),
            last_place(all, wanted@) == last_place(all.take(i as int), wanted@),
        decreases i,
    {
        assert(all.take(i as int).drop_last() == all.take(i - 1));
        assert(all.take(i as int).last() == list@[i - 1]@);
        if same_text(list[i - 1].as_str(), wanted) {
            return Some(i - 1);
        }
        i = i - 1;
    }
    None
}

/// Whether `pattern` stands in the text at the place.
pub open spec fn stands_at(text: Seq<char>, pattern: Seq<char>, place: int) -> bool {
    0 <= place && place + pattern.len() <= text.len() && text.subrange(
        place,
        place + pattern.len(),
    ) == pattern
}

/// The first place from `from` on at which `pattern` stands in the text.
pub open spec fn found_from(text: Seq<char>, pattern: Seq<char>, from: int) -> Option<int>
    decreases text.len() + 1 - from,
{
    if from + pattern.len() > text.len() {
        None
    } else if stands_at(text, pattern, from) {
        Some(from)
    } else {
        found_from(text, pattern, from + 1)
    }
}

/// What is found stands there, and nowhere before.
pub proof fn found_is_first(text: Seq<char>, pattern: Seq<char>, from: int)
    requires
        0 <= from,
    ensures
        match found_from(text, pattern, from) {
            Some(place) => from <= place && stands_at(text, pattern, place) && forall|k: int|
                from <= k < place ==> !#[trigger] stands_at(text, pattern, k),
            None => forall|k: int| from <= k ==> !#[trigger] stands_at(text, pattern, k),
        },
    decreases text.len() + 1 - from,
{
    if from + pattern.len() <= text.len() && !stands_at(text, pattern, from) {
        found_is_first(text, pattern, from + 1);
        match found_from(text, pattern, from) {
            Some(place) => {
                assert forall|k: int| from <= k < place implies !#[trigger] stands_at(
                    text,
                    pattern,
                    k,
                ) by {
                    if k > from {
                        assert(from + 1 <= k);
                    }
                }
            },
            None => {
                assert forall|k: int| from <= k implies !#[trigger] stands_at(
                    text,
                    pattern,
                    k,
                ) by {
                    if k > from {
                        assert(from + 1 <= k);
                    }
                }
            },
        }
    }
}

/// Whether `pattern` stands in the characters at the place.
pub fn is_at(chars: &Vec<char>, pattern: &Vec<char>, place: usize) -> (at: bool)
    requires
        place <= chars@.len(),
    ensures
        at == stands_at(chars@, pattern@, place as int),
{
    if pattern.len() > chars.len() - place {
        return false;
    }
    for i in 0..pattern.len()
        invariant
            place + pattern.len() <= chars.len(),
            forall|k: int| 0 <= k < i ==> chars@[place + k] == pattern@[k],
    {
        if chars[place + i] != pattern[i] {
            assert(chars@.subrange(place as int, place + pattern@.len())[i as int]
                != pattern@[i as int]);
            return false;
        }
    }
    assert(chars@.subrange(place as int, place + pattern@.len()) == pattern@);
    true
}

/// The first place from `from` on at which `pattern` stands in the characters.
pub fn find_from(chars: &Vec<char>, pattern: &Vec<char>, from: usize) -> (place: Option<usize>)
    requires
        from <= chars@.len(),
    ensures
        match place {
            Some(place) => found_from(chars@, pattern@, from as int) == Some(place as int)
                && place + pattern.len() <= chars.len(),
            None => found_from(chars@, pattern@, from as int) is None,
        },
{
    let mut place: usize = from;
    while pattern.len() <= chars.len() - place
        invariant
            place <= chars@.len(),
            found_from(chars@, pattern@, from as int) == found_from(
                chars@,
                pattern@,
                place as int,
            ),
        decreases chars.len() - place,
    {
        if is_at(chars, pattern, place) {
            return Some(place);
        }
        if place == chars.len() {
            assert(found_from(chars@, pattern@, place + 1) is None);
            return None;
        }
        place = place + 1;
    }
    None
}

/// The pieces between the patterns.
pub open spec fn split_by(text: Seq<char>, pattern: Seq<char>) -> Seq<Seq<char>>
    decreases text.len(),
    when pattern.len() > 0
    via split_by_ends
{
    match found_from(text, pattern, 0) {
        None => seq![text],
        Some(place) => seq![text.take(place)] + split_by(
            text.skip(place + pattern.len()),
            pattern,
        ),
    }
}

#[via_fn]
proof fn split_by_ends(text: Seq<char>, pattern: Seq<char>) {
    found_is_first(text, pattern, 0);
}

/// The pieces between the patterns.
pub fn split_by_text(text: &str, pattern: &str) -> (pieces: Vec<String>)
    requires
        pattern@.len() > 0,
    ensures
        texts(pieces@) == split_by(text@, pattern@),
{
    let chars = chars_of(text);
    let wanted = chars_of(pattern);
    let mut pieces: Vec<String> = Vec::new();
    let mut from: usize = 0;
    assert(text@.skip(0) == text@);
    assert(texts(pieces@) + split_by(text@, pattern@) == split_by(text@, pattern@));
    loop
        invariant
            chars@ == text@,
            wanted@ == pattern@,
            pattern@.len() > 0,
            from <= chars@.len(),
            split_by(text@, pattern@) == texts(pieces@) + split_by(
                text@.skip(from as int),
                pattern@,
            ),
        ensures
            chars@ == text@,
            from <= chars@.len(),
            split_by(text@, pattern@) == texts(pieces@).push(text@.skip(from as int)),
        decreases chars@.len() - from,
    {
        let ghost rest = text@.skip(from as int);
        proof {
            found_is_first(rest, pattern@, 0);
            found_from_shifts(text@, pattern@, from as int, 0);
        }
        match find_from(&chars, &wanted, from) {
            None => {
                assert(texts(pieces@) + seq![rest] == texts(pieces@).push(rest));
                break;
            },
            Some(place) => {
                let ghost before = texts(pieces@);
                let piece = string_between(&chars, from, place);
                assert(piece@ == rest.take(place - from));
                proof {
                    texts_push(pieces@, piece);
                    assert(rest.skip(place - from + pattern@.len()) == text@.skip(
                        place + pattern@.len(),
                    ));
                    assert(before + (seq![piece@] + split_by(
                        text@.skip(place + pattern@.len()),
                        pattern@,
                    )) == before.push(piece@) + split_by(
                        text@.skip(place + pattern@.len()),
                        pattern@,
                    ));
                }
                pieces.push(piece);
                from = place + wanted.len();
            },
        }
    }
    let last = string_between(&chars, from, chars.len());
    assert(last@ == text@.skip(from as int));
    proof {
        texts_push(pieces@, last);
    }
    pieces.push(last);
    pieces
}

/// To look in the rest of a text is to look in the text from there on.
proof fn found_from_shifts(text: Seq<char>, pattern: Seq<char>, offset: int, from: int)
    requires
        0 <= offset <= text.len(),
        0 <= from,
    ensures
        match found_from(text.skip(offset), pattern, from) {
            Some(place) => found_from(text, pattern, offset + from) == Some(offset + place),
            None => found_from(text, pattern, offset + from) is None,
        },
    decreases text.len() + 1 - from,
{
    let rest = text.skip(offset);
    if from + pattern.len() <= rest.len() {
        assert(rest.subrange(from, from + pattern.len()) == text.subrange(
            offset + from,
            offset + from + pattern.len(),
        ));
        if !stands_at(rest, pattern, from) {
            found_from_shifts(text, pattern, offset, from + 1);
        }
    }
}

/// Whether the text is made of the printable ASCII characters, tabs and line breaks alone.
pub open spec fn is_plain(text: Seq<char>) -> bool {
    forall|i: int| 0 <= i < text.len() ==> is_plain_char(#[trigger] text[i])
}

/// Whether the character is a printable ASCII character, a tab or of a line break.
pub open spec fn is_plain_char(c: char) -> bool {
    ' ' <= c <= '~' || c == '\t' || c == '\n' || c == '\r'
}

/// The character as it stands between quotes.
pub open spec fn escaped(c: char) -> Seq<char> {
    if c == '"' || c == '\\' {
        seq!['\\', c]
    } else if c == '\n' {
        seq!['\\', 'n']
    } else if c == '\r' {
        seq!['\\', 'r']
    } else if c == '\t' {
        seq!['\\', 't']
    } else {
        seq![c]
    }
}

/// The characters as they stand between quotes.
pub open spec fn all_escaped(text: Seq<char>) -> Seq<char>
    decreases text.len(),
{
    if text.len() == 0 {
        text
    } else {
        all_escaped(text.drop_last()) + escaped(text.last())
    }
}

/// How `Debug` of `str` writes the text.
pub uninterp spec fn debug_of(text: Seq<char>) -> Seq<char>;

/// The text between quotes, with what would not be seen escaped.
pub open spec fn quoted(text: Seq<char>) -> Seq<char> {
    if is_plain(text) {
        seq!['"'] + all_escaped(text) + seq!['"']
    } else {
        debug_of(text)
    }
}

/// Writes the text by `Debug` of `str`: the result is named. It is a string literal that stands
/// for the text: between quotes, each character as it is or as the escape for it. A line feed in
/// the text is written as an escape, so there is none in the result.
#[verifier::external_body]
fn debug_text(text: &str) -> (result: String)
    ensures
        result@ == debug_of(text@),
        is_literal_of(result@, text@),
        !result@.contains('\n'),
{
    format!("{:?}", text)
}

/// The text between quotes, with what would not be seen escaped. It stands on one line, and is a
/// literal that stands for the text.
pub fn quote(text: &str) -> (result: String)
    ensures
        result@ == quoted(text@),
        is_literal_of(result@, text@),
        !result@.contains('\n'),
{
    let chars = chars_of(text);
    let mut plain = true;
    for i in 0..chars.len()
        invariant
            chars@ == text@,
            plain == is_plain(text@.take(i as int)),
    {
        let c = chars[i];
        let plain_char = (' ' <= c && c <= '~') || c == '\t' || c == '\n' || c == '\r';
        proof {
            let upto = text@.take(i + 1);
            assert(upto[i as int] == c);
            assert(upto.drop_last() == text@.take(i as int));
            assert(is_plain(upto) <==> is_plain(text@.take(i as int)) && is_plain_char(c)) by {
                if is_plain(text@.take(i as int)) && is_plain_char(c) {
                    assert forall|k: int| 0 <= k < upto.len() implies is_plain_char(
                        #[trigger] upto[k],
                    ) by {
                        if k < i {
                            assert(text@.take(i as int)[k] == upto[k]);
                        }
                    }
                }
                if is_plain(upto) {
                    assert forall|k: int| 0 <= k < i implies is_plain_char(
                        #[trigger] text@.take(i as int)[k],
                    ) by {
                        assert(upto[k] == text@.take(i as int)[k]);
                    }
                }
            }
        }
        plain = plain && plain_char;
    }
    assert(text@.take(text@.len() as int) == text@);
    if !plain {
        return debug_text(text);
    }
    let mut result = String::new();
    result.push('"');
    assert(result@ == seq!['"'] + all_escaped(text@.take(0)));
    for i in 0..chars.len()
        invariant
            chars@ == text@,
            result@ == seq!['"'] + all_escaped(text@.take(i as int)),
            !result@.contains('\n'),
    {
        let c = chars[i];
        let ghost before = result@;
        assert(text@.take(i + 1).drop_last() == text@.take(i as int));
        if c == '"' || c == '\\' {
            result.push('\\');
            result.push(c);
        } else if c == '\n' {
            result.push('\\');
            result.push('n');
        } else if c == '\r' {
            result.push('\\');
            result.push('r');
        } else if c == '\t' {
            result.push('\\');
            result.push('t');
        } else {
            result.push(c);
        }
        assert(result@ == before + escaped(c));
        assert(seq!['"'] + (all_escaped(text@.take(i as int)) + escaped(c)) == seq!['"']
            + all_escaped(text@.take(i as int)) + escaped(c));
    }
    result.push('"');
    assert(result@ == quoted(text@));
    proof {
        plain_is_literal(text@);
    }
    result
}

} // verus!
