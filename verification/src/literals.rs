//! Texts between quotes, with escapes for what would not be seen.
use vstd::prelude::*;

use crate::text::{parse_number, string_between, to_digit};

verus! {

use crate::text::{
    all_escaped, digit_value, escaped, is_plain, is_plain_char, number_value,
};
use crate::text_laws::all_escaped_front;

/// `char::from_u32` gives the character with the number, and none where no character has it: a
/// surrogate, or a number above the greatest.
pub assume_specification[ char::from_u32 ](code: u32) -> (c: Option<char>)
    ensures
        match c {
            Some(c) => is_char_code(code as int) && c as int == code as int,
            None => !is_char_code(code as int),
        },
;

/// Whether a number is that of a character.
pub open spec fn is_char_code(code: int) -> bool {
    0 <= code <= 0xd7ff || 0xe000 <= code <= 0x10ffff
}

/// The place behind the hexadecimal digits from a place on.
pub open spec fn hex_end(input: Seq<char>, from: int) -> int
    decreases input.len() - from,
{
    if 0 <= from < input.len() && digit_value(input[from], 16) is Some {
        hex_end(input, from + 1)
    } else {
        from
    }
}

/// The character whose number stands in hexadecimal digits between braces at a place, and the
/// place behind it.
pub open spec fn code_at(input: Seq<char>, at: int) -> Option<(char, int)> {
    let end = hex_end(input, at + 1);
    if at >= input.len() || input[at] != '{' || end >= input.len() || input[end] != '}' {
        None
    } else {
        match number_value(input.subrange(at + 1, end), 16, 0x10ffff) {
            Ok(code) => if is_char_code(code) {
                Some((code as char, end + 1))
            } else {
                None
            },
            Err(_) => None,
        }
    }
}

/// The character that an escape stands for, whose part behind the backslash begins at a place,
/// and the place behind it. A character that makes no escape stands for itself.
pub open spec fn escape_at(input: Seq<char>, at: int) -> (char, int) {
    let c = input[at];
    if c == 'n' {
        ('\n', at + 1)
    } else if c == 'r' {
        ('\r', at + 1)
    } else if c == 't' {
        ('\t', at + 1)
    } else if c == '0' {
        ('\0', at + 1)
    } else if c == 'u' {
        match code_at(input, at + 1) {
            Some(found) => found,
            None => ('u', at + 1),
        }
    } else {
        (c, at + 1)
    }
}

/// Why a text does not end with a quote.
#[derive(Debug, Clone, Copy, PartialEq, Eq, Structural)]
pub enum LiteralError {
    Open,
    OpenEscape,
}

/// What stands from a place up to the closing quote, put behind `sofar`, and the place behind
/// that quote.
pub open spec fn literal_from(input: Seq<char>, from: int, sofar: Seq<char>) -> Result<
    (Seq<char>, int),
    LiteralError,
>
    decreases input.len() - from,
    via literal_from_ends
{
    if from < 0 || from >= input.len() {
        Err(LiteralError::Open)
    } else if input[from] == '\\' {
        if from + 1 >= input.len() {
            Err(LiteralError::OpenEscape)
        } else {
            let (c, next) = escape_at(input, from + 1);
            literal_from(input, next, sofar.push(c))
        }
    } else if input[from] == '"' {
        Ok((sofar, from + 1))
    } else {
        literal_from(input, from + 1, sofar.push(input[from]))
    }
}

#[via_fn]
proof fn literal_from_ends(input: Seq<char>, from: int, sofar: Seq<char>) {
    if 0 <= from && from + 1 < input.len() {
        escape_goes_on(input, from + 1);
    }
}

proof fn hex_end_bounds(input: Seq<char>, from: int)
    requires
        0 <= from <= input.len(),
    ensures
        from <= hex_end(input, from) <= input.len(),
        forall|k: int|
            from <= k < hex_end(input, from) ==> digit_value(#[trigger] input[k], 16) is Some,
    decreases input.len() - from,
{
    if from < input.len() && digit_value(input[from], 16) is Some {
        hex_end_bounds(input, from + 1);
    }
}

/// The place behind an escape lies behind its beginning.
proof fn escape_goes_on(input: Seq<char>, at: int)
    requires
        0 <= at < input.len(),
    ensures
        at < escape_at(input, at).1 <= input.len(),
{
    if at + 1 < input.len() {
        hex_end_bounds(input, at + 2);
    }
}

/// The place behind a closing quote lies behind the beginning, and the quote before it.
pub proof fn literal_goes_on(input: Seq<char>, from: int, sofar: Seq<char>)
    requires
        0 <= from,
    ensures
        literal_from(input, from, sofar) matches Ok((_, next)) ==> from < next <= input.len()
            && input[next - 1] == '"',
    decreases input.len() - from,
{
    if from < input.len() {
        if input[from] == '\\' {
            if from + 1 < input.len() {
                escape_goes_on(input, from + 1);
                let (c, next) = escape_at(input, from + 1);
                literal_goes_on(input, next, sofar.push(c));
            }
        } else if input[from] != '"' {
            literal_goes_on(input, from + 1, sofar.push(input[from]));
        }
    }
}

/// Whether what is shown is a literal that stands for the text: a quote, the characters of the
/// text as they are or as escapes, and a quote.
pub open spec fn is_literal_of(shown: Seq<char>, text: Seq<char>) -> bool {
    &&& shown.len() > 0
    &&& shown[0] == '"'
    &&& literal_from(shown, 1, Seq::empty()) == Ok::<(Seq<char>, int), LiteralError>(
        (text, shown.len() as int),
    )
}

/// Digits end at the same place where more stands before and behind them.
proof fn hex_end_inside(front: Seq<char>, inner: Seq<char>, tail: Seq<char>, from: int)
    requires
        0 <= from,
        hex_end(inner, from) < inner.len(),
    ensures
        hex_end(front + inner + tail, front.len() + from) == front.len() + hex_end(inner, from),
    decreases inner.len() - from,
{
    let whole = front + inner + tail;
    if from < inner.len() {
        assert(whole[front.len() + from] == inner[from]);
        if digit_value(inner[from], 16) is Some {
            hex_end_inside(front, inner, tail, from + 1);
        }
    }
}

/// An escape is the same where more stands before and behind.
proof fn escape_inside(
    front: Seq<char>,
    inner: Seq<char>,
    tail: Seq<char>,
    at: int,
    quote_at: int,
)
    requires
        0 <= at < quote_at < inner.len(),
        inner[quote_at] == '"',
    ensures
        escape_at(front + inner + tail, front.len() + at) == (
            escape_at(inner, at).0,
            front.len() + escape_at(inner, at).1,
        ),
{
    let whole = front + inner + tail;
    let start = front.len() as int;
    assert(whole[start + at] == inner[at]);
    assert(whole[start + at + 1] == inner[at + 1]);
    if inner[at] == 'u' && inner[at + 1] == '{' {
        hex_end_bounds(inner, at + 2);
        let end = hex_end(inner, at + 2);
        assert(at + 1 != quote_at);
        assert(digit_value('"', 16) is None);
        assert(end <= quote_at);
        hex_end_inside(front, inner, tail, at + 2);
        assert(start + (at + 2) == start + at + 1 + 1);
        assert(hex_end(whole, start + at + 2) == start + end);
        assert(whole[start + end] == inner[end]);
        assert(whole.subrange(start + at + 2, start + end) == inner.subrange(at + 2, end));
    }
}

/// A literal is read the same where more stands before and behind it.
pub proof fn literal_inside(
    front: Seq<char>,
    inner: Seq<char>,
    tail: Seq<char>,
    from: int,
    sofar: Seq<char>,
)
    requires
        0 <= from,
        literal_from(inner, from, sofar) is Ok,
    ensures
        ({
            let (value, next) = literal_from(inner, from, sofar)->Ok_0;
            literal_from(front + inner + tail, front.len() + from, sofar) == Ok::<
                (Seq<char>, int),
                LiteralError,
            >((value, front.len() + next))
        }),
    decreases inner.len() - from,
{
    let whole = front + inner + tail;
    let start = front.len() as int;
    assert(from < inner.len());
    assert(whole[start + from] == inner[from]);
    literal_goes_on(inner, from, sofar);
    let quote_at = literal_from(inner, from, sofar)->Ok_0.1 - 1;
    if inner[from] == '\\' {
        escape_goes_on(inner, from + 1);
        let (c, next) = escape_at(inner, from + 1);
        literal_goes_on(inner, next, sofar.push(c));
        escape_inside(front, inner, tail, from + 1, quote_at);
        literal_inside(front, inner, tail, next, sofar.push(c));
        assert(start + (from + 1) == start + from + 1);
    } else if inner[from] != '"' {
        literal_inside(front, inner, tail, from + 1, sofar.push(inner[from]));
        assert(start + (from + 1) == start + from + 1);
    }
}

proof fn plain_is_read_back(input: Seq<char>, from: int, sofar: Seq<char>, value: Seq<char>)
    requires
        0 <= from <= input.len(),
        is_plain(value),
        input.skip(from) == all_escaped(value) + seq!['"'],
    ensures
        literal_from(input, from, sofar) == Ok::<(Seq<char>, int), LiteralError>(
            (sofar + value, input.len() as int),
        ),
    decreases value.len(),
{
    let rest = input.skip(from);
    assert(rest.len() == input.len() - from);
    if value.len() == 0 {
        assert(all_escaped(value) == Seq::<char>::empty());
        assert(rest[0] == '"');
        assert(input[from] == '"');
        assert(sofar + value == sofar);
    } else {
        let c = value[0];
        let others = value.drop_first();
        all_escaped_front(value);
        assert(is_plain_char(value[0]));
        assert(is_plain(others)) by {
            assert forall|k: int| 0 <= k < others.len() implies is_plain_char(
                #[trigger] others[k],
            ) by {
                assert(others[k] == value[k + 1]);
            }
        }
        let step = escaped(c).len() as int;
        assert(rest[0] == escaped(c)[0]);
        assert(input[from] == escaped(c)[0]);
        if step == 2 {
            assert(rest[1] == escaped(c)[1]);
            assert(input[from + 1] == escaped(c)[1]);
            assert(escape_at(input, from + 1) == (c, from + 2));
        }
        assert(input.skip(from + step) == all_escaped(others) + seq!['"']) by {
            assert(input.skip(from + step) == rest.skip(step));
        }
        plain_is_read_back(input, from + step, sofar.push(c), others);
        assert(sofar.push(c) + others == sofar + value);
    }
}

/// Plain text between quotes, with its escapes, is a literal that stands for it.
pub proof fn plain_is_literal(value: Seq<char>)
    requires
        is_plain(value),
    ensures
        is_literal_of(seq!['"'] + all_escaped(value) + seq!['"'], value),
{
    let shown = seq!['"'] + all_escaped(value) + seq!['"'];
    assert(shown.skip(1) == all_escaped(value) + seq!['"']);
    plain_is_read_back(shown, 1, Seq::empty(), value);
    assert(Seq::<char>::empty() + value == value);
}

/// The character whose number stands between braces at the place, and the place behind it.
fn read_code(chars: &Vec<char>, at: usize) -> (result: Option<(char, usize)>)
    requires
        at <= chars@.len(),
    ensures
        match result {
            Some((c, next)) => code_at(chars@, at as int) == Some((c, next as int)),
            None => code_at(chars@, at as int) is None,
        },
{
    if at >= chars.len() || chars[at] != '{' {
        return None;
    }
    let mut end: usize = at + 1;
    while end < chars.len() && to_digit(chars[end], 16).is_some()
        invariant
            at < end <= chars@.len(),
            hex_end(chars@, at + 1) == hex_end(chars@, end as int),
        decreases chars.len() - end,
    {
        end = end + 1;
    }
    assert(hex_end(chars@, at + 1) == end);
    if end >= chars.len() || chars[end] != '}' {
        return None;
    }
    let digits = string_between(chars, at + 1, end);
    match parse_number(digits.as_str(), 16, 0x10ffff) {
        Err(_) => None,
        Ok(code) => match char::from_u32(code as u32) {
            Some(c) => {
                assert(c == (code as int) as char);
                Some((c, end + 1))
            },
            None => None,
        },
    }
}

/// The character that the escape stands for, whose part behind the backslash begins at the
/// place, and the place behind it.
fn read_escape(chars: &Vec<char>, at: usize) -> (result: (char, usize))
    requires
        at < chars@.len(),
    ensures
        (result.0, result.1 as int) == escape_at(chars@, at as int),
        at < result.1 <= chars@.len(),
{
    proof {
        escape_goes_on(chars@, at as int);
        assert(at < chars.len());
    }
    let c = chars[at];
    if c == 'n' {
        ('\n', at + 1)
    } else if c == 'r' {
        ('\r', at + 1)
    } else if c == 't' {
        ('\t', at + 1)
    } else if c == '0' {
        ('\0', at + 1)
    } else if c == 'u' {
        match read_code(chars, at + 1) {
            Some(found) => found,
            None => ('u', at + 1),
        }
    } else {
        (c, at + 1)
    }
}

/// What stands from the place up to the closing quote, and the place behind that.
pub fn read_literal(chars: &Vec<char>, from: usize) -> (result: Result<
    (String, usize),
    LiteralError,
>)
    requires
        from <= chars@.len(),
    ensures
        match result {
            Ok((text, next)) => literal_from(chars@, from as int, Seq::empty()) == Ok::<
                (Seq<char>, int),
                LiteralError,
            >((text@, next as int)) && from < next <= chars@.len(),
            Err(error) => literal_from(chars@, from as int, Seq::empty()) == Err::<
                (Seq<char>, int),
                LiteralError,
            >(error),
        },
{
    let mut text = String::new();
    let mut at: usize = from;
    while at < chars.len()
        invariant
            from <= at <= chars@.len(),
            literal_from(chars@, from as int, Seq::empty()) == literal_from(
                chars@,
                at as int,
                text@,
            ),
        decreases chars.len() - at,
    {
        let c = chars[at];
        if c == '\\' {
            if at + 1 >= chars.len() {
                return Err(LiteralError::OpenEscape);
            }
            let (c, next) = read_escape(chars, at + 1);
            text.push(c);
            at = next;
        } else if c == '"' {
            return Ok((text, at + 1));
        } else {
            text.push(c);
            at = at + 1;
        }
    }
    Err(LiteralError::Open)
}

} // verus!
