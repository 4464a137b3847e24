//! What holds of text that is put together and taken apart again.
use vstd::prelude::*;

verus! {

use crate::text::{
    all_escaped, decimal, digit_char, digit_value, digits_value, escaped, first_place,
    first_place_is_first, found_from, found_is_first, joined, lines, number_value, parted, split,
    split_by, split_has_a_piece, stands_at, without_return, NumberError,
};

/// A number that is written in decimal digits is read back.
pub proof fn decimal_is_read_back(number: nat, max: int)
    requires
        number <= max,
    ensures
        number_value(decimal(number), 10, max) == Ok::<int, NumberError>(number as int),
{
    decimal_digits(number, max);
    assert(decimal(number)[0] != '+');
}

/// The decimal digits of a number are digits, at least one, and stand for it.
pub proof fn decimal_digits(number: nat, max: int)
    requires
        number <= max,
    ensures
        decimal(number).len() > 0,
        forall|i: int|
            0 <= i < decimal(number).len() ==> '0' <= #[trigger] decimal(number)[i] <= '9',
        digits_value(decimal(number), 10, max) == Ok::<int, NumberError>(number as int),
    decreases number,
{
    let text = decimal(number);
    assert('0' as u32 == 48);
    let digit = number % 10;
    assert(digit_value(digit_char(digit), 10) == Some(digit as int));
    assert('0' <= digit_char(digit) <= '9');
    if number < 10 {
        reveal_with_fuel(digits_value, 2);
        assert(text.drop_last() == Seq::<char>::empty());
    } else {
        decimal_digits(number / 10, max);
        assert(text.drop_last() == decimal(number / 10));
    }
}

/// Text without the separator is one piece.
pub proof fn split_without_separator(text: Seq<char>, separator: char)
    requires
        !text.contains(separator),
    ensures
        split(text, separator) == seq![text],
    decreases text.len(),
{
    if text.len() > 0 {
        let rest = text.drop_last();
        assert(!rest.contains(separator)) by {
            if rest.contains(separator) {
                let k = choose|k: int| 0 <= k < rest.len() && rest[k] == separator;
                assert(text[k] == separator);
            }
        }
        assert(text[text.len() - 1] != separator);
        split_without_separator(rest, separator);
        assert(rest.push(text.last()) == text);
        assert(seq![rest].drop_last().push(text) == seq![text]);
    } else {
        assert(text == Seq::<char>::empty());
    }
}

/// The pieces of two texts with a separator between them are those of the one and of the other.
pub proof fn split_both(front: Seq<char>, separator: char, tail: Seq<char>)
    ensures
        split(front + seq![separator] + tail, separator) == split(front, separator) + split(
            tail,
            separator,
        ),
    decreases tail.len(),
{
    let whole = front + seq![separator] + tail;
    if tail.len() == 0 {
        assert(whole.drop_last() == front);
        assert(whole.last() == separator);
        assert(split(front, separator) + split(tail, separator) == split(front, separator).push(
            Seq::empty(),
        ));
    } else {
        let rest = tail.drop_last();
        split_both(front, separator, rest);
        split_has_a_piece(rest, separator);
        assert(whole.drop_last() == front + seq![separator] + rest);
        assert(whole.last() == tail.last());
        let before = split(front, separator) + split(rest, separator);
        assert(before.last() == split(rest, separator).last());
        assert(before.drop_last() == split(front, separator) + split(rest, separator).drop_last());
    }
}

/// What stands on one line before a text stands before its first piece.
pub proof fn split_behind(front: Seq<char>, separator: char, text: Seq<char>)
    requires
        !front.contains(separator),
    ensures
        split(front + text, separator) == split(text, separator).update(
            0,
            front + split(text, separator)[0],
        ),
    decreases text.len(),
{
    split_has_a_piece(text, separator);
    if text.len() == 0 {
        assert(front + text == front);
        split_without_separator(front, separator);
    } else {
        let rest = text.drop_last();
        let before = split(rest, separator);
        split_has_a_piece(rest, separator);
        split_behind(front, separator, rest);
        assert((front + text).drop_last() == front + rest);
        assert((front + text).last() == text.last());
        let found = split(front + rest, separator);
        if text.last() != separator {
            if before.len() == 1 {
                assert(found.last().push(text.last()) == front + before.last().push(text.last()));
            } else {
                assert(found.last() == before.last());
            }
        }
    }
}

/// What stands on one line behind a text stands behind its last piece.
pub proof fn split_before(text: Seq<char>, separator: char, tail: Seq<char>)
    requires
        !tail.contains(separator),
    ensures
        split(text + tail, separator) == split(text, separator).update(
            split(text, separator).len() - 1,
            split(text, separator).last() + tail,
        ),
    decreases tail.len(),
{
    split_has_a_piece(text, separator);
    if tail.len() == 0 {
        assert(text + tail == text);
        assert(split(text, separator).last() + tail == split(text, separator).last());
    } else {
        let rest = tail.drop_last();
        assert(!rest.contains(separator)) by {
            if rest.contains(separator) {
                let k = choose|k: int| 0 <= k < rest.len() && rest[k] == separator;
                assert(tail[k] == separator);
            }
        }
        assert(tail[tail.len() - 1] != separator);
        split_before(text, separator, rest);
        assert((text + tail).drop_last() == text + rest);
        assert((text + tail).last() == tail.last());
        let last = split(text, separator).last();
        assert((last + rest).push(tail.last()) == last + tail);
    }
}

/// The pieces between the line feeds of all parts.
pub open spec fn pieces(parts: Seq<Seq<char>>) -> Seq<Seq<char>>
    decreases parts.len(),
{
    if parts.len() == 0 {
        Seq::empty()
    } else {
        pieces(parts.drop_last()) + split(parts.last(), '\n')
    }
}

/// The pieces of parts and more parts are those of the one and of the other.
pub proof fn pieces_of_both(first: Seq<Seq<char>>, second: Seq<Seq<char>>)
    ensures
        pieces(first + second) == pieces(first) + pieces(second),
    decreases second.len(),
{
    let both = first + second;
    if second.len() == 0 {
        assert(both == first);
    } else {
        pieces_of_both(first, second.drop_last());
        assert(both.drop_last() == first + second.drop_last());
        assert(both.last() == second.last());
    }
}

/// Parts that stand on one line each are the pieces.
pub proof fn pieces_on_one_line(parts: Seq<Seq<char>>)
    requires
        each_on_one_line(parts),
    ensures
        pieces(parts) == parts,
    decreases parts.len(),
{
    if parts.len() > 0 {
        let rest = parts.drop_last();
        assert forall|i: int| 0 <= i < rest.len() implies !(#[trigger] rest[i]).contains('\n') by {
            assert(rest[i] == parts[i]);
        }
        pieces_on_one_line(rest);
        assert(!parts[parts.len() - 1].contains('\n'));
        split_without_separator(parts.last(), '\n');
        assert(rest + seq![parts.last()] == parts);
    }
}

/// Parts that are joined by line feeds have the pieces of all parts.
pub proof fn joined_lines_split(parts: Seq<Seq<char>>, feed: Seq<char>)
    requires
        parts.len() > 0,
        feed == seq!['\n'],
    ensures
        split(joined(parts, feed), '\n') == pieces(parts),
    decreases parts.len(),
{
    let rest = parts.drop_last();
    if parts.len() == 1 {
        assert(pieces(rest) == Seq::<Seq<char>>::empty());
        assert(parts.last() == parts[0]);
        assert(pieces(parts) == split(parts[0], '\n'));
    } else {
        joined_lines_split(rest, feed);
        split_both(joined(rest, feed), '\n', parts.last());
    }
}

/// The lines of parts that are joined by line feeds: a carriage return before a line feed is
/// lost.
pub proof fn joined_lines_are_lines(parts: Seq<Seq<char>>, feed: Seq<char>)
    requires
        parts.len() > 0,
        feed == seq!['\n'],
        pieces(parts).last().len() > 0,
    ensures
        lines(joined(parts, feed)).len() == pieces(parts).len(),
        pieces(parts).len() > 0,
        forall|i: int|
            0 <= i < pieces(parts).len() - 1 ==> #[trigger] lines(joined(parts, feed))[i]
                == without_return(pieces(parts)[i]),
        lines(joined(parts, feed)).last() == pieces(parts).last(),
{
    joined_lines_split(parts, feed);
    split_has_a_piece(joined(parts, feed), '\n');
}

/// What is joined begins with the first part.
pub proof fn joined_front(parts: Seq<Seq<char>>, separator: Seq<char>)
    requires
        parts.len() > 1,
    ensures
        joined(parts, separator) == parts[0] + separator + joined(parts.drop_first(), separator),
    decreases parts.len(),
{
    let rest = parts.drop_first();
    if parts.len() == 2 {
        reveal_with_fuel(joined, 2);
        assert(parts.drop_last()[0] == parts[0]);
        assert(rest[0] == parts.last());
    } else {
        joined_front(parts.drop_last(), separator);
        assert(parts.drop_last().drop_first() == rest.drop_last());
        assert(parts.drop_last()[0] == parts[0]);
        assert(rest.last() == parts.last());
        let middle = joined(rest.drop_last(), separator);
        assert(parts[0] + separator + middle + separator + parts.last() == parts[0] + separator + (
        middle + separator + parts.last()));
    }
}

proof fn separator_found_behind(first: Seq<char>, separator: Seq<char>, tail: Seq<char>)
    requires
        separator == seq![',', ' '],
        found_from(first, separator, 0) is None,
    ensures
        ({
            let text = first + separator + tail;
            &&& found_from(text, separator, 0) == Some(first.len() as int)
            &&& text.take(first.len() as int) == first
            &&& text.skip(first.len() + 2int) == tail
        }),
{
    found_behind(first, separator, tail);
    let text = first + separator + tail;
    assert(text.take(first.len() as int) == first);
    assert(text.skip(first.len() + 2int) == tail);
}

/// The pieces between the patterns, joined by the pattern again, make up the text.
pub proof fn pieces_are_joined(text: Seq<char>, pattern: Seq<char>)
    requires
        pattern.len() > 0,
    ensures
        split_by(text, pattern).len() > 0,
        joined(split_by(text, pattern), pattern) == text,
    decreases text.len(),
{
    found_is_first(text, pattern, 0);
    if let Some(place) = found_from(text, pattern, 0) {
        let rest = text.skip(place + pattern.len());
        pieces_are_joined(rest, pattern);
        let pieces = split_by(text, pattern);
        joined_front(pieces, pattern);
        assert(pieces.drop_first() == split_by(rest, pattern));
        assert(text.subrange(place, place + pattern.len()) == pattern);
        assert(text.take(place) + pattern + rest == text);
    }
}

/// The pieces between the separators are the names that were joined, if no name holds one.
pub proof fn joined_names_split(names: Seq<Seq<char>>, separator: Seq<char>)
    requires
        names.len() > 0,
        separator == seq![',', ' '],
        forall|i: int|
            0 <= i < names.len() ==> found_from(#[trigger] names[i], separator, 0) is None,
    ensures
        split_by(joined(names, separator), separator) == names,
    decreases names.len(),
{
    let text = joined(names, separator);
    let first = names[0];
    found_is_first(first, separator, 0);
    if names.len() == 1 {
        assert(seq![first] == names);
    } else {
        let rest = names.drop_first();
        joined_front(names, separator);
        let tail = joined(rest, separator);
        separator_found_behind(first, separator, tail);
        assert forall|i: int| 0 <= i < rest.len() implies found_from(
            #[trigger] rest[i],
            separator,
            0,
        ) is None by {
            assert(rest[i] == names[i + 1]);
        }
        joined_names_split(rest, separator);
        assert(seq![first] + rest == names);
    }
}

/// What is escaped begins with the first character escaped.
pub proof fn all_escaped_front(text: Seq<char>)
    requires
        text.len() > 0,
    ensures
        all_escaped(text) == escaped(text[0]) + all_escaped(text.drop_first()),
    decreases text.len(),
{
    if text.len() == 1 {
        reveal_with_fuel(all_escaped, 2);
        assert(text.drop_last() == Seq::<char>::empty());
        assert(text.drop_first() == Seq::<char>::empty());
    } else {
        all_escaped_front(text.drop_last());
        assert(text.drop_last().drop_first() == text.drop_first().drop_last());
        assert(text.drop_first().last() == text.last());
        let middle = all_escaped(text.drop_first().drop_last());
        assert(escaped(text[0]) + middle + escaped(text.last()) == escaped(text[0]) + (middle
            + escaped(text.last())));
    }
}

/// A pattern whose first character it holds only once, and that does not stand in the front, is
/// first found behind it.
pub proof fn found_behind(front: Seq<char>, pattern: Seq<char>, tail: Seq<char>)
    requires
        pattern.len() > 0,
        forall|k: int| 1 <= k < pattern.len() ==> #[trigger] pattern[k] != pattern[0],
        found_from(front, pattern, 0) is None,
    ensures
        found_from(front + pattern + tail, pattern, 0) == Some(front.len() as int),
{
    let text = front + pattern + tail;
    let place = front.len() as int;
    found_is_first(front, pattern, 0);
    assert(stands_at(text, pattern, place)) by {
        assert(text.subrange(place, place + pattern.len()) == pattern);
    }
    assert forall|k: int| 0 <= k < place implies !#[trigger] stands_at(text, pattern, k) by {
        if stands_at(text, pattern, k) {
            let there = text.subrange(k, k + pattern.len());
            if k + pattern.len() <= place {
                assert(front.subrange(k, k + pattern.len()) == there);
                assert(stands_at(front, pattern, k));
            } else {
                assert(there[place - k] == text[place]);
                assert(pattern[place - k] == pattern[0]);
            }
        }
    }
    found_is_first(text, pattern, 0);
}

/// The first separator is that behind text which does not hold it.
pub proof fn parted_behind(front: Seq<char>, separator: char, tail: Seq<char>)
    requires
        !front.contains(separator),
    ensures
        first_place(front + seq![separator] + tail, separator) == front.len(),
        parted(front + seq![separator] + tail, separator) == Some((front, tail)),
{
    let text = front + seq![separator] + tail;
    first_place_is_first(text, separator);
    let place = first_place(text, separator);
    assert(text[front.len() as int] == separator);
    assert(text.contains(separator));
    if place < front.len() {
        assert(front[place] == separator);
        assert(front.contains(separator));
    }
    assert(text.take(place) == front);
    assert(text.skip(place + 1) == tail);
}

/// Whether every text stands on one line.
pub open spec fn each_on_one_line(texts: Seq<Seq<char>>) -> bool {
    forall|i: int| 0 <= i < texts.len() ==> !(#[trigger] texts[i]).contains('\n')
}

/// What is put together of text on one line stands on one line.
pub proof fn both_on_one_line(first: Seq<char>, second: Seq<char>)
    requires
        !first.contains('\n'),
        !second.contains('\n'),
    ensures
        !(first + second).contains('\n'),
{
    let both = first + second;
    if both.contains('\n') {
        let k = choose|k: int| 0 <= k < both.len() && both[k] == '\n';
        if k < first.len() {
            assert(first[k] == '\n');
        } else {
            assert(second[k - first.len()] == '\n');
        }
    }
}

/// What is joined of text on one line stands on one line.
pub proof fn joined_on_one_line(parts: Seq<Seq<char>>, separator: Seq<char>)
    requires
        each_on_one_line(parts),
        !separator.contains('\n'),
    ensures
        !joined(parts, separator).contains('\n'),
    decreases parts.len(),
{
    if parts.len() == 1 {
        assert(!parts[0].contains('\n'));
    } else if parts.len() > 1 {
        let rest = parts.drop_last();
        assert forall|i: int| 0 <= i < rest.len() implies !(#[trigger] rest[i]).contains('\n') by {
            assert(rest[i] == parts[i]);
        }
        joined_on_one_line(rest, separator);
        assert(!parts[parts.len() - 1].contains('\n'));
        both_on_one_line(joined(rest, separator), separator);
        both_on_one_line(joined(rest, separator) + separator, parts.last());
    }
}

} // verus!
