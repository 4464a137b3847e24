//! What holds of white space, letters, digits, and the order of texts.
use vstd::prelude::*;

verus! {

use vstd::arithmetic::div_mod::lemma_div_denominator;
use vstd::arithmetic::power::{lemma_pow0, lemma_pow1, lemma_pow_adds, lemma_pow_positive, pow};
use crate::ordering::text_before;
use crate::text::{
    decimal, digit_char, digit_value, digits_value, is_white, joined, lines, lowered,
    number_error_text, number_value, padded_right, split, split_has_a_piece, trim_back, trim_front,
    trimmed, zero_padded, NumberError,
};
use crate::text_laws::{decimal_digits, split_both, split_without_separator};

/// Whether the number of a character is one of those of the white space of Unicode.
pub open spec fn is_white_number(number: u32) -> bool {
    seq![9u32, 10, 11, 12, 13, 32, 133, 160, 5760, 8232, 8233, 8239, 8287, 12288].contains(number)
        || seq![
        8192u32,
        8193,
        8194,
        8195,
        8196,
        8197,
        8198,
        8199,
        8200,
        8201,
        8202,
    ].contains(number)
}

/// The characters that count as white space are those of Unicode.
pub proof fn white_space_is_that_of_unicode(c: char)
    ensures
        is_white(c) <==> is_white_number(c as u32),
{
    let some = seq![9u32, 10, 11, 12, 13, 32, 133, 160, 5760, 8232, 8233, 8239, 8287, 12288];
    let others = seq![
        8192u32,
        8193,
        8194,
        8195,
        8196,
        8197,
        8198,
        8199,
        8200,
        8201,
        8202,
    ];
    let number = c as u32;
    if is_white(c) {
        if 9 <= number <= 13 {
            assert(some[number - 9] == number);
        } else if 8192 <= number <= 8202 {
            assert(others[number - 8192] == number);
        } else if number == 32 {
            assert(some[5] == number);
        } else if number == 133 {
            assert(some[6] == number);
        } else if number == 160 {
            assert(some[7] == number);
        } else if number == 5760 {
            assert(some[8] == number);
        } else if number == 8232 {
            assert(some[9] == number);
        } else if number == 8233 {
            assert(some[10] == number);
        } else if number == 8239 {
            assert(some[11] == number);
        } else if number == 8287 {
            assert(some[12] == number);
        } else {
            assert(some[13] == number);
        }
    }
}

/// Whether all characters of a text are white space.
pub open spec fn is_all_white(text: Seq<char>) -> bool {
    forall|k: int| 0 <= k < text.len() ==> is_white(#[trigger] text[k])
}

proof fn front_is_white(text: Seq<char>) -> (front: Seq<char>)
    ensures
        is_all_white(front),
        text == front + trim_front(text),
        trim_front(text).len() > 0 ==> !is_white(trim_front(text)[0]),
    decreases text.len(),
{
    if text.len() > 0 && is_white(text[0]) {
        let rest = text.drop_first();
        let others = front_is_white(rest);
        let front = seq![text[0]] + others;
        assert(text == seq![text[0]] + rest);
        assert(text == front + trim_front(text));
        front
    } else {
        assert(text == Seq::<char>::empty() + text);
        Seq::empty()
    }
}

proof fn back_is_white(text: Seq<char>) -> (back: Seq<char>)
    ensures
        is_all_white(back),
        text == trim_back(text) + back,
        trim_back(text).len() > 0 ==> !is_white(trim_back(text).last()),
    decreases text.len(),
{
    if text.len() > 0 && is_white(text.last()) {
        let rest = text.drop_last();
        let others = back_is_white(rest);
        let back = others.push(text.last());
        assert(text == rest.push(text.last()));
        assert(text == trim_back(text) + back);
        back
    } else {
        assert(text == text + Seq::<char>::empty());
        Seq::empty()
    }
}

/// A trimmed text is the text without white space around it: what is cut off is white space, and
/// what is left neither begins nor ends with any.
pub proof fn trimmed_is_without_white_space_around(text: Seq<char>) -> (cut: (Seq<char>, Seq<char>))
    ensures
        is_all_white(cut.0),
        is_all_white(cut.1),
        text == cut.0 + trimmed(text) + cut.1,
        trimmed(text).len() > 0 ==> !is_white(trimmed(text)[0]) && !is_white(trimmed(text).last()),
{
    let front = front_is_white(text);
    let rest = trim_front(text);
    let back = back_is_white(rest);
    let core = trimmed(text);
    assert(text == front + core + back);
    if core.len() > 0 {
        assert(rest[0] == core[0]);
    }
    (front, back)
}

/// Capital letters from A to Z are made small; all other characters stay.
pub proof fn capitals_are_made_small(text: Seq<char>, i: int)
    requires
        0 <= i < text.len(),
    ensures
        lowered(text).len() == text.len(),
        forall|k: int|
            0 <= k < 26 && text[i] == #[trigger] "ABCDEFGHIJKLMNOPQRSTUVWXYZ"@[k] ==> lowered(
                text,
            )[i] == "abcdefghijklmnopqrstuvwxyz"@[k],
        !"ABCDEFGHIJKLMNOPQRSTUVWXYZ"@.contains(text[i]) ==> lowered(text)[i] == text[i],
{
    reveal_strlit("ABCDEFGHIJKLMNOPQRSTUVWXYZ");
    reveal_strlit("abcdefghijklmnopqrstuvwxyz");
    let c = text[i];
    if 'A' <= c <= 'Z' {
        let k = c as int - 'A' as int;
        assert("ABCDEFGHIJKLMNOPQRSTUVWXYZ"@[k] == c);
    }
}

/// What is joined of no parts is empty, and of one part that part.
pub proof fn few_parts_are_joined(part: Seq<char>, separator: Seq<char>)
    ensures
        joined(Seq::empty(), separator) == Seq::<char>::empty(),
        joined(seq![part], separator) == part,
{
}

/// The decimal digits of a number, from the right, tell how many ones, tens, hundreds and so on
/// it has; the first digit is no nought unless it is the only one.
pub proof fn digits_have_their_places(number: nat, i: nat)
    ensures
        decimal(number).len() > 0,
        i < decimal(number).len() ==> decimal(number)[decimal(number).len() - 1 - i] as int == 48
            + (number as int / pow(10, i)) % 10,
        decimal(number).len() > 1 ==> decimal(number)[0] != '0',
    decreases number,
{
    let text = decimal(number);
    lemma_pow0(10);
    if number >= 10 {
        let rest = decimal(number / 10);
        assert(text == rest.push(digit_char(number % 10)));
        if i > 0 {
            digits_have_their_places(number / 10, (i - 1) as nat);
            if i < text.len() {
                lemma_pow_positive(10, (i - 1) as nat);
                lemma_pow_adds(10, 1, (i - 1) as nat);
                lemma_pow1(10);
                assert(pow(10, i) == 10 * pow(10, (i - 1) as nat));
                lemma_div_denominator(
                    number as int,
                    10,
                    pow(10, (i - 1) as nat),
                );
                assert(text[text.len() - 1 - i] == rest[rest.len() - 1 - (i - 1)]);
            }
        } else {
            digits_have_their_places(number / 10, 0);
        }
        if rest.len() == 1 {
            one_digit_is_below_ten(number / 10);
        }
        assert(text[0] == rest[0]);
    }
}

proof fn one_digit_is_below_ten(number: nat)
    requires
        number > 0,
        decimal(number).len() == 1,
    ensures
        decimal(number)[0] != '0',
{
    if number >= 10 {
        decimal_digits(number / 10, number as int);
        assert(decimal(number).len() == decimal(number / 10).len() + 1);
    }
}

/// A number that is filled up with noughts is as wide as asked, or as its digits where they are
/// more; it ends with its digits, and only noughts stand before them.
pub proof fn noughts_stand_before_the_digits(number: nat, width: nat, i: int)
    ensures
        zero_padded(number, width as int).len() == (if decimal(number).len() > width {
            decimal(number).len()
        } else {
            width
        }),
        decimal(number).is_suffix_of(zero_padded(number, width as int)),
        0 <= i < zero_padded(number, width as int).len() - decimal(number).len() ==> zero_padded(
            number,
            width as int,
        )[i] == '0',
{
    let all = zero_padded(number, width as int);
    assert(all.subrange(all.len() - decimal(number).len(), all.len() as int) == decimal(number));
}

/// A text that is filled up with spaces is as wide as asked, or as it was where it is longer; it
/// begins with the text, and only spaces stand behind it.
pub proof fn spaces_stand_behind_the_text(text: Seq<char>, width: nat, i: int)
    ensures
        padded_right(text, width as int).len() == (if text.len() > width {
            text.len()
        } else {
            width
        }),
        text.is_prefix_of(padded_right(text, width as int)),
        text.len() <= i < padded_right(text, width as int).len() ==> padded_right(
            text,
            width as int,
        )[i] == ' ',
{
    let all = padded_right(text, width as int);
    assert(all.subrange(0, text.len() as int) == text);
}

/// The sum of the values of digits by their places.
pub open spec fn sum_of_places(digits: Seq<char>, radix: int) -> int
    decreases digits.len(),
{
    if digits.len() == 0 {
        0
    } else {
        digit_number(digits[0]) * pow(radix, (digits.len() - 1) as nat) + sum_of_places(
            digits.drop_first(),
            radix,
        )
    }
}

/// The value of a digit: of 0 to 9, and of the letters behind them.
pub open spec fn digit_number(c: char) -> int {
    let code = c as int;
    if 48 <= code <= 57 {
        code - 48
    } else if 97 <= code <= 122 {
        code - 87
    } else if 65 <= code <= 90 {
        code - 55
    } else {
        -1
    }
}

/// Whether a character is a digit below the radix.
pub open spec fn is_digit_below(c: char, radix: int) -> bool {
    0 <= digit_number(c) < radix
}

proof fn sum_with_last(digits: Seq<char>, radix: int)
    requires
        digits.len() > 0,
    ensures
        sum_of_places(digits, radix) == sum_of_places(digits.drop_last(), radix) * radix
            + digit_number(digits.last()),
    decreases digits.len(),
{
    lemma_pow0(radix);
    lemma_pow1(radix);
    if digits.len() == 1 {
        assert(digits.drop_first() == Seq::<char>::empty());
        assert(digits.drop_last() == Seq::<char>::empty());
        assert(digits[0] == digits.last());
        assert(digit_number(digits[0]) * pow(radix, 0) == digit_number(digits[0])) by (nonlinear_arith)
            requires
                pow(radix, 0) == 1,
        ;
    } else {
        let behind = digits.drop_first();
        let front = digits.drop_last();
        let first = digit_number(digits[0]);
        let n = (digits.len() - 2) as nat;
        sum_with_last(behind, radix);
        assert(behind.drop_last() == front.drop_first());
        assert(behind.last() == digits.last());
        assert(front[0] == digits[0]);
        lemma_pow_adds(radix, 1, n);
        let middle = sum_of_places(front.drop_first(), radix);
        let power = pow(radix, n);
        let last = digit_number(digits.last());
        assert(first * (radix * power) + (middle * radix + last) == (first * power + middle) * radix
            + last) by (nonlinear_arith);
    }
}

proof fn sum_is_not_negative(digits: Seq<char>, radix: int)
    requires
        radix > 0,
        forall|i: int| 0 <= i < digits.len() ==> is_digit_below(#[trigger] digits[i], radix),
    ensures
        sum_of_places(digits, radix) >= 0,
        digits.len() > 0 ==> sum_of_places(digits.drop_last(), radix) <= sum_of_places(
            digits,
            radix,
        ),
    decreases digits.len(),
{
    if digits.len() > 0 {
        let front = digits.drop_last();
        assert forall|i: int| 0 <= i < front.len() implies is_digit_below(
            #[trigger] front[i],
            radix,
        ) by {
            assert(front[i] == digits[i]);
        }
        sum_is_not_negative(front, radix);
        sum_with_last(digits, radix);
        assert(is_digit_below(digits[digits.len() - 1], radix));
        let before = sum_of_places(front, radix);
        assert(before * radix >= before) by (nonlinear_arith)
            requires
                before >= 0,
                radix >= 1,
        ;
    }
}

proof fn digits_stand_for_their_sum(digits: Seq<char>, radix: int, max: int)
    requires
        2 <= radix <= 36,
        0 <= max,
    ensures
        (forall|i: int| 0 <= i < digits.len() ==> is_digit_below(#[trigger] digits[i], radix))
            && sum_of_places(digits, radix) <= max ==> digits_value(digits, radix, max) == Ok::<
            int,
            NumberError,
        >(sum_of_places(digits, radix)),
        digits_value(digits, radix, max) matches Ok(number) ==> number == sum_of_places(
            digits,
            radix,
        ) && number <= max && forall|i: int|
            0 <= i < digits.len() ==> is_digit_below(#[trigger] digits[i], radix),
    decreases digits.len(),
{
    if digits.len() > 0 {
        let front = digits.drop_last();
        let last = digits.last();
        digits_stand_for_their_sum(front, radix, max);
        sum_with_last(digits, radix);
        assert(digits[digits.len() - 1] == last);
        assert(digit_value(last, radix) is Some <==> is_digit_below(last, radix));
        assert(digit_value(last, radix) is Some ==> digit_value(last, radix)->0 == digit_number(
            last,
        ));
        if forall|i: int| 0 <= i < digits.len() ==> is_digit_below(#[trigger] digits[i], radix) {
            assert forall|i: int| 0 <= i < front.len() implies is_digit_below(
                #[trigger] front[i],
                radix,
            ) by {
                assert(front[i] == digits[i]);
            }
            sum_is_not_negative(digits, radix);
        }
        if digits_value(digits, radix, max) is Ok {
            assert forall|i: int| 0 <= i < digits.len() implies is_digit_below(
                #[trigger] digits[i],
                radix,
            ) by {
                if i < front.len() {
                    assert(front[i] == digits[i]);
                }
            }
        }
    }
}

/// The digits of a number that is read: all of the text, or all behind a plus sign.
pub open spec fn digits_in(text: Seq<char>) -> Seq<char> {
    if text.len() > 1 && text[0] == '+' {
        text.drop_first()
    } else {
        text
    }
}

/// A text is read as a number just where it is made of digits, with a plus sign before them or
/// not, and does not go beyond what fits; the number is then the sum of the digits by their
/// places.
pub proof fn numbers_are_read_by_their_places(text: Seq<char>, radix: int, max: int)
    requires
        2 <= radix <= 36,
        0 <= max,
    ensures
        number_value(text, radix, max) is Ok <==> text.len() > 0 && sum_of_places(
            digits_in(text),
            radix,
        ) <= max && forall|i: int|
            0 <= i < digits_in(text).len() ==> is_digit_below(
                #[trigger] digits_in(text)[i],
                radix,
            ),
        number_value(text, radix, max) matches Ok(number) ==> number == sum_of_places(
            digits_in(text),
            radix,
        ),
{
    digits_stand_for_their_sum(digits_in(text), radix, max);
}

/// Whether two texts are the same up to a place, and the one ends there or has the smaller
/// character.
pub open spec fn parts_at(left: Seq<char>, right: Seq<char>, at: int) -> bool {
    &&& 0 <= at <= left.len()
    &&& at < right.len()
    &&& forall|k: int| 0 <= k < at ==> #[trigger] left[k] == right[k]
    &&& at == left.len() || left[at] < right[at]
}

/// A text comes before another just where, at the first place at which they are not the same, it
/// ends or has the smaller character.
pub proof fn texts_are_ordered_by_their_first_difference(left: Seq<char>, right: Seq<char>)
    ensures
        text_before(left, right) <==> exists|at: int| #[trigger] parts_at(left, right, at),
    decreases left.len(),
{
    if right.len() == 0 {
        assert(forall|at: int| !#[trigger] parts_at(left, right, at));
    } else if left.len() == 0 {
        assert(parts_at(left, right, 0));
    } else if left[0] == right[0] {
        let short = left.drop_first();
        let other = right.drop_first();
        texts_are_ordered_by_their_first_difference(short, other);
        if text_before(left, right) {
            let at = choose|at: int| #[trigger] parts_at(short, other, at);
            assert forall|k: int| 0 <= k < at + 1 implies #[trigger] left[k] == right[k] by {
                if k > 0 {
                    assert(short[k - 1] == left[k] && other[k - 1] == right[k]);
                }
            }
            assert(parts_at(left, right, at + 1));
        }
        if exists|at: int| #[trigger] parts_at(left, right, at) {
            let at = choose|at: int| #[trigger] parts_at(left, right, at);
            assert(at > 0);
            assert forall|k: int| 0 <= k < at - 1 implies #[trigger] short[k] == other[k] by {
                assert(left[k + 1] == right[k + 1]);
            }
            assert(parts_at(short, other, at - 1));
        }
    } else {
        if left[0] < right[0] {
            assert(parts_at(left, right, 0));
        }
        if exists|at: int| #[trigger] parts_at(left, right, at) {
            let at = choose|at: int| #[trigger] parts_at(left, right, at);
            if at > 0 {
                assert(left[0] == right[0]);
            }
        }
    }
}

/// Lines end with line feeds: the first line of a text is what stands before its first line feed,
/// without a carriage return right before that, and the others are the lines of what stands behind
/// it. What stands behind the last line feed is a line where it is not empty.
pub proof fn lines_end_with_line_feeds(line: Seq<char>, tail: Seq<char>)
    requires
        !line.contains('\n'),
    ensures
        lines(line.push('\n') + tail) == seq![
            if line.len() > 0 && line[line.len() - 1] == '\r' {
                line.take(line.len() - 1)
            } else {
                line
            },
        ] + lines(tail),
        lines(line) == (if line.len() > 0 {
            seq![line]
        } else {
            Seq::empty()
        }),
{
    let whole = line.push('\n') + tail;
    assert(whole == line + seq!['\n'] + tail);
    split_both(line, '\n', tail);
    split_without_separator(line, '\n');
    split_has_a_piece(tail, '\n');
    let pieces = split(whole, '\n');
    assert(pieces == seq![line] + split(tail, '\n'));
    assert(pieces.last() == split(tail, '\n').last());
    if line.len() > 0 && line[line.len() - 1] == '\r' {
        assert(line.drop_last() == line.take(line.len() - 1));
    }
    let first = seq![
        if line.len() > 0 && line[line.len() - 1] == '\r' {
            line.take(line.len() - 1)
        } else {
            line
        },
    ];
    assert(lines(whole) == first + lines(tail));
    assert(lines(line) == (if line.len() > 0 {
        seq![line]
    } else {
        Seq::empty()
    }));
}

/// What is said of a text that is no number.
pub proof fn wrong_numbers_are_told()
    ensures
        number_error_text(NumberError::Empty) == "cannot parse integer from empty string"@,
        number_error_text(NumberError::InvalidDigit) == "invalid digit found in string"@,
        number_error_text(NumberError::TooLarge) == "number too large to fit in target type"@,
{
}

/// Why a text is no number is told by the first digit that makes it none: it is no digit, or with it
/// the number goes beyond what fits. An empty text is told as such.
pub proof fn first_wrong_digit_tells(digits: Seq<char>, c: char, radix: int, max: int)
    requires
        2 <= radix <= 36,
        0 <= max,
        digits.len() > 0,
        digits[0] != '+',
        number_value(digits, radix, max) is Ok,
    ensures
        !is_digit_below(c, radix) ==> number_value(digits.push(c), radix, max) == Err::<
            int,
            NumberError,
        >(NumberError::InvalidDigit),
        is_digit_below(c, radix) && sum_of_places(digits.push(c), radix) > max ==> number_value(
            digits.push(c),
            radix,
            max,
        ) == Err::<int, NumberError>(NumberError::TooLarge),
        number_value(Seq::empty(), radix, max) == Err::<int, NumberError>(NumberError::Empty),
{
    let more = digits.push(c);
    assert(more.drop_last() == digits);
    assert(more[0] == digits[0]);
    digits_stand_for_their_sum(digits, radix, max);
    sum_with_last(more, radix);
    assert(digit_value(c, radix) is Some <==> is_digit_below(c, radix));
}

} // verus!
