//! The order of texts and of lists of texts: by the first place where they differ.
use vstd::prelude::*;

use crate::text::chars_of;

verus! {

/// Whether `left` comes strictly before `right` in the order of their characters.
pub open spec fn text_before(left: Seq<char>, right: Seq<char>) -> bool
    decreases left.len(),
{
    if right.len() == 0 {
        false
    } else if left.len() == 0 {
        true
    } else if left[0] == right[0] {
        text_before(left.drop_first(), right.drop_first())
    } else {
        left[0] < right[0]
    }
}

/// Whether the list `left` comes strictly before the list `right`.
pub open spec fn texts_before(left: Seq<Seq<char>>, right: Seq<Seq<char>>) -> bool
    decreases left.len(),
{
    if right.len() == 0 {
        false
    } else if left.len() == 0 {
        true
    } else if left[0] == right[0] {
        texts_before(left.drop_first(), right.drop_first())
    } else {
        text_before(left[0], right[0])
    }
}

/// No text comes before itself.
pub proof fn text_before_irreflexive(text: Seq<char>)
    ensures
        !text_before(text, text),
    decreases text.len(),
{
    if text.len() > 0 {
        text_before_irreflexive(text.drop_first());
    }
}

/// Of two different texts one comes before the other, and not both do.
pub proof fn text_before_total(left: Seq<char>, right: Seq<char>)
    ensures
        text_before(left, right) || text_before(right, left) || left == right,
        !(text_before(left, right) && text_before(right, left)),
    decreases left.len(),
{
    if left.len() == 0 || right.len() == 0 {
        if left.len() == 0 && right.len() == 0 {
            assert(left == right);
        }
    } else if left[0] == right[0] {
        text_before_total(left.drop_first(), right.drop_first());
        if left.drop_first() == right.drop_first() {
            assert(left == seq![left[0]] + left.drop_first());
            assert(right == seq![right[0]] + right.drop_first());
        }
    }
}

/// A text that comes before a second one comes before all that the second comes before.
pub proof fn text_before_transitive(first: Seq<char>, second: Seq<char>, third: Seq<char>)
    requires
        text_before(first, second),
        text_before(second, third),
    ensures
        text_before(first, third),
    decreases first.len(),
{
    if first.len() > 0 && first[0] == second[0] && second[0] == third[0] {
        text_before_transitive(first.drop_first(), second.drop_first(), third.drop_first());
    }
}

/// Of two different lists one comes before the other, and not both do.
pub proof fn texts_before_total(left: Seq<Seq<char>>, right: Seq<Seq<char>>)
    ensures
        texts_before(left, right) || texts_before(right, left) || left == right,
        !(texts_before(left, right) && texts_before(right, left)),
    decreases left.len(),
{
    if left.len() == 0 || right.len() == 0 {
        if left.len() == 0 && right.len() == 0 {
            assert(left == right);
        }
    } else if left[0] == right[0] {
        texts_before_total(left.drop_first(), right.drop_first());
        if left.drop_first() == right.drop_first() {
            assert(left == seq![left[0]] + left.drop_first());
            assert(right == seq![right[0]] + right.drop_first());
        }
    } else {
        text_before_total(left[0], right[0]);
    }
}

/// A list that comes before a second one comes before all that the second comes before.
pub proof fn texts_before_transitive(
    first: Seq<Seq<char>>,
    second: Seq<Seq<char>>,
    third: Seq<Seq<char>>,
)
    requires
        texts_before(first, second),
        texts_before(second, third),
    ensures
        texts_before(first, third),
    decreases first.len(),
{
    if first.len() > 0 {
        if first[0] == second[0] && second[0] == third[0] {
            texts_before_transitive(
                first.drop_first(),
                second.drop_first(),
                third.drop_first(),
            );
        } else if first[0] != second[0] && second[0] != third[0] {
            text_before_transitive(first[0], second[0], third[0]);
            if first[0] == third[0] {
                text_before_irreflexive(first[0]);
            }
        }
    }
}

/// Whether `left` comes strictly before `right` in the order of their characters.
pub fn is_before(left: &str, right: &str) -> (before: bool)
    ensures
        before == text_before(left@, right@),
{
    let left_chars = chars_of(left);
    let right_chars = chars_of(right);
    let mut i: usize = 0;
    assert(left@.skip(0) == left@);
    assert(right@.skip(0) == right@);
    while i < left_chars.len() && i < right_chars.len() && left_chars[i] == right_chars[i]
        invariant
            left_chars@ == left@,
            right_chars@ == right@,
            i <= left@.len(),
            i <= right@.len(),
            text_before(left@, right@) == text_before(left@.skip(i as int), right@.skip(i as int)),
        decreases left_chars.len() - i,
    {
        assert(left@.skip(i as int).drop_first() == left@.skip(i + 1));
        assert(right@.skip(i as int).drop_first() == right@.skip(i + 1));
        i = i + 1;
    }
    if i >= right_chars.len() {
        false
    } else if i >= left_chars.len() {
        true
    } else {
        left_chars[i] < right_chars[i]
    }
}

} // verus!
