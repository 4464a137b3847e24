//! What it means to find something in a list, and to pick some of its items.
use vstd::prelude::*;

verus! {

use crate::csv_key_diff::{distinct, places_of_key};
use crate::text::{first_place, first_place_is_first, last_place};

/// Whether the item stands at the place, and nowhere before it.
pub open spec fn is_first_at<T>(list: Seq<T>, item: T, at: int) -> bool {
    &&& 0 <= at < list.len()
    &&& list[at] == item
    &&& forall|k: int| 0 <= k < at ==> #[trigger] list[k] != item
}

/// Whether the item stands at the place, and nowhere behind it.
pub open spec fn is_last_at<T>(list: Seq<T>, item: T, at: int) -> bool {
    &&& 0 <= at < list.len()
    &&& list[at] == item
    &&& forall|k: int| at < k < list.len() ==> #[trigger] list[k] != item
}

/// Whether the places go upwards.
pub open spec fn go_upwards(places: Seq<int>) -> bool {
    forall|i: int, j: int| 0 <= i < j < places.len() ==> #[trigger] places[i] < #[trigger] places[j]
}

/// Whether the places are all those below `count` that are wanted, upwards.
pub open spec fn are_all_wanted(places: Seq<int>, count: int, wanted: spec_fn(int) -> bool) -> bool {
    &&& go_upwards(places)
    &&& forall|i: int|
        0 <= i < places.len() ==> 0 <= #[trigger] places[i] < count && wanted(places[i])
    &&& forall|k: int| 0 <= k < count && #[trigger] wanted(k) ==> places.contains(k)
}

/// An item that a list holds is found at its first place.
pub proof fn found_at_first_place<T>(list: Seq<T>, item: T)
    ensures
        list.contains(item) ==> is_first_at(list, item, first_place(list, item)),
        !list.contains(item) ==> first_place(list, item) == list.len(),
{
    first_place_is_first(list, item);
}

/// There is only one first place.
pub proof fn first_is_unique<T>(list: Seq<T>, item: T, left: int, right: int)
    requires
        is_first_at(list, item, left),
        is_first_at(list, item, right),
    ensures
        left == right,
{
}

/// An item that a list holds is found at its last place.
pub proof fn found_at_last_place<T>(list: Seq<T>, item: T)
    ensures
        list.contains(item) <==> last_place(list, item) is Some,
        last_place(list, item) matches Some(at) ==> is_last_at(list, item, at),
    decreases list.len(),
{
    if list.len() > 0 {
        let rest = list.drop_last();
        found_at_last_place(rest, item);
        if list.last() == item {
            assert(list[list.len() - 1] == item);
        } else {
            if list.contains(item) {
                let k = choose|k: int| 0 <= k < list.len() && list[k] == item;
                assert(rest[k] == item);
            }
            if let Some(at) = last_place(rest, item) {
                assert(rest[at] == item);
                assert(list[at] == item);
                assert forall|k: int| at < k < list.len() implies #[trigger] list[k] != item by {
                    if k < rest.len() {
                        assert(rest[k] == list[k]);
                    }
                }
            }
        }
    }
}

/// The places of a key are all those at which it stands, upwards.
pub proof fn places_are_all_places<K>(keys: Seq<K>, key: K)
    ensures
        go_upwards(places_of_key(keys, key)),
        forall|i: int|
            0 <= i < places_of_key(keys, key).len() ==> 0 <= #[trigger] places_of_key(keys, key)[i]
                < keys.len() && keys[places_of_key(keys, key)[i]] == key,
        forall|k: int|
            0 <= k < keys.len() && #[trigger] keys[k] == key ==> places_of_key(
                keys,
                key,
            ).contains(k),
    decreases keys.len(),
{
    let places = places_of_key(keys, key);
    if keys.len() > 0 {
        let rest = keys.drop_last();
        let before = places_of_key(rest, key);
        places_are_all_places(rest, key);
        assert forall|i: int| 0 <= i < places.len() implies 0 <= #[trigger] places[i] < keys.len()
            && keys[places[i]] == key by {
            if i < before.len() {
                assert(places[i] == before[i]);
                assert(rest[before[i]] == key);
            }
        }
        assert forall|i: int, j: int| 0 <= i < j < places.len() implies #[trigger] places[i]
            < #[trigger] places[j] by {
            assert(places[i] == before[i]);
            if j < before.len() {
                assert(places[j] == before[j]);
            }
        }
        assert forall|k: int| 0 <= k < keys.len() && #[trigger] keys[k] == key implies places.contains(
            k,
        ) by {
            if k < rest.len() {
                assert(rest[k] == key);
                assert(before.contains(k));
                let m = choose|m: int| 0 <= m < before.len() && before[m] == k;
                assert(places[m] == k);
            } else {
                assert(places[places.len() - 1] == k);
            }
        }
    }
}

/// Two lists of places that are all the wanted ones are the same.
pub proof fn wanted_places_are_unique(
    left: Seq<int>,
    right: Seq<int>,
    count: int,
    wanted: spec_fn(int) -> bool,
)
    requires
        are_all_wanted(left, count, wanted),
        are_all_wanted(right, count, wanted),
    ensures
        left == right,
    decreases left.len(),
{
    if left.len() == 0 {
        if right.len() > 0 {
            assert(wanted(right[0]));
            assert(left.contains(right[0]));
        }
        assert(left == right);
    } else {
        assert(wanted(left[left.len() - 1]));
        assert(right.contains(left[left.len() - 1]));
        let l = left.last();
        let r = right.last();
        assert(wanted(right[right.len() - 1]));
        assert(left.contains(right[right.len() - 1]));
        let m = choose|m: int| 0 <= m < right.len() && right[m] == l;
        let n = choose|n: int| 0 <= n < left.len() && left[n] == r;
        if m < right.len() - 1 {
            assert(right[m] < right[right.len() - 1]);
        }
        if n < left.len() - 1 {
            assert(left[n] < left[left.len() - 1]);
        }
        assert(l == r);
        let shorter = left.drop_last();
        let other = right.drop_last();
        assert forall|k: int| 0 <= k < l && #[trigger] wanted(k) implies shorter.contains(k)
            && other.contains(k) by {
            let a = choose|a: int| 0 <= a < left.len() && left[a] == k;
            assert(shorter[a] == k);
            let b = choose|b: int| 0 <= b < right.len() && right[b] == k;
            assert(other[b] == k);
        }
        assert forall|i: int| 0 <= i < shorter.len() implies 0 <= #[trigger] shorter[i] < l
            && wanted(shorter[i]) by {
            assert(left[i] < left[left.len() - 1]);
        }
        assert forall|i: int| 0 <= i < other.len() implies 0 <= #[trigger] other[i] < l && wanted(
            other[i],
        ) by {
            assert(right[i] < right[right.len() - 1]);
        }
        wanted_places_are_unique(shorter, other, l, wanted);
        assert(left == shorter.push(l));
        assert(right == other.push(r));
    }
}

/// The distinct items of a list are its items, each once, in the order in which they first stand
/// there.
pub proof fn distinct_keeps_the_first<T>(list: Seq<T>, left: int, right: int)
    requires
        0 <= left < distinct(list).len(),
        0 <= right < distinct(list).len(),
    ensures
        list.contains(distinct(list)[left]),
        left != right ==> distinct(list)[left] != distinct(list)[right],
        left < right ==> first_place(list, distinct(list)[left]) < first_place(
            list,
            distinct(list)[right],
        ),
    decreases list.len(),
{
    let rest = list.drop_last();
    let before = distinct(rest);
    let all = distinct(list);
    assert(list[list.len() - 1] == list.last());
    assert(list.contains(list.last()));
    if left < before.len() {
        distinct_keeps_the_first(rest, left, left);
        let k = choose|k: int| 0 <= k < rest.len() && rest[k] == before[left];
        assert(list[k] == before[left]);
        same_first_place(list, before[left]);
    }
    if right < before.len() {
        distinct_keeps_the_first(rest, right, right);
        same_first_place(list, before[right]);
    }
    if left < before.len() && right < before.len() {
        distinct_keeps_the_first(rest, left, right);
    } else if left < before.len() {
        assert(before.contains(before[left]));
        found_at_first_place(rest, before[left]);
        found_at_first_place(list, list.last());
        let at = first_place(list, list.last());
        if at < rest.len() {
            assert(rest[at] == list.last());
            distinct_has_all(rest, at);
        }
    } else if right < before.len() {
        assert(before.contains(before[right]));
    }
}

proof fn same_first_place<T>(list: Seq<T>, item: T)
    requires
        list.len() > 0,
        list.drop_last().contains(item),
    ensures
        first_place(list, item) == first_place(list.drop_last(), item),
{
    let rest = list.drop_last();
    found_at_first_place(rest, item);
    let at = first_place(rest, item);
    assert(rest[at] == list[at]);
    assert(list.contains(item));
    found_at_first_place(list, item);
    assert forall|k: int| 0 <= k < at implies #[trigger] list[k] != item by {
        assert(rest[k] == list[k]);
    }
    first_is_unique(list, item, at, first_place(list, item));
}

/// Every item of a list is one of its distinct items.
pub proof fn distinct_has_all<T>(list: Seq<T>, at: int)
    requires
        0 <= at < list.len(),
    ensures
        distinct(list).contains(list[at]),
    decreases list.len(),
{
    let rest = list.drop_last();
    let before = distinct(rest);
    if at < rest.len() {
        distinct_has_all(rest, at);
        let k = choose|k: int| 0 <= k < before.len() && before[k] == rest[at];
        assert(distinct(list)[k] == list[at]);
    } else if !before.contains(list.last()) {
        assert(distinct(list)[before.len() as int] == list.last());
    }
}

} // verus!
