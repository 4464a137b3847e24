//! What the cells, keys, and groups of the rows of a table are.
use vstd::prelude::*;

verus! {

use crate::csv_key_diff::{group_of, key_of, keys_of, names_without, places_of_key, value_in, CsvModel};
use crate::list_laws::{
    are_all_wanted, found_at_last_place, is_last_at, places_are_all_places,
    wanted_places_are_unique,
};
use crate::text::last_place;

/// Whether a row has a text under a name: in the last column of that name, or, where the row does
/// not reach so far or no column has the name, the text is empty.
pub open spec fn reads(
    headers: Seq<Seq<char>>,
    row: Seq<Seq<char>>,
    name: Seq<char>,
    text: Seq<char>,
) -> bool {
    ||| exists|at: int| #[trigger] is_last_at(headers, name, at) && at < row.len() && row[at] == text
    ||| text.len() == 0 && forall|at: int| #[trigger]
        is_last_at(headers, name, at) ==> at >= row.len()
}

/// Whether a row has a key: its names are those of the key columns, and its values what the row
/// has under them.
pub open spec fn has_key(
    headers: Seq<Seq<char>>,
    row: Seq<Seq<char>>,
    key_columns: Seq<Seq<char>>,
    key: Seq<(Seq<char>, Seq<char>)>,
) -> bool {
    &&& key.len() == key_columns.len()
    &&& forall|i: int|
        0 <= i < key.len() ==> is_part_of_key(#[trigger] key[i], headers, row, key_columns[i])
}

/// Whether a part of a key is the name of a key column and what a row has under it.
pub open spec fn is_part_of_key(
    part: (Seq<char>, Seq<char>),
    headers: Seq<Seq<char>>,
    row: Seq<Seq<char>>,
    name: Seq<char>,
) -> bool {
    part.0 == name && reads(headers, row, name, part.1)
}

/// The value of a row under a name is the cell in the last column of that name; there is none
/// where the row ends before it, or no column has the name.
pub proof fn value_is_in_the_last_column(
    headers: Seq<Seq<char>>,
    row: Seq<Seq<char>>,
    name: Seq<char>,
    at: int,
)
    ensures
        !headers.contains(name) ==> value_in(headers, row, name) is None,
        is_last_at(headers, name, at) && at < row.len() ==> value_in(headers, row, name) == Some(
            row[at],
        ),
        is_last_at(headers, name, at) && at >= row.len() ==> value_in(headers, row, name) is None,
{
    found_at_last_place(headers, name);
    if is_last_at(headers, name, at) {
        assert(headers.contains(name));
        let other = last_place(headers, name)->0;
        assert(headers[at] == name && headers[other] == name);
        assert(at == other);
    }
}

proof fn reads_the_value(headers: Seq<Seq<char>>, row: Seq<Seq<char>>, name: Seq<char>, text: Seq<char>)
    ensures
        reads(headers, row, name, text) <==> text == (match value_in(headers, row, name) {
            Some(value) => value,
            None => Seq::empty(),
        }),
{
    found_at_last_place(headers, name);
    if let Some(at) = last_place(headers, name) {
        assert(is_last_at(headers, name, at));
        value_is_in_the_last_column(headers, row, name, at);
        assert forall|other: int| #[trigger] is_last_at(headers, name, other) implies other
            == at by {
            assert(headers[at] == name && headers[other] == name);
        }
        if at >= row.len() && text.len() == 0 {
            assert(text == Seq::<char>::empty());
        }
    } else {
        assert forall|other: int| #[trigger] is_last_at(headers, name, other) implies false by {
            assert(headers[other] == name);
            assert(headers.contains(name));
        }
        if text.len() == 0 {
            assert(text == Seq::<char>::empty());
        }
    }
}

/// The key of a row is made of the names of the key columns and of what the row has under them.
pub proof fn key_shows_the_cells(
    headers: Seq<Seq<char>>,
    row: Seq<Seq<char>>,
    key_columns: Seq<Seq<char>>,
    key: Seq<(Seq<char>, Seq<char>)>,
)
    ensures
        has_key(headers, row, key_columns, key) <==> key_of(headers, row, key_columns) == key,
{
    let own = key_of(headers, row, key_columns);
    assert forall|i: int| 0 <= i < own.len() implies is_part_of_key(
        #[trigger] own[i],
        headers,
        row,
        key_columns[i],
    ) by {
        reads_the_value(headers, row, key_columns[i], own[i].1);
    }
    if has_key(headers, row, key_columns, key) {
        assert forall|i: int| 0 <= i < key.len() implies #[trigger] key[i] == own[i] by {
            assert(is_part_of_key(key[i], headers, row, key_columns[i]));
            reads_the_value(headers, row, key_columns[i], key[i].1);
        }
        assert(own == key);
    }
}

/// Whether the places are those of all rows of a table with a key, in order.
pub open spec fn are_rows_of_key(
    places: Seq<int>,
    csv: CsvModel,
    key_columns: Seq<Seq<char>>,
    key: Seq<(Seq<char>, Seq<char>)>,
) -> bool {
    are_all_wanted(
        places,
        csv.rows.len() as int,
        |row: int| has_key(csv.headers, csv.rows[row], key_columns, key),
    )
}

/// The group of a key has all rows of the table with the key, in the order of the table.
pub proof fn group_has_the_rows_of_the_key(
    csv: CsvModel,
    key_columns: Seq<Seq<char>>,
    key: Seq<(Seq<char>, Seq<char>)>,
    places: Seq<int>,
)
    requires
        are_rows_of_key(places, csv, key_columns, key),
    ensures
        group_of(csv, key_columns, key).len() == places.len(),
        forall|at: int|
            0 <= at < places.len() ==> #[trigger] group_of(csv, key_columns, key)[at]
                == csv.rows[places[at]],
{
    let own = rows_of_key(csv, key_columns, key);
    wanted_places_are_unique(
        places,
        own,
        csv.rows.len() as int,
        |row: int| has_key(csv.headers, csv.rows[row], key_columns, key),
    );
}

/// The places of the rows with a key.
pub(crate) proof fn rows_of_key(
    csv: CsvModel,
    key_columns: Seq<Seq<char>>,
    key: Seq<(Seq<char>, Seq<char>)>,
) -> (places: Seq<int>)
    ensures
        places == places_of_key(keys_of(csv, key_columns), key),
        are_rows_of_key(places, csv, key_columns, key),
{
    let keys = keys_of(csv, key_columns);
    let places = places_of_key(keys, key);
    let wanted = |row: int| has_key(csv.headers, csv.rows[row], key_columns, key);
    places_are_all_places(keys, key);
    assert forall|i: int| 0 <= i < places.len() implies 0 <= #[trigger] places[i] < csv.rows.len()
        && wanted(places[i]) by {
        assert(keys[places[i]] == key);
        key_shows_the_cells(csv.headers, csv.rows[places[i]], key_columns, key);
    }
    assert forall|k: int| 0 <= k < csv.rows.len() && #[trigger] wanted(k) implies places.contains(
        k,
    ) by {
        key_shows_the_cells(csv.headers, csv.rows[k], key_columns, key);
        assert(keys[k] == key);
    }
    assert(are_all_wanted(places, csv.rows.len() as int, wanted));
    places
}

/// Whether a row is the one of a table that has a key for the time that is counted from nought.
pub open spec fn is_occurrence(
    csv: CsvModel,
    key_columns: Seq<Seq<char>>,
    key: Seq<(Seq<char>, Seq<char>)>,
    at: int,
    row: int,
) -> bool {
    exists|places: Seq<int>| #[trigger]
        are_rows_of_key(places, csv, key_columns, key) && 0 <= at < places.len() && places[at]
            == row
}

/// Whether a table has a row with a key and an occurrence.
pub open spec fn has_occurrence(
    csv: CsvModel,
    key_columns: Seq<Seq<char>>,
    key: Seq<(Seq<char>, Seq<char>)>,
    at: int,
) -> bool {
    exists|row: int| #[trigger] is_occurrence(csv, key_columns, key, at, row)
}

/// The row with a key and an occurrence stands at that place of the group of the key.
pub proof fn occurrence_is_in_its_group(
    csv: CsvModel,
    key_columns: Seq<Seq<char>>,
    key: Seq<(Seq<char>, Seq<char>)>,
    at: int,
)
    ensures
        has_occurrence(csv, key_columns, key, at) <==> 0 <= at < group_of(
            csv,
            key_columns,
            key,
        ).len(),
        forall|row: int| #[trigger]
            is_occurrence(csv, key_columns, key, at, row) ==> 0 <= row < csv.rows.len()
                && csv.rows[row] == group_of(csv, key_columns, key)[at],
{
    let own = rows_of_key(csv, key_columns, key);
    if 0 <= at < own.len() {
        assert(is_occurrence(csv, key_columns, key, at, own[at]));
    }
    assert forall|row: int| #[trigger] is_occurrence(csv, key_columns, key, at, row) implies 0 <= row
        < csv.rows.len() && csv.rows[row] == group_of(csv, key_columns, key)[at] && 0 <= at
        < group_of(csv, key_columns, key).len() by {
        let places = choose|places: Seq<int>| #[trigger]
            are_rows_of_key(places, csv, key_columns, key) && 0 <= at < places.len() && places[at]
                == row;
        group_has_the_rows_of_the_key(csv, key_columns, key, places);
        assert(group_of(csv, key_columns, key)[at] == csv.rows[places[at]]);
    }
}

/// Of a list of names those stay that are not among the others, in order.
pub proof fn other_names_go(names: Seq<Seq<char>>, others: Seq<Seq<char>>) -> (places: Seq<int>)
    ensures
        are_all_wanted(places, names.len() as int, |k: int| !others.contains(names[k])),
        names_without(names, others).len() == places.len(),
        forall|i: int|
            0 <= i < places.len() ==> #[trigger] names_without(names, others)[i]
                == names[places[i]],
    decreases names.len(),
{
    let kept = names_without(names, others);
    let wanted = |k: int| !others.contains(names[k]);
    if names.len() == 0 {
        let places = Seq::<int>::empty();
        assert(are_all_wanted(places, 0, wanted));
        places
    } else {
        let rest = names.drop_last();
        let last = names.len() - 1;
        let before = other_names_go(rest, others);
        let below = |k: int| !others.contains(rest[k]);
        assert(are_all_wanted(before, rest.len() as int, below));
        let places = if others.contains(names.last()) {
            before
        } else {
            before.push(last)
        };
        assert forall|i: int| 0 <= i < places.len() implies 0 <= #[trigger] places[i] < names.len()
            && wanted(places[i]) by {
            if i < before.len() {
                assert(below(before[i]));
                assert(rest[before[i]] == names[before[i]]);
            }
        }
        assert forall|k: int| 0 <= k < names.len() && #[trigger] wanted(k) implies places.contains(
            k,
        ) by {
            if k < last {
                assert(rest[k] == names[k]);
                assert(below(k));
                let m = choose|m: int| 0 <= m < before.len() && before[m] == k;
                assert(places[m] == k);
            } else {
                assert(places[places.len() - 1] == k);
            }
        }
        assert forall|i: int| 0 <= i < places.len() implies #[trigger] kept[i]
            == names[places[i]] by {
            if i < before.len() {
                assert(names_without(rest, others)[i] == rest[before[i]]);
            }
        }
        assert(are_all_wanted(places, names.len() as int, wanted));
        places
    }
}

} // verus!
