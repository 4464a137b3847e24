//! What holds of the states of a plot, and of its series.
use vstd::prelude::*;

verus! {

use crate::cells::{at_most, equals};
use crate::csv_key_diff::CsvModel;
use crate::csv_label_split::{sorted_labels, sorted_labels_are_sorted};
use crate::csv_plot::{label_series, LabeledModel};
use crate::plot_states::{
    bits_of, definitions_in, definitions_upto, end_of, is_one_bit, known_bits, later, mask_at,
    masks_upto, merged, pairs, stretches_upto, track_of, tracks_of, with_label, DefinitionModel,
    Stretch,
};
use crate::points::{in_order, sorted, sorted_is_sorted};

proof fn definitions_upto_differ(
    rows: Seq<Seq<Seq<char>>>,
    bit_index: int,
    label_index: int,
    color_index: Option<int>,
    count: int,
)
    requires
        0 <= count,
    ensures
        definitions_upto(rows, bit_index, label_index, color_index, count) matches Ok(
            definitions,
        ) ==> {
            &&& definitions.len() == count
            &&& forall|i: int|
                0 <= i < count ==> is_one_bit((#[trigger] definitions[i]).bit)
                    && definitions[i].label.len() > 0
            &&& forall|i: int, j: int|
                0 <= i < j < count ==> (#[trigger] definitions[i]).bit != (
                #[trigger] definitions[j]).bit
        },
    decreases count,
{
    if count > 0 {
        definitions_upto_differ(rows, bit_index, label_index, color_index, count - 1);
        match definitions_upto(rows, bit_index, label_index, color_index, count) {
            Ok(definitions) => {
                let before = definitions_upto(
                    rows,
                    bit_index,
                    label_index,
                    color_index,
                    count - 1,
                )->Ok_0;
                assert forall|i: int, j: int| 0 <= i < j < count implies (
                #[trigger] definitions[i]).bit != (#[trigger] definitions[j]).bit by {
                    if j == count - 1 {
                        assert(bits_of(before)[i] == before[i].bit);
                        assert(definitions[i] == before[i]);
                    } else {
                        assert(before[i].bit != before[j].bit);
                    }
                }
            },
            Err(_) => {},
        }
    }
}

/// A table defines one to three states; each has a name and one bit, which no other has.
pub proof fn states_have_bits_of_their_own(csv: CsvModel)
    ensures
        definitions_in(csv) matches Ok(definitions) ==> {
            &&& 1 <= definitions.len() <= 3
            &&& forall|i: int|
                0 <= i < definitions.len() ==> is_one_bit((#[trigger] definitions[i]).bit)
                    && definitions[i].label.len() > 0
            &&& forall|i: int, j: int|
                0 <= i < j < definitions.len() ==> (#[trigger] definitions[i]).bit != (
                #[trigger] definitions[j]).bit
        },
{
    match definitions_in(csv) {
        Ok(_) => {
            definitions_upto_differ(
                csv.rows,
                crate::text::first_place(csv.headers, "bit"@),
                crate::text::first_place(csv.headers, "label"@),
                crate::plot_states::place_in(csv.headers, "color"@),
                csv.rows.len() as int,
            );
        },
        Err(_) => {},
    }
}

proof fn masks_are_known(
    rows: Seq<Seq<Seq<char>>>,
    index: int,
    column: Seq<char>,
    known: u64,
    count: int,
    i: int,
)
    requires
        0 <= i < count,
    ensures
        masks_upto(rows, index, column, known, count) matches Ok(masks) ==> masks.len() == count
            && masks[i] & !known == 0,
    decreases count,
{
    reveal_with_fuel(masks_upto, 2);
    if count - 1 > 0 && i < count - 1 {
        masks_are_known(rows, index, column, known, count - 1, i);
    } else if count - 1 > 0 {
        masks_are_known(rows, index, column, known, count - 1, 0);
    }
}

proof fn known_bit_is_defined(definitions: Seq<DefinitionModel>, k: u64) -> (place: int)
    requires
        k < 64,
        known_bits(definitions) & (1u64 << k) != 0,
        forall|i: int| 0 <= i < definitions.len() ==> is_one_bit((#[trigger] definitions[i]).bit),
    ensures
        0 <= place < definitions.len(),
        definitions[place].bit == 1u64 << k,
    decreases definitions.len(),
{
    let wanted = 1u64 << k;
    if definitions.len() == 0 {
        assert(0u64 & wanted == 0) by (bit_vector);
        0
    } else {
        let before = known_bits(definitions.drop_last());
        let own = definitions.last().bit;
        assert((before | own) & wanted != 0 ==> before & wanted != 0 || own & wanted != 0)
            by (bit_vector);
        if before & wanted != 0 {
            assert forall|i: int| 0 <= i < definitions.drop_last().len() implies is_one_bit(
                (#[trigger] definitions.drop_last()[i]).bit,
            ) by {
                assert(is_one_bit(definitions[i].bit));
            }
            known_bit_is_defined(definitions.drop_last(), k)
        } else {
            let place = definitions.len() - 1;
            assert(is_one_bit(definitions[place].bit));
            let j = choose|j: u64| j < 64 && own == #[trigger] (1u64 << j);
            assert((1u64 << j) & (1u64 << k) != 0 ==> j == k) by (bit_vector)
                requires
                    j < 64,
                    k < 64,
            ;
            place
        }
    }
}

/// Each bit of a mask that is accepted is that of a state.
pub proof fn accepted_bits_are_defined(
    csv: CsvModel,
    rows: Seq<Seq<Seq<char>>>,
    index: int,
    column: Seq<char>,
    i: int,
    k: u64,
)
    requires
        k < 64,
        0 <= i < rows.len(),
        definitions_in(csv) is Ok,
        masks_upto(
            rows,
            index,
            column,
            known_bits(definitions_in(csv)->Ok_0),
            rows.len() as int,
        ) matches Ok(masks) && masks[i] & (1u64 << k) != 0,
    ensures
        exists|d: int|
            0 <= d < definitions_in(csv)->Ok_0.len() && (
            #[trigger] definitions_in(csv)->Ok_0[d]).bit == 1u64 << k,
{
    let definitions = definitions_in(csv)->Ok_0;
    let known = known_bits(definitions);
    masks_are_known(rows, index, column, known, rows.len() as int, i);
    states_have_bits_of_their_own(csv);
    let mask = masks_upto(rows, index, column, known, rows.len() as int)->Ok_0[i];
    let wanted = 1u64 << k;
    assert(mask & !known == 0 && mask & wanted != 0 ==> known & wanted != 0) by (bit_vector);
    let d = known_bit_is_defined(definitions, k);
    assert(definitions[d].bit == 1u64 << k);
}

/// The masks of the points at a place, combined.
pub open spec fn combined_at(points: Seq<(i64, u64)>, place: i64) -> u64
    decreases points.len(),
{
    if points.len() == 0 {
        0
    } else if equals(points.last().0, place) {
        combined_at(points.drop_last(), place) | points.last().1
    } else {
        combined_at(points.drop_last(), place)
    }
}

/// The place of the last point that does not lie behind the given one, if there is any.
pub open spec fn latest(points: Seq<(i64, u64)>, place: i64) -> Option<i64>
    decreases points.len(),
{
    if points.len() == 0 {
        None
    } else if at_most(points.last().0, place) {
        Some(points.last().0)
    } else {
        latest(points.drop_last(), place)
    }
}

proof fn combined_at_equal_places(points: Seq<(i64, u64)>, left: i64, right: i64)
    requires
        equals(left, right),
    ensures
        combined_at(points, left) == combined_at(points, right),
    decreases points.len(),
{
    if points.len() > 0 {
        combined_at_equal_places(points.drop_last(), left, right);
    }
}

proof fn nothing_combined(points: Seq<(i64, u64)>, place: i64)
    requires
        forall|i: int| 0 <= i < points.len() ==> !equals((#[trigger] points[i]).0, place),
    ensures
        combined_at(points, place) == 0,
    decreases points.len(),
{
    if points.len() > 0 {
        assert(points.last() == points[points.len() - 1]);
        assert forall|i: int| 0 <= i < points.drop_last().len() implies !equals(
            (#[trigger] points.drop_last()[i]).0,
            place,
        ) by {
            assert(!equals(points[i].0, place));
        }
        nothing_combined(points.drop_last(), place);
    }
}

proof fn front_in_order<T>(points: Seq<(i64, T)>)
    requires
        points.len() > 0,
        in_order(points),
    ensures
        in_order(points.drop_last()),
        forall|i: int| 0 <= i < points.len() ==> (#[trigger] points[i]).0 <= points.last().0,
{
    let front = points.drop_last();
    assert forall|i: int, j: int| 0 <= i < j < front.len() implies (#[trigger] front[i]).0 <= (
    #[trigger] front[j]).0 by {
        assert(points[i].0 <= points[j].0);
    }
    assert forall|i: int| 0 <= i < points.len() implies (#[trigger] points[i]).0
        <= points.last().0 by {
        if i < points.len() - 1 {
            assert(points[i].0 <= points[points.len() - 1].0);
        }
    }
}

proof fn last_of_merged(points: Seq<(i64, u64)>)
    requires
        points.len() > 0,
        in_order(points),
    ensures
        merged(points).len() > 0,
        equals(merged(points).last().0, points.last().0),
        merged(points).last().1 == combined_at(points, points.last().0),
    decreases points.len(),
{
    let rest = points.drop_last();
    let (x, mask) = points.last();
    front_in_order(points);
    assert(0u64 | mask == mask) by (bit_vector);
    if rest.len() > 0 {
        last_of_merged(rest);
        if equals(merged(rest).last().0, x) {
            combined_at_equal_places(rest, rest.last().0, x);
        } else {
            front_in_order(rest);
            assert forall|i: int| 0 <= i < rest.len() implies !equals(
                (#[trigger] rest[i]).0,
                x,
            ) by {
                assert(rest[i].0 <= rest.last().0);
                assert(points[points.len() - 2] == rest.last());
                assert(points[points.len() - 2].0 <= x);
            }
            nothing_combined(rest, x);
        }
    } else {
        assert(merged(rest) == rest);
        assert(combined_at(rest, x) == 0);
    }
    assert(equals(x, x));
    assert(combined_at(points, x) == combined_at(rest, x) | mask);
}

proof fn latest_does_not_lie_behind(points: Seq<(i64, u64)>, place: i64)
    ensures
        latest(points, place) matches Some(x) ==> at_most(x, place),
    decreases points.len(),
{
    if points.len() > 0 {
        latest_does_not_lie_behind(points.drop_last(), place);
    }
}

proof fn mask_of_merged(points: Seq<(i64, u64)>, place: i64)
    requires
        in_order(points),
    ensures
        mask_at(merged(points), place) == match latest(points, place) {
            Some(x) => combined_at(points, x),
            None => 0,
        },
    decreases points.len(),
{
    if points.len() > 0 {
        let rest = points.drop_last();
        let (x, mask) = points.last();
        let before = merged(rest);
        let after = merged(points);
        last_of_merged(points);
        front_in_order(points);
        mask_of_merged(rest, place);
        if !at_most(x, place) {
            latest_does_not_lie_behind(rest, place);
            if before.len() > 0 && equals(before.last().0, x) {
                assert(after.drop_last() == before.drop_last());
            } else {
                assert(after.drop_last() == before);
            }
        }
    }
}

/// The mask that a track shows at a place is that of the rows at the latest place that does not
/// lie behind it, combined; rows at the same place all count.
pub proof fn track_shows_the_latest_rows(
    label: Option<Seq<char>>,
    points: Seq<(i64, u64)>,
    place: i64,
)
    ensures
        mask_at(track_of(label, points).points, place) == match latest(sorted(points), place) {
            Some(x) => combined_at(sorted(points), x),
            None => 0,
        },
{
    sorted_is_sorted(points);
    mask_of_merged(sorted(points), place);
}

/// Whether each point lies behind those before it.
pub open spec fn advancing(points: Seq<(i64, u64)>) -> bool {
    forall|i: int, j: int|
        0 <= i < j < points.len() ==> !at_most((#[trigger] points[j]).0, (#[trigger] points[i]).0)
}

proof fn merged_advances(points: Seq<(i64, u64)>)
    requires
        in_order(points),
    ensures
        advancing(merged(points)),
    decreases points.len(),
{
    if points.len() > 0 {
        let rest = points.drop_last();
        let (x, mask) = points.last();
        let before = merged(rest);
        let after = merged(points);
        front_in_order(points);
        merged_advances(rest);
        if rest.len() > 0 {
            last_of_merged(rest);
            assert(points[points.len() - 2] == rest.last());
            assert(rest.last().0 <= x);
        }
        assert forall|i: int, j: int| 0 <= i < j < after.len() implies !at_most(
            (#[trigger] after[j]).0,
            (#[trigger] after[i]).0,
        ) by {
            if before.len() > 0 && equals(before.last().0, x) {
                assert(after[i].0 == before[i].0 && after[j].0 == before[j].0);
            } else {
                assert(after[i] == before[i]);
                if j < before.len() {
                    assert(after[j] == before[j]);
                } else {
                    assert(before.last() == before[before.len() - 1]);
                    if i < before.len() - 1 {
                        assert(!at_most(before[before.len() - 1].0, before[i].0));
                    }
                }
            }
        }
    }
}

/// Whether the point at a place of the list is the one that holds at `place`, and has the bit.
pub open spec fn shows(points: Seq<(i64, u64)>, bit: u64, place: i64, i: int) -> bool {
    &&& points[i].1 & bit != 0
    &&& at_most(points[i].0, place)
    &&& i + 1 < points.len() ==> !at_most(points[i + 1].0, place)
}

/// Whether a stretch covers the place.
pub open spec fn covers(stretch: Stretch, place: i64) -> bool {
    at_most(stretch.from, place) && !at_most(stretch.to, place)
}

proof fn covered_upto(
    lane: usize,
    points: Seq<(i64, u64)>,
    bit: u64,
    bounds: (i64, i64),
    place: i64,
    count: int,
)
    requires
        0 <= count <= points.len(),
        at_most(bounds.0, place),
        !at_most(bounds.1, place),
    ensures
        (exists|s: int|
            0 <= s < stretches_upto(lane, points, bit, bounds, count).len() && covers(
                #[trigger] stretches_upto(lane, points, bit, bounds, count)[s],
                place,
            )) <==> (exists|i: int| 0 <= i < count && #[trigger] shows(points, bit, place, i)),
    decreases count,
{
    if count > 0 {
        covered_upto(lane, points, bit, bounds, place, count - 1);
        let before = stretches_upto(lane, points, bit, bounds, count - 1);
        let after = stretches_upto(lane, points, bit, bounds, count);
        let own = Stretch {
            lane,
            from: later(points[count - 1].0, bounds.0),
            to: end_of(points, count - 1, bounds),
        };
        assert(points[count - 1].1 & bit != 0 && covers(own, place) <==> shows(
            points,
            bit,
            place,
            count - 1,
        ));
        if exists|s: int| 0 <= s < after.len() && covers(#[trigger] after[s], place) {
            let s = choose|s: int| 0 <= s < after.len() && covers(#[trigger] after[s], place);
            if s < before.len() {
                assert(covers(before[s], place));
                let i = choose|i: int|
                    0 <= i < count - 1 && #[trigger] shows(points, bit, place, i);
                assert(shows(points, bit, place, i));
            } else {
                assert(after[s] == own);
                assert(shows(points, bit, place, count - 1));
            }
        }
        if exists|i: int| 0 <= i < count && #[trigger] shows(points, bit, place, i) {
            let i = choose|i: int| 0 <= i < count && #[trigger] shows(points, bit, place, i);
            if i < count - 1 {
                let s = choose|s: int| 0 <= s < before.len() && covers(#[trigger] before[s], place);
                assert(covers(after[s], place));
            } else {
                assert(after == before.push(own));
                assert(covers(after[before.len() as int], place));
            }
        }
    }
}

proof fn mask_is_of_the_shown_point(points: Seq<(i64, u64)>, bit: u64, place: i64)
    requires
        advancing(points),
    ensures
        mask_at(points, place) & bit != 0 <==> exists|i: int|
            0 <= i < points.len() && #[trigger] shows(points, bit, place, i),
    decreases points.len(),
{
    if points.len() == 0 {
        assert(0u64 & bit == 0) by (bit_vector);
    } else {
        let end = points.len() - 1;
        assert(points.last() == points[end]);
        if at_most(points.last().0, place) {
            assert forall|i: int| 0 <= i < points.len() && #[trigger] shows(
                points,
                bit,
                place,
                i,
            ) implies i == end by {
                if i < end {
                    if i + 1 < end {
                        assert(!at_most(points[end].0, points[i + 1].0));
                    }
                }
            }
            if points[end].1 & bit != 0 {
                assert(shows(points, bit, place, end));
            }
        } else {
            let rest = points.drop_last();
            assert forall|i: int, j: int| 0 <= i < j < rest.len() implies !at_most(
                (#[trigger] rest[j]).0,
                (#[trigger] rest[i]).0,
            ) by {
                assert(!at_most(points[j].0, points[i].0));
            }
            mask_is_of_the_shown_point(rest, bit, place);
            assert forall|i: int| 0 <= i < rest.len() implies #[trigger] shows(
                rest,
                bit,
                place,
                i,
            ) == shows(points, bit, place, i) by {
                assert(rest[i] == points[i]);
            }
            if exists|i: int| 0 <= i < rest.len() && #[trigger] shows(rest, bit, place, i) {
                let i = choose|i: int| 0 <= i < rest.len() && #[trigger] shows(rest, bit, place, i);
                assert(shows(points, bit, place, i));
            }
            if exists|i: int| 0 <= i < points.len() && #[trigger] shows(points, bit, place, i) {
                let i = choose|i: int|
                    0 <= i < points.len() && #[trigger] shows(points, bit, place, i);
                assert(shows(rest, bit, place, i));
            }
        }
    }
}

/// A place of the plot is covered by a stretch of a lane if and only if the bit of the lane's
/// state is set in the mask that holds there. So several states are shown at once where several
/// bits are set.
pub proof fn stretches_cover_where_the_state_holds(
    lane: usize,
    label: Option<Seq<char>>,
    points: Seq<(i64, u64)>,
    bit: u64,
    bounds: (i64, i64),
    place: i64,
)
    requires
        at_most(bounds.0, place),
        !at_most(bounds.1, place),
    ensures
        ({
            let shown = track_of(label, points).points;
            let stretches = stretches_upto(lane, shown, bit, bounds, shown.len() as int);
            (exists|s: int|
                0 <= s < stretches.len() && covers(#[trigger] stretches[s], place)) <==> mask_at(
                shown,
                place,
            ) & bit != 0
        }),
{
    let shown = track_of(label, points).points;
    sorted_is_sorted(points);
    merged_advances(sorted(points));
    covered_upto(lane, shown, bit, bounds, place, shown.len() as int);
    mask_is_of_the_shown_point(shown, bit, place);
}

/// Each label has one track, and it is that of the rows with the label alone.
pub proof fn each_label_has_its_own_track(
    points: Seq<(i64, u64)>,
    labels: Seq<Seq<char>>,
    label: Seq<char>,
)
    requires
        labels.contains(label),
    ensures
        ({
            let tracks = tracks_of(points, Some(labels));
            &&& exists|i: int|
                0 <= i < tracks.len() && #[trigger] tracks[i] == track_of(
                    Some(label),
                    with_label(points, labels, label),
                )
            &&& forall|i: int, j: int|
                0 <= i < j < tracks.len() ==> (#[trigger] tracks[i]).label != (
                #[trigger] tracks[j]).label
        }),
{
    let tracks = tracks_of(points, Some(labels));
    let names = sorted_labels(labels);
    sorted_labels_are_sorted(labels);
    assert(names.contains(label));
    let i = choose|i: int| 0 <= i < names.len() && names[i] == label;
    assert(tracks[i] == track_of(Some(label), with_label(points, labels, label)));
    assert forall|i: int, j: int| 0 <= i < j < tracks.len() implies (#[trigger] tracks[i]).label
        != (#[trigger] tracks[j]).label by {
        assert(crate::ordering::text_before(names[i], names[j]));
        crate::ordering::text_before_irreflexive(names[i]);
    }
}

/// Each label has one series, and it is that of the rows with the label alone.
pub proof fn each_label_has_its_own_series(data: LabeledModel, label: Seq<char>)
    requires
        data.labels.contains(label),
    ensures
        exists|i: int|
            0 <= i < label_series(data).len() && (#[trigger] label_series(data)[i]).name == label
                && label_series(data)[i].points == with_label(
                pairs(data.times, data.values),
                data.labels,
                label,
            ),
        forall|i: int, j: int|
            0 <= i < j < label_series(data).len() ==> (#[trigger] label_series(data)[i]).name != (
            #[trigger] label_series(data)[j]).name,
{
    let series = label_series(data);
    let names = sorted_labels(data.labels);
    sorted_labels_are_sorted(data.labels);
    assert(names.contains(label));
    let i = choose|i: int| 0 <= i < names.len() && names[i] == label;
    assert(series[i].name == label);
    assert forall|i: int, j: int| 0 <= i < j < series.len() implies (#[trigger] series[i]).name
        != (#[trigger] series[j]).name by {
        assert(crate::ordering::text_before(names[i], names[j]));
        crate::ordering::text_before_irreflexive(names[i]);
    }
}

} // verus!
