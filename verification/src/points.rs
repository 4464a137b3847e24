//! Points on a line, and which of them are drawn.
use vstd::prelude::*;

use crate::cells::{is_at_most, is_equal};

verus! {

use crate::cells::{at_most, equals};

/// The list with the item behind all items that do not come after it.
pub open spec fn placed<T>(list: Seq<(i64, T)>, item: (i64, T)) -> Seq<(i64, T)>
    decreases list.len(),
{
    if list.len() == 0 || list.last().0 <= item.0 {
        list.push(item)
    } else {
        placed(list.drop_last(), item).push(list.last())
    }
}

/// The items in order; those at the same place keep their order.
pub open spec fn sorted<T>(list: Seq<(i64, T)>) -> Seq<(i64, T)>
    decreases list.len(),
{
    if list.len() == 0 {
        list
    } else {
        placed(sorted(list.drop_last()), list.last())
    }
}

/// No item comes before the one that it follows.
pub open spec fn in_order<T>(list: Seq<(i64, T)>) -> bool {
    forall|i: int, j: int|
        0 <= i < j < list.len() ==> (#[trigger] list[i]).0 <= (#[trigger] list[j]).0
}

/// What stands at a place, one after the other.
pub open spec fn all_at<T>(list: Seq<(i64, T)>, place: i64) -> Seq<T>
    decreases list.len(),
{
    if list.len() == 0 {
        Seq::empty()
    } else {
        let before = all_at(list.drop_last(), place);
        if list.last().0 == place {
            before.push(list.last().1)
        } else {
            before
        }
    }
}

/// Sorting puts the items in order, keeps all of them, and keeps the order of those at the same
/// place.
pub proof fn sorted_is_sorted<T>(list: Seq<(i64, T)>)
    ensures
        in_order(sorted(list)),
        sorted(list).len() == list.len(),
        forall|place: i64| #[trigger] all_at(sorted(list), place) == all_at(list, place),
    decreases list.len(),
{
    if list.len() > 0 {
        let rest = sorted(list.drop_last());
        sorted_is_sorted(list.drop_last());
        placed_keeps_order(rest, list.last());
        assert forall|place: i64| #[trigger] all_at(sorted(list), place) == all_at(
            list,
            place,
        ) by {
            assert(all_at(rest, place) == all_at(list.drop_last(), place));
            placed_adds(rest, list.last(), place);
        }
    }
}

proof fn placed_keeps_order<T>(list: Seq<(i64, T)>, item: (i64, T))
    requires
        in_order(list),
    ensures
        in_order(placed(list, item)),
        placed(list, item).len() == list.len() + 1,
        forall|i: int|
            0 <= i <= list.len() ==> (#[trigger] placed(list, item)[i]).0 <= item.0 || (list.len()
                > 0 && placed(list, item)[i].0 <= list.last().0),
    decreases list.len(),
{
    let result = placed(list, item);
    if list.len() == 0 {
    } else if list.last().0 <= item.0 {
        assert forall|i: int, j: int| 0 <= i < j < result.len() implies (#[trigger] result[i]).0
            <= (#[trigger] result[j]).0 by {
            assert(list[i].0 <= list[list.len() - 1].0);
            if j < list.len() {
                assert(list[i].0 <= list[j].0);
            }
        }
    } else {
        let rest = list.drop_last();
        assert forall|i: int, j: int| 0 <= i < j < rest.len() implies (#[trigger] rest[i]).0
            <= (#[trigger] rest[j]).0 by {
            assert(list[i].0 <= list[j].0);
        }
        placed_keeps_order(rest, item);
        let before = placed(rest, item);
        if rest.len() > 0 {
            assert(list[rest.len() - 1].0 <= list[list.len() - 1].0);
        }
        assert forall|i: int, j: int| 0 <= i < j < result.len() implies (#[trigger] result[i]).0
            <= (#[trigger] result[j]).0 by {
            assert(before[i].0 <= item.0 || (rest.len() > 0 && before[i].0 <= rest.last().0));
            if j < before.len() {
                assert(before[i].0 <= before[j].0);
            }
        }
    }
}

proof fn placed_adds<T>(list: Seq<(i64, T)>, item: (i64, T), place: i64)
    requires
        in_order(list),
    ensures
        all_at(placed(list, item), place) == if item.0 == place {
            all_at(list, place).push(item.1)
        } else {
            all_at(list, place)
        },
    decreases list.len(),
{
    if list.len() == 0 || list.last().0 <= item.0 {
        assert(list.push(item).drop_last() == list);
    } else {
        let rest = list.drop_last();
        assert forall|i: int, j: int| 0 <= i < j < rest.len() implies (#[trigger] rest[i]).0
            <= (#[trigger] rest[j]).0 by {
            assert(list[i].0 <= list[j].0);
        }
        placed_adds(rest, item, place);
        assert(placed(rest, item).push(list.last()).drop_last() == placed(rest, item));
    }
}

proof fn placed_at<T>(list: Seq<(i64, T)>, item: (i64, T), place: int)
    requires
        0 <= place <= list.len(),
        forall|k: int| place <= k < list.len() ==> (#[trigger] list[k]).0 > item.0,
        place > 0 ==> list[place - 1].0 <= item.0,
    ensures
        placed(list, item) == list.insert(place, item),
    decreases list.len(),
{
    if place < list.len() {
        let rest = list.drop_last();
        assert(list[list.len() - 1].0 > item.0);
        placed_at(rest, item, place);
        assert(rest.insert(place, item).push(list.last()) == list.insert(place, item));
    } else {
        assert(list.insert(place, item) == list.push(item));
    }
}

fn place_for<T>(list: &Vec<(i64, T)>, key: i64) -> (place: usize)
    requires
        in_order(list@),
    ensures
        place <= list@.len(),
        forall|k: int| place <= k < list@.len() ==> (#[trigger] list@[k]).0 > key,
        place > 0 ==> list@[place - 1].0 <= key,
{
    if list.len() == 0 || list[list.len() - 1].0 <= key {
        return list.len();
    }
    let mut low: usize = 0;
    let mut high: usize = list.len();
    while low < high
        invariant
            in_order(list@),
            low <= high <= list@.len(),
            forall|k: int| high <= k < list@.len() ==> (#[trigger] list@[k]).0 > key,
            low > 0 ==> list@[low - 1].0 <= key,
        decreases high - low,
    {
        let middle: usize = low + (high - low) / 2;
        if list[middle].0 <= key {
            low = middle + 1;
        } else {
            assert forall|k: int| middle <= k < list@.len() implies (#[trigger] list@[k]).0
                > key by {
                if k > middle {
                    assert(list@[middle as int].0 <= list@[k].0);
                }
            }
            high = middle;
        }
    }
    low
}

/// The items in order; those at the same place keep their order.
pub fn sort_pairs<T: Copy>(list: &Vec<(i64, T)>) -> (result: Vec<(i64, T)>)
    ensures
        result@ == sorted(list@),
{
    let mut result: Vec<(i64, T)> = Vec::new();
    assert(list@.take(0) == Seq::<(i64, T)>::empty());
    for i in 0..list.len()
        invariant
            result@ == sorted(list@.take(i as int)),
    {
        let item = list[i];
        proof {
            sorted_is_sorted(list@.take(i as int));
        }
        let place = place_for(&result, item.0);
        proof {
            placed_at(result@, item, place as int);
            assert(list@.take(i + 1).drop_last() == list@.take(i as int));
        }
        result.insert(place, item);
    }
    assert(list@.take(list@.len() as int) == list@);
    result
}

/// The lowest of the values.
pub open spec fn lowest(values: Seq<i64>) -> i64
    decreases values.len(),
{
    if values.len() <= 1 {
        values[0]
    } else {
        let before = lowest(values.drop_last());
        if values.last() < before {
            values.last()
        } else {
            before
        }
    }
}

/// The highest of the values.
pub open spec fn highest(values: Seq<i64>) -> i64
    decreases values.len(),
{
    if values.len() <= 1 {
        values[0]
    } else {
        let before = highest(values.drop_last());
        if values.last() > before {
            values.last()
        } else {
            before
        }
    }
}

/// The lowest and the highest are among the values, which all lie between them.
pub proof fn all_between_lowest_and_highest(values: Seq<i64>)
    requires
        values.len() > 0,
    ensures
        values.contains(lowest(values)),
        values.contains(highest(values)),
        forall|i: int|
            0 <= i < values.len() ==> lowest(values) <= #[trigger] values[i] <= highest(values),
    decreases values.len(),
{
    if values.len() == 1 {
        assert(values[0] == lowest(values));
    } else {
        let rest = values.drop_last();
        all_between_lowest_and_highest(rest);
        let low = choose|k: int| 0 <= k < rest.len() && rest[k] == lowest(rest);
        let high = choose|k: int| 0 <= k < rest.len() && rest[k] == highest(rest);
        assert(values[low] == lowest(rest) && values[high] == highest(rest));
        assert(values[values.len() - 1] == values.last());
        assert forall|i: int| 0 <= i < values.len() implies lowest(values) <= #[trigger] values[i]
            <= highest(values) by {
            if i < rest.len() {
                assert(rest[i] == values[i]);
            }
        }
    }
}

/// The lowest and the highest of the values.
pub fn range_of(values: &Vec<i64>) -> (range: (i64, i64))
    requires
        values@.len() > 0,
    ensures
        range == (lowest(values@), highest(values@)),
{
    let mut low = values[0];
    let mut high = values[0];
    assert(values@.take(1)[0] == values@[0]);
    for i in 1..values.len()
        invariant
            low == lowest(values@.take(i as int)),
            high == highest(values@.take(i as int)),
    {
        assert(values@.take(i + 1).drop_last() == values@.take(i as int));
        if values[i] < low {
            low = values[i];
        }
        if values[i] > high {
            high = values[i];
        }
    }
    assert(values@.take(values@.len() as int) == values@);
    (low, high)
}

/// How much of a chart's width is no room for points.
pub const HORIZONTAL_MARGIN: u16 = 12;

/// Whether a place lies between two others, them included.
pub open spec fn in_view(place: i64, bounds: (i64, i64)) -> bool {
    at_most(bounds.0, place) && at_most(place, bounds.1)
}

/// The points between the bounds.
pub open spec fn points_in_view(points: Seq<(i64, i64)>, bounds: (i64, i64)) -> Seq<(i64, i64)>
    decreases points.len(),
{
    if points.len() == 0 {
        points
    } else {
        let before = points_in_view(points.drop_last(), bounds);
        if in_view(points.last().0, bounds) {
            before.push(points.last())
        } else {
            before
        }
    }
}

/// How many points a chart of that width has room for.
pub open spec fn room_for_points(chart_width: int) -> int {
    if chart_width - HORIZONTAL_MARGIN < 2 {
        2
    } else {
        chart_width - HORIZONTAL_MARGIN
    }
}

/// The quotient, rounded up.
pub open spec fn divided_up(number: int, by: int) -> int {
    (number + by - 1) / by
}

/// Whether the points are the same.
pub open spec fn same_point(left: (i64, i64), right: (i64, i64)) -> bool {
    equals(left.0, right.0) && equals(left.1, right.1)
}

/// Every `step`th point.
pub open spec fn every(points: Seq<(i64, i64)>, step: int) -> Seq<(i64, i64)> {
    Seq::new(divided_up(points.len() as int, step) as nat, |i: int| points[i * step])
}

/// The points that are drawn where there is room for so many: all of them, if there is room for
/// them, and else points at even distances, the last one among them.
pub open spec fn sampled(points: Seq<(i64, i64)>, room: int) -> Seq<(i64, i64)> {
    if points.len() <= 2 || points.len() <= room {
        points
    } else {
        let chosen = every(points, divided_up(points.len() as int, room));
        if same_point(chosen.last(), points.last()) {
            chosen
        } else {
            chosen.push(points.last())
        }
    }
}

fn take_in_view(points: &Vec<(i64, i64)>, bounds: (i64, i64)) -> (taken: Vec<(i64, i64)>)
    ensures
        taken@ == points_in_view(points@, bounds),
{
    let mut taken: Vec<(i64, i64)> = Vec::new();
    assert(points@.take(0) == Seq::<(i64, i64)>::empty());
    for i in 0..points.len()
        invariant
            taken@ == points_in_view(points@.take(i as int), bounds),
    {
        assert(points@.take(i + 1).drop_last() == points@.take(i as int));
        let point = points[i];
        if is_at_most(bounds.0, point.0) && is_at_most(point.0, bounds.1) {
            taken.push(point);
        }
    }
    assert(points@.take(points@.len() as int) == points@);
    taken
}

proof fn steps_fit(count: int, step: int, i: int)
    requires
        0 < step,
        0 <= i < divided_up(count, step),
    ensures
        0 <= i * step < count,
{
    assert(0 <= i * step < count) by (nonlinear_arith)
        requires
            0 < step,
            0 <= i < (count + step - 1) / step,
    ;
}

proof fn next_step_is_out(count: int, step: int, i: int)
    requires
        0 < step,
        0 <= i,
        i * step >= count,
        count > 0,
    ensures
        i >= divided_up(count, step),
{
    assert(i >= (count + step - 1) / step) by (nonlinear_arith)
        requires
            0 < step,
            i * step >= count,
    ;
}

fn sample(points: &Vec<(i64, i64)>, room: usize) -> (result: Vec<(i64, i64)>)
    requires
        room >= 2,
    ensures
        result@ == sampled(points@, room as int),
{
    let count = points.len();
    if count <= 2 || count <= room {
        let mut all: Vec<(i64, i64)> = Vec::new();
        for i in 0..count
            invariant
                count == points@.len(),
                all@ == points@.take(i as int),
        {
            all.push(points[i]);
            assert(points@.take(i + 1) == points@.take(i as int).push(points@[i as int]));
        }
        assert(points@.take(count as int) == points@);
        return all;
    }
    assert(count as int / room as int <= count - 1) by (nonlinear_arith)
        requires
            room >= 2,
            count > 0,
    ;
    let step: usize = if count % room == 0 {
        count / room
    } else {
        count / room + 1
    };
    proof {
        assert(step == divided_up(count as int, room as int)) by (nonlinear_arith)
            requires
                room >= 2,
                step == if count % room == 0 {
                    count as int / room as int
                } else {
                    count as int / room as int + 1
                },
        ;
        assert(1 <= step <= count) by (nonlinear_arith)
            requires
                room >= 2,
                count > room,
                step == if count % room == 0 {
                    count as int / room as int
                } else {
                    count as int / room as int + 1
                },
        ;
    }
    let mut chosen: Vec<(i64, i64)> = Vec::new();
    let mut at: usize = 0;
    let ghost mut number: int = 0;
    let ghost wanted = every(points@, step as int);
    assert(divided_up(count as int, step as int) >= 1) by (nonlinear_arith)
        requires
            1 <= step <= count,
    ;
    loop
        invariant_except_break
            at < count,
            at == number * step,
            0 <= number < wanted.len(),
            chosen@ == wanted.take(number),
        invariant
            count == points@.len(),
            1 <= step <= count,
            wanted == every(points@, step as int),
            wanted.len() >= 1,
        ensures
            chosen@ == wanted,
        decreases count - at,
    {
        chosen.push(points[at]);
        assert(wanted.take(number + 1) == wanted.take(number).push(points@[at as int]));
        assert((number + 1) * step == number * step + step) by (nonlinear_arith);
        if count - at <= step {
            proof {
                next_step_is_out(count as int, step as int, number + 1);
                assert(wanted.take(number + 1) == wanted);
            }
            break;
        }
        proof {
            assert(number + 1 < divided_up(count as int, step as int)) by (nonlinear_arith)
                requires
                    0 < step,
                    (number + 1) * step < count,
            ;
            number = number + 1;
        }
        at = at + step;
    }
    let last = points[count - 1];
    let end = chosen[chosen.len() - 1];
    if !(is_equal(end.0, last.0) && is_equal(end.1, last.1)) {
        chosen.push(last);
    }
    chosen
}

/// The points between the bounds that are drawn on a chart of that width.
pub fn visible_points(
    points: &Vec<(i64, i64)>,
    bounds: (i64, i64),
    chart_width: u16,
) -> (visible: Vec<(i64, i64)>)
    ensures
        visible@ == sampled(points_in_view(points@, bounds), room_for_points(chart_width as int)),
{
    let taken = take_in_view(points, bounds);
    let room: usize = if chart_width < HORIZONTAL_MARGIN + 2 {
        2
    } else {
        (chart_width - HORIZONTAL_MARGIN) as usize
    };
    sample(&taken, room)
}

/// What is drawn has the first and the last of the points, and only points that are there.
pub proof fn ends_are_drawn(points: Seq<(i64, i64)>, room: int)
    requires
        points.len() > 0,
        room >= 2,
    ensures
        sampled(points, room).len() > 0,
        sampled(points, room)[0] == points[0],
        same_point(sampled(points, room).last(), points.last()),
        forall|i: int|
            0 <= i < sampled(points, room).len() ==> points.contains(
                #[trigger] sampled(points, room)[i],
            ),
{
    let count = points.len() as int;
    let result = sampled(points, room);
    if count <= 2 || count <= room {
        assert(points.last() == points[count - 1]);
    } else {
        let step = divided_up(count, room);
        assert(1 <= step <= count) by (nonlinear_arith)
            requires
                room >= 2,
                count > room,
                step == (count + room - 1) / room,
        ;
        assert(divided_up(count, step) >= 1) by (nonlinear_arith)
            requires
                1 <= step <= count,
        ;
        let chosen = every(points, step);
        assert(chosen[0] == points[0 * step]);
        assert forall|i: int| 0 <= i < result.len() implies points.contains(
            #[trigger] result[i],
        ) by {
            if i < chosen.len() {
                steps_fit(count, step, i);
                assert(points[i * step] == result[i]);
            } else {
                assert(points[count - 1] == result[i]);
            }
        }
    }
}

/// There are at most one more points than there is room for.
pub proof fn drawn_points_fit(points: Seq<(i64, i64)>, room: int)
    requires
        room >= 2,
    ensures
        sampled(points, room).len() <= room + 1,
{
    let count = points.len() as int;
    if !(count <= 2 || count <= room) {
        let step = divided_up(count, room);
        assert(0 <= divided_up(count, step) <= room) by (nonlinear_arith)
            requires
                room >= 2,
                count > room,
                step == (count + room - 1) / room,
        ;
    }
}

/// What is drawn of a column of pixels: the lowest and the highest value.
#[derive(Debug, Clone, Copy, PartialEq, Eq, Structural)]
pub struct Bar {
    pub column: usize,
    pub lowest: i64,
    pub highest: i64,
}

/// The column of a point: the one that it falls into, but no column behind the last.
pub open spec fn column_of(columns: Seq<usize>, i: int, width: int) -> int {
    if columns[i] < width {
        columns[i] as int
    } else {
        width - 1
    }
}

/// The values of the first `count` points between the bounds that fall into the column.
pub open spec fn values_in_column(
    points: Seq<(i64, i64)>,
    bounds: (i64, i64),
    columns: Seq<usize>,
    width: int,
    column: int,
    count: int,
) -> Seq<i64>
    decreases count,
{
    if count <= 0 {
        Seq::empty()
    } else {
        let before = values_in_column(points, bounds, columns, width, column, count - 1);
        if in_view(points[count - 1].0, bounds) && column_of(columns, count - 1, width) == column {
            before.push(points[count - 1].1)
        } else {
            before
        }
    }
}

/// The bars of the columns before `end`; a column without values has none.
pub open spec fn bars_before(
    points: Seq<(i64, i64)>,
    bounds: (i64, i64),
    columns: Seq<usize>,
    width: int,
    end: int,
) -> Seq<Bar>
    decreases end,
{
    if end <= 0 {
        Seq::empty()
    } else {
        let before = bars_before(points, bounds, columns, width, end - 1);
        let values = values_in_column(
            points,
            bounds,
            columns,
            width,
            end - 1,
            points.len() as int,
        );
        if values.len() == 0 {
            before
        } else {
            before.push(
                Bar {
                    column: (end - 1) as usize,
                    lowest: lowest(values),
                    highest: highest(values),
                },
            )
        }
    }
}

/// What a column of pixels holds of its values.
pub open spec fn bin_of(values: Seq<i64>) -> Option<(i64, i64)> {
    if values.len() == 0 {
        None
    } else {
        Some((lowest(values), highest(values)))
    }
}

/// The lowest and the highest value of each column of pixels, for points that are too many to be
/// drawn one by one. A point falls into the column that `columns` says.
pub fn image_series_envelope(
    points: &Vec<(i64, i64)>,
    bounds: (i64, i64),
    range_is_usable: bool,
    columns: &Vec<usize>,
    pixel_width: u32,
) -> (result: Option<Vec<Bar>>)
    requires
        columns@.len() == points@.len(),
    ensures
        match result {
            None => pixel_width == 0 || points@.len() <= pixel_width || !range_is_usable,
            Some(bars) => pixel_width > 0 && points@.len() > pixel_width && range_is_usable
                && bars@ == bars_before(
                points@,
                bounds,
                columns@,
                pixel_width as int,
                pixel_width as int,
            ),
        },
{
    if pixel_width == 0 || points.len() <= pixel_width as usize || !range_is_usable {
        return None;
    }
    let width = pixel_width as usize;
    let mut bins: Vec<Option<(i64, i64)>> = Vec::new();
    for i in 0..width
        invariant
            bins@.len() == i,
            forall|c: int| 0 <= c < i ==> (#[trigger] bins@[c]) is None,
    {
        bins.push(None);
    }
    for i in 0..points.len()
        invariant
            columns@.len() == points@.len(),
            0 < width,
            bins@.len() == width,
            forall|c: int|
                0 <= c < width ==> #[trigger] bins@[c] == bin_of(
                    values_in_column(points@, bounds, columns@, width as int, c, i as int),
                ),
    {
        let (x, y) = points[i];
        if is_at_most(bounds.0, x) && is_at_most(x, bounds.1) {
            let column: usize = if columns[i] < width {
                columns[i]
            } else {
                width - 1
            };
            let ghost values = values_in_column(
                points@,
                bounds,
                columns@,
                width as int,
                column as int,
                i as int,
            );
            assert(values.push(y).drop_last() == values);
            let bin = match bins[column] {
                Some((low, high)) => Some(
                    (
                        if y < low {
                            y
                        } else {
                            low
                        },
                        if y > high {
                            y
                        } else {
                            high
                        },
                    ),
                ),
                None => Some((y, y)),
            };
            assert(bin == bin_of(values.push(y)));
            bins.set(column, bin);
        }
    }
    let mut bars: Vec<Bar> = Vec::new();
    for column in 0..width
        invariant
            bins@.len() == width,
            forall|c: int|
                0 <= c < width ==> #[trigger] bins@[c] == bin_of(
                    values_in_column(
                        points@,
                        bounds,
                        columns@,
                        width as int,
                        c,
                        points@.len() as int,
                    ),
                ),
            bars@ == bars_before(points@, bounds, columns@, width as int, column as int),
    {
        match bins[column] {
            Some((low, high)) => {
                bars.push(Bar { column, lowest: low, highest: high });
            },
            None => {},
        }
    }
    Some(bars)
}

proof fn value_is_in_its_column(
    points: Seq<(i64, i64)>,
    bounds: (i64, i64),
    columns: Seq<usize>,
    width: int,
    i: int,
    count: int,
)
    requires
        0 <= i < count <= points.len(),
        in_view(points[i].0, bounds),
    ensures
        values_in_column(
            points,
            bounds,
            columns,
            width,
            column_of(columns, i, width),
            count,
        ).contains(points[i].1),
    decreases count,
{
    let column = column_of(columns, i, width);
    let values = values_in_column(points, bounds, columns, width, column, count);
    let before = values_in_column(points, bounds, columns, width, column, count - 1);
    if i == count - 1 {
        assert(values == before.push(points[i].1));
        assert(values[before.len() as int] == points[i].1);
    } else {
        value_is_in_its_column(points, bounds, columns, width, i, count - 1);
        let k = choose|k: int| 0 <= k < before.len() && before[k] == points[i].1;
        assert(values[k] == points[i].1);
    }
}

proof fn bar_of_column(
    points: Seq<(i64, i64)>,
    bounds: (i64, i64),
    columns: Seq<usize>,
    width: int,
    column: int,
    end: int,
) -> (place: int)
    requires
        0 <= column < end <= usize::MAX,
        values_in_column(points, bounds, columns, width, column, points.len() as int).len() > 0,
    ensures
        0 <= place < bars_before(points, bounds, columns, width, end).len(),
        ({
            let values = values_in_column(
                points,
                bounds,
                columns,
                width,
                column,
                points.len() as int,
            );
            bars_before(points, bounds, columns, width, end)[place] == Bar {
                column: column as usize,
                lowest: lowest(values),
                highest: highest(values),
            }
        }),
    decreases end,
{
    let before = bars_before(points, bounds, columns, width, end - 1);
    if column == end - 1 {
        before.len() as int
    } else {
        bar_of_column(points, bounds, columns, width, column, end - 1)
    }
}

/// No peak is lost: the value of each point between the bounds lies between the ends of a bar in
/// the point's column.
pub proof fn peaks_are_drawn(
    points: Seq<(i64, i64)>,
    bounds: (i64, i64),
    columns: Seq<usize>,
    width: int,
    i: int,
)
    requires
        0 < width <= u32::MAX,
        0 <= i < points.len(),
        in_view(points[i].0, bounds),
    ensures
        exists|k: int|
            0 <= k < bars_before(points, bounds, columns, width, width).len() && (
            #[trigger] bars_before(points, bounds, columns, width, width)[k]).column == column_of(
                columns,
                i,
                width,
            ) && bars_before(points, bounds, columns, width, width)[k].lowest <= points[i].1
                <= bars_before(points, bounds, columns, width, width)[k].highest,
{
    let column = column_of(columns, i, width);
    let values = values_in_column(points, bounds, columns, width, column, points.len() as int);
    value_is_in_its_column(points, bounds, columns, width, i, points.len() as int);
    let k = bar_of_column(points, bounds, columns, width, column, width);
    all_between_lowest_and_highest(values);
    let bar = bars_before(points, bounds, columns, width, width)[k];
    assert(bar.lowest <= points[i].1 <= bar.highest);
}

/// The first of `size`, twice that, four times that, and so on, that is not below the least.
pub open spec fn doubled(size: int, least: int) -> int
    decreases
            if size < least {
                least - size
            } else {
                0
            },
{
    if size <= 0 || size >= least {
        size
    } else {
        doubled(2 * size, least)
    }
}

fn double(size: usize, least: usize) -> (result: usize)
    requires
        0 < size,
        least <= 1024,
    ensures
        result == doubled(size as int, least as int),
{
    let mut result = size;
    while result < least
        invariant
            0 < result,
            least <= 1024,
            doubled(size as int, least as int) == doubled(result as int, least as int),
        decreases
                if result < least {
                    least - result
                } else {
                    0
                },
    {
        result = 2 * result;
    }
    result
}

/// How many samples a spectrum of so many visible points is made from; `None` if they are too
/// few for one.
pub fn fft_sample_count(visible: usize) -> (count: Option<usize>)
    ensures
        match count {
            None => visible < 4,
            Some(count) => visible >= 4 && count == doubled(
                4,
                if visible < 1024 {
                    visible as int
                } else {
                    1024
                },
            ),
        },
{
    if visible < 4 {
        None
    } else if visible < 1024 {
        Some(double(4, visible))
    } else {
        Some(double(4, 1024))
    }
}

/// How many samples a spectrum at one time is made from, where so many are wanted: a power of two
/// from 32 to 512.
pub fn window_size(wanted: usize) -> (size: usize)
    ensures
        size == doubled(
            32,
            if wanted < 512 {
                wanted as int
            } else {
                512
            },
        ),
{
    if wanted < 512 {
        double(32, wanted)
    } else {
        double(32, 512)
    }
}

} // verus!
