//! What holds of what is drawn of a plot, of its panels, and of the keys that move it.
use vstd::prelude::*;

use crate::plot_view::{Bounds, Change, Key, Move, Panel, Panels};
use crate::points::Bar;
use crate::timestamps::Stamp;

verus! {

use crate::cells::{at_most, equals, NumberModel};
use crate::list_laws::are_all_wanted;
use crate::plot_view::{
    derivative_is_shown, fft_is_shown, help_parts, panels_after, panels_shown, series_color,
    shares_of, step_of, Allowed, StepModel,
};
use crate::points::{
    all_between_lowest_and_highest, bars_before, divided_up, doubled, every, points_in_view,
    room_for_points, same_point, sampled, values_in_column,
};
use crate::timestamps::{first_naive_nanos, naive_nanos_of, rfc3339_nanos_of, settled, stamp_of};

/// Whether a number is below another, by their places in the order of the numbers: the zero with
/// a sign, whose place is just below that of the other, is not below it.
pub open spec fn is_below(left: i64, right: i64) -> bool {
    left < right && !(left == -1 && right == 0)
}

/// A number is at most another just where the other is not below it, and equal to it where
/// neither is below the other.
pub proof fn numbers_go_by_their_order(left: i64, right: i64)
    ensures
        at_most(left, right) <==> !is_below(right, left),
        equals(left, right) <==> !is_below(left, right) && !is_below(right, left),
{
}

/// Whether a point lies between the bounds, by its place in a list.
pub open spec fn lies_between(points: Seq<(i64, i64)>, bounds: (i64, i64)) -> spec_fn(int) -> bool {
    |k: int| !is_below(points[k].0, bounds.0) && !is_below(bounds.1, points[k].0)
}

/// The points in view are all those that lie between the bounds, in order.
pub proof fn points_between_the_bounds_are_in_view(
    points: Seq<(i64, i64)>,
    bounds: (i64, i64),
) -> (places: Seq<int>)
    ensures
        are_all_wanted(places, points.len() as int, lies_between(points, bounds)),
        points_in_view(points, bounds).len() == places.len(),
        forall|i: int|
            0 <= i < places.len() ==> #[trigger] points_in_view(points, bounds)[i]
                == points[places[i]],
    decreases points.len(),
{
    let kept = points_in_view(points, bounds);
    let wanted = lies_between(points, bounds);
    if points.len() == 0 {
        let places = Seq::<int>::empty();
        assert(are_all_wanted(places, 0, wanted));
        places
    } else {
        let rest = points.drop_last();
        let last = points.len() - 1;
        let before = points_between_the_bounds_are_in_view(rest, bounds);
        let below = lies_between(rest, bounds);
        assert(wanted(last) <==> points_in_view(points, bounds) != points_in_view(rest, bounds))
            by {
            if points_in_view(points, bounds) != points_in_view(rest, bounds) {
                assert(wanted(last));
            }
            if wanted(last) {
                assert(points_in_view(points, bounds).len() == points_in_view(rest, bounds).len()
                    + 1);
            }
        }
        let places = if wanted(last) {
            before.push(last)
        } else {
            before
        };
        assert forall|i: int| 0 <= i < places.len() implies 0 <= #[trigger] places[i]
            < points.len() && wanted(places[i]) by {
            if i < before.len() {
                assert(below(before[i]));
                assert(rest[before[i]] == points[before[i]]);
            }
        }
        assert forall|k: int| 0 <= k < points.len() && #[trigger] wanted(k) implies places.contains(
            k,
        ) by {
            if k < last {
                assert(rest[k] == points[k]);
                assert(below(k));
                let m = choose|m: int| 0 <= m < before.len() && before[m] == k;
                assert(places[m] == k);
            } else {
                assert(places[places.len() - 1] == k);
            }
        }
        assert forall|i: int| 0 <= i < places.len() implies #[trigger] kept[i]
            == points[places[i]] by {
            if i < before.len() {
                assert(points_in_view(rest, bounds)[i] == rest[before[i]]);
            }
        }
        assert(are_all_wanted(places, points.len() as int, wanted));
        places
    }
}

/// A chart has room for as many points as it is wide, but for a margin of twelve, and for two at
/// least.
pub proof fn chart_has_room(width: int)
    requires
        0 <= width,
    ensures
        width >= 14 ==> room_for_points(width) == width - 12,
        width < 14 ==> room_for_points(width) == 2,
{
}

/// Whether a point at an even distance from the first is drawn at its place.
pub open spec fn is_drawn_at(
    points: Seq<(i64, i64)>,
    drawn: Seq<(i64, i64)>,
    step: int,
    i: int,
) -> bool {
    i < drawn.len() && drawn[i] == points[i * step]
}

/// Whether the last point is drawn behind another.
pub open spec fn is_drawn_at_the_end(
    points: Seq<(i64, i64)>,
    drawn: Seq<(i64, i64)>,
    i: int,
) -> bool {
    i == drawn.len() - 1 && drawn[i] == points.last() && !same_point(drawn[i - 1], points.last())
}

/// Where there is room for all points, all are drawn. Else they are drawn at even distances,
/// from the first on, with the smallest distance for which there is room, and behind them the last
/// one where it is not drawn yet.
pub proof fn points_are_drawn_at_even_distances(points: Seq<(i64, i64)>, room: int) -> (step: int)
    requires
        room >= 2,
    ensures
        points.len() <= room ==> sampled(points, room) == points,
        points.len() > room ==> {
            let drawn = sampled(points, room);
            let count = points.len() as int;
            &&& (step - 1) * room < count <= step * room
            &&& step >= 1
            &&& forall|i: int|
                0 <= i && i * step < count ==> #[trigger] is_drawn_at(points, drawn, step, i)
            &&& forall|i: int|
                0 <= i < drawn.len() && i * step >= count ==> #[trigger] is_drawn_at_the_end(
                    points,
                    drawn,
                    i,
                )
        },
{
    let count = points.len() as int;
    let step = divided_up(count, room);
    if count > room {
        assert((step - 1) * room < count <= step * room && step >= 1) by (nonlinear_arith)
            requires
                room >= 2,
                count > room,
                step == (count + room - 1) / room,
        ;
        let chosen = every(points, step);
        let drawn = sampled(points, room);
        assert forall|i: int| 0 <= i && i * step < count implies #[trigger] is_drawn_at(
            points,
            drawn,
            step,
            i,
        ) by {
            let number = divided_up(count, step);
            assert(i < number) by (nonlinear_arith)
                requires
                    step >= 1,
                    0 <= i,
                    i * step < count,
                    number == (count + step - 1) / step,
            ;
            assert(chosen[i] == points[i * step]);
        }
        assert forall|i: int|
            0 <= i < drawn.len() && i * step >= count implies #[trigger] is_drawn_at_the_end(
            points,
            drawn,
            i,
        ) by {
            let number = divided_up(count, step);
            assert(i >= number) by (nonlinear_arith)
                requires
                    step >= 1,
                    0 <= i,
                    i * step >= count,
                    number == (count + step - 1) / step,
            ;
            assert(number >= 1) by (nonlinear_arith)
                requires
                    step >= 1,
                    count > 2,
                    number == (count + step - 1) / step,
            ;
            assert(chosen.last() == drawn[i - 1]);
        }
    }
    step
}

/// Whether a value is that of a point between the bounds that falls into a column of pixels.
pub open spec fn falls_into(
    points: Seq<(i64, i64)>,
    bounds: (i64, i64),
    columns: Seq<usize>,
    width: int,
    column: int,
    value: i64,
) -> bool {
    exists|i: int|
        0 <= i < points.len() && lies_between(points, bounds)(i) && (columns[i] == column || (
        columns[i] >= width && column == width - 1)) && (#[trigger] points[i]).1 == value
}

proof fn values_fall_into_their_column(
    points: Seq<(i64, i64)>,
    bounds: (i64, i64),
    columns: Seq<usize>,
    width: int,
    column: int,
    count: int,
    value: i64,
)
    requires
        0 <= count <= points.len(),
        values_in_column(points, bounds, columns, width, column, count).contains(value),
    ensures
        falls_into(points, bounds, columns, width, column, value),
    decreases count,
{
    if count > 0 {
        let before = values_in_column(points, bounds, columns, width, column, count - 1);
        let all = values_in_column(points, bounds, columns, width, column, count);
        let k = choose|k: int| 0 <= k < all.len() && all[k] == value;
        if k < before.len() {
            assert(before[k] == value);
            values_fall_into_their_column(
                points,
                bounds,
                columns,
                width,
                column,
                count - 1,
                value,
            );
        } else {
            assert(points[count - 1].1 == value);
            assert(lies_between(points, bounds)(count - 1));
        }
    }
}

/// Whether a bar is drawn in a column of pixels from a value of a point there to another.
pub open spec fn is_bar_of(
    bar: Bar,
    points: Seq<(i64, i64)>,
    bounds: (i64, i64),
    columns: Seq<usize>,
    width: int,
) -> bool {
    &&& 0 <= bar.column < width
    &&& bar.lowest <= bar.highest
    &&& falls_into(points, bounds, columns, width, bar.column as int, bar.lowest)
    &&& falls_into(points, bounds, columns, width, bar.column as int, bar.highest)
}

/// Every bar goes from a value of a point in view that falls into its column to another, and the
/// bars stand in the order of their columns, one in each at most.
pub proof fn bars_end_at_points(
    points: Seq<(i64, i64)>,
    bounds: (i64, i64),
    columns: Seq<usize>,
    width: int,
    end: int,
)
    requires
        0 <= end <= width <= usize::MAX,
    ensures
        forall|k: int|
            0 <= k < bars_before(points, bounds, columns, width, end).len() ==> is_bar_of(
                #[trigger] bars_before(points, bounds, columns, width, end)[k],
                points,
                bounds,
                columns,
                width,
            ) && bars_before(points, bounds, columns, width, end)[k].column < end,
        forall|i: int, j: int|
            0 <= i < j < bars_before(points, bounds, columns, width, end).len() ==> (
            #[trigger] bars_before(points, bounds, columns, width, end)[i]).column < (
            #[trigger] bars_before(points, bounds, columns, width, end)[j]).column,
    decreases end,
{
    if end > 0 {
        bars_end_at_points(points, bounds, columns, width, end - 1);
        let before = bars_before(points, bounds, columns, width, end - 1);
        let all = bars_before(points, bounds, columns, width, end);
        let values = values_in_column(
            points,
            bounds,
            columns,
            width,
            end - 1,
            points.len() as int,
        );
        if values.len() > 0 {
            all_between_lowest_and_highest(values);
            assert(values.contains(all.last().lowest) && values.contains(all.last().highest));
            assert(all.last().lowest <= values[0] <= all.last().highest);
            values_fall_into_their_column(
                points,
                bounds,
                columns,
                width,
                end - 1,
                points.len() as int,
                all.last().lowest,
            );
            values_fall_into_their_column(
                points,
                bounds,
                columns,
                width,
                end - 1,
                points.len() as int,
                all.last().highest,
            );
        }
        assert forall|k: int| 0 <= k < all.len() implies is_bar_of(
            #[trigger] all[k],
            points,
            bounds,
            columns,
            width,
        ) && all[k].column < end by {
            if k < before.len() {
                assert(all[k] == before[k]);
            }
        }
        assert forall|i: int, j: int| 0 <= i < j < all.len() implies (#[trigger] all[i]).column < (
        #[trigger] all[j]).column by {
            assert(all[i] == before[i]);
            if j < before.len() {
                assert(all[j] == before[j]);
            }
        }
    }
}

/// Twice a number, `times` times over.
pub open spec fn twice(number: int, times: nat) -> int
    decreases times,
{
    if times == 0 {
        number
    } else {
        2 * twice(number, (times - 1) as nat)
    }
}

proof fn twice_from_the_front(number: int, times: nat)
    ensures
        twice(2 * number, times) == 2 * twice(number, times),
    decreases times,
{
    if times > 0 {
        twice_from_the_front(number, (times - 1) as nat);
    }
}

/// A size is doubled until it is not below the least, and no further.
pub proof fn size_is_doubled_as_needed(size: int, least: int) -> (times: nat)
    requires
        size > 0,
    ensures
        doubled(size, least) == twice(size, times),
        doubled(size, least) >= least,
        times > 0 ==> twice(size, (times - 1) as nat) < least,
    decreases
            if size < least {
                least - size
            } else {
                0
            },
{
    if size >= least {
        0
    } else {
        let fewer = size_is_doubled_as_needed(2 * size, least);
        twice_from_the_front(size, fewer);
        if fewer > 0 {
            twice_from_the_front(size, (fewer - 1) as nat);
        }
        fewer + 1
    }
}

/// Whether only the range from left to right is changed.
pub open spec fn move_sideways(step: StepModel, change: Change) -> bool {
    step matches StepModel::Moves(moves) && moves == seq![Move { bounds: Bounds::MainX, change }]
}

/// Whether the ranges that run up and down are changed, that of the spectrum only where it is
/// shown.
pub open spec fn move_up_and_down(step: StepModel, change: Change, with_fft: bool) -> bool {
    step matches StepModel::Moves(moves) && are_up_and_down(moves, change, with_fft)
}

/// Whether moves are those of the ranges that run up and down.
pub open spec fn are_up_and_down(moves: Seq<Move>, change: Change, with_fft: bool) -> bool {
    &&& moves.len() == (if with_fft {
        3int
    } else {
        2
    })
    &&& moves[0] == (Move { bounds: Bounds::MainY, change })
    &&& moves[1] == (Move { bounds: Bounds::DerivativeY, change })
    &&& with_fft ==> moves[2] == (Move { bounds: Bounds::FftY, change })
}

/// Whether all ranges are changed.
pub open spec fn move_all(step: StepModel, change: Change, with_fft: bool) -> bool {
    step matches StepModel::Moves(moves) && moves.len() > 0 && moves[0] == (Move {
        bounds: Bounds::MainX,
        change,
    }) && are_up_and_down(moves.skip(1), change, with_fft)
}

/// Each key does what the help says of it: "q", Esc and Enter end, the arrows and "h", "j", "k",
/// "l" pan, "+" and "-" zoom in and out, "x" and "y" zoom one way, "0" starts again, and all
/// others leave the ranges.
pub proof fn keys_do_what_the_help_says(panels: Panels, allowed: Allowed, key: Key)
    ensures
        ({
            let step = step_of(panels, allowed, key);
            let with_fft = allowed.fft && panels.show_fft;
            &&& key == Key::Char('q') || key == Key::Esc || key == Key::Enter <==> step is Quit
            &&& key == Key::Char('0') <==> step is Reset
            &&& key == Key::Left || key == Key::Char('h') ==> move_sideways(step, Change::PanBack)
            &&& key == Key::Right || key == Key::Char('l') ==> move_sideways(
                step,
                Change::PanForward,
            )
            &&& key == Key::Down || key == Key::Char('j') ==> move_up_and_down(
                step,
                Change::PanBack,
                with_fft,
            )
            &&& key == Key::Up || key == Key::Char('k') ==> move_up_and_down(
                step,
                Change::PanForward,
                with_fft,
            )
            &&& key == Key::Char('+') || key == Key::Char('=') ==> move_all(
                step,
                Change::ZoomIn,
                with_fft,
            )
            &&& key == Key::Char('-') ==> move_all(step, Change::ZoomOut, with_fft)
            &&& key == Key::Char('x') ==> move_sideways(step, Change::ZoomIn)
            &&& key == Key::Char('X') ==> move_sideways(step, Change::ZoomOut)
            &&& key == Key::Char('y') ==> move_up_and_down(step, Change::ZoomIn, with_fft)
            &&& key == Key::Char('Y') ==> move_up_and_down(step, Change::ZoomOut, with_fft)
            &&& key == Key::Char('d') || key == Key::Char('f') || key == Key::Other ==> step is Stay
        }),
{
    if let StepModel::Moves(moves) = step_of(panels, allowed, key) {
        if key == Key::Char('+') || key == Key::Char('=') || key == Key::Char('-') {
            assert(moves.skip(1).len() == moves.len() - 1);
        }
    }
}

/// The key "d" shows or hides the derivative where there can be one, the key "f" the spectrum
/// where there can be one, and no other key changes what is shown.
pub proof fn keys_show_and_hide_the_panels(panels: Panels, allowed: Allowed, key: Key)
    ensures
        ({
            let after = panels_after(panels, allowed, key);
            &&& after.show_derivative != panels.show_derivative <==> key == Key::Char('d')
                && allowed.derivative
            &&& after.show_fft != panels.show_fft <==> key == Key::Char('f') && allowed.fft
        }),
        derivative_is_shown(panels, allowed) <==> panels.show_derivative && allowed.derivative,
        fft_is_shown(panels, allowed) <==> panels.show_fft && allowed.fft,
{
}

/// The plot is always shown, above the derivative, and that above the spectrum; the panels share
/// the height evenly, what is left over going to the plot.
pub proof fn panels_share_the_height_evenly(show_derivative: bool, show_fft: bool)
    ensures
        ({
            let panels = panels_shown(show_derivative, show_fft);
            let shares = shares_of(show_derivative, show_fft);
            &&& panels.len() > 0 && panels[0] == Panel::Main
            &&& panels.contains(Panel::Derivative) <==> show_derivative
            &&& panels.contains(Panel::Fft) <==> show_fft
            &&& panels.len() == shares.len()
            &&& show_derivative ==> panels[1] == Panel::Derivative
            &&& show_fft ==> panels.last() == Panel::Fft
            &&& panels.len() == (if show_derivative {
                1int
            } else {
                0
            }) + (if show_fft {
                1int
            } else {
                0
            }) + 1
            &&& forall|i: int|
                0 < i < shares.len() ==> #[trigger] shares[i] as int == 100int / (
                shares.len() as int)
            &&& shares[0] == 100 - (shares.len() - 1) * (100int / (shares.len() as int))
        }),
{
    let panels = panels_shown(show_derivative, show_fft);
    if show_derivative {
        assert(panels[1] == Panel::Derivative);
    }
    if show_fft {
        assert(panels[panels.len() - 1] == Panel::Fft);
    }
}

/// The help names the panels that there can be, and always how to pan, to zoom and to end.
pub proof fn help_names_what_there_can_be(allowed: Allowed)
    ensures
        ({
            let parts = help_parts(allowed);
            &&& parts[0] == "q/Esc/Enter: exit"@
            &&& allowed.derivative ==> parts[1] == "d: derivative panel"@
            &&& allowed.fft ==> parts[if allowed.derivative {
                2int
            } else {
                1
            }] == "f: fft panel"@
            &&& parts.skip(parts.len() - 5) == seq![
                "arrows/hjkl: pan"@,
                "+/-: zoom"@,
                "x/X: x zoom"@,
                "y/Y: y zoom"@,
                "0: reset"@,
            ]
            &&& parts.len() == (if allowed.derivative {
                1int
            } else {
                0
            }) + (if allowed.fft {
                1int
            } else {
                0
            }) + 6
        }),
{
    let parts = help_parts(allowed);
    assert(parts.skip(parts.len() - 5) == seq![
        "arrows/hjkl: pan"@,
        "+/-: zoom"@,
        "x/X: x zoom"@,
        "y/Y: y zoom"@,
        "0: reset"@,
    ]);
}

/// The colors of the series in an image come round after six.
pub proof fn colors_come_round(index: nat)
    ensures
        series_color(index as int) == seq![
            (0u8, 191u8, 255u8),
            (255u8, 193u8, 7u8),
            (46u8, 204u8, 113u8),
            (231u8, 76u8, 60u8),
            (155u8, 89u8, 182u8),
            (52u8, 73u8, 94u8),
        ][index as int % 6],
{
}

/// A settled point in time has nanoseconds below a second and is the same time; one is found
/// wherever the nanoseconds are off by at most a second.
pub proof fn settled_time_is_the_same_time(seconds: int, nanos: int)
    ensures
        settled(seconds, nanos) matches Some((whole, rest)) ==> whole * 1_000_000_000 + rest
            == seconds * 1_000_000_000 + nanos && 0 <= rest < 1_000_000_000,
        -1_000_000_000 <= nanos < 2_000_000_000 <==> settled(seconds, nanos) is Some,
{
}

/// A cell with a finite number is a point in time so many seconds after the start of 1970; one
/// with another number is none. A text is read with its time zone, where it has one; else the forms
/// without a time zone are tried, with hyphens before slashes and with a space before a "T".
pub proof fn points_in_time_are_read(text: Seq<char>, number: NumberModel)
    ensures
        number is Finite ==> stamp_of(text, number) == Some(Stamp::Seconds(number->order)),
        number is NotFinite ==> stamp_of(text, number) is None,
        number is Invalid ==> stamp_of(text, number) == (match (
            rfc3339_nanos_of(text),
            naive_nanos_of(text, "%Y-%m-%d %H:%M:%S%.f"@),
            naive_nanos_of(text, "%Y/%m/%d %H:%M:%S%.f"@),
            naive_nanos_of(text, "%Y-%m-%dT%H:%M:%S%.f"@),
            naive_nanos_of(text, "%Y/%m/%dT%H:%M:%S%.f"@),
        ) {
            (Some(nanos), _, _, _, _) => Some(Stamp::Nanos(nanos)),
            (None, Some(nanos), _, _, _) => Some(Stamp::Nanos(nanos)),
            (None, None, Some(nanos), _, _) => Some(Stamp::Nanos(nanos)),
            (None, None, None, Some(nanos), _) => Some(Stamp::Nanos(nanos)),
            (None, None, None, None, Some(nanos)) => Some(Stamp::Nanos(nanos)),
            (None, None, None, None, None) => None,
        }),
{
    reveal_with_fuel(first_naive_nanos, 5);
}

} // verus!
