//! What holds of the states that a plot shows: how they are defined, and where they hold.
use vstd::prelude::*;

use crate::plot_states::{StateColor, Stretch};

verus! {

use crate::cells::{at_most, equals};
use crate::csv_key_diff::CsvModel;
use crate::csv_plot::config_of;
use crate::list_laws::{are_all_wanted, first_is_unique, found_at_first_place, is_first_at};
use crate::plot_laws::{covers, stretches_cover_where_the_state_holds};
use crate::plot_states::{
    bands_of, bits_of, color_of, combined, definition_of, definitions_in, definitions_upto,
    is_one_bit, known_bits, lane_labels, lanes_stretches, lanes_upto, mask_at, mask_in, mask_value,
    masks_upto, merged, pairs, place_in, stretches_upto, text_bytes, track_of, tracks_of,
    without_signs, BandsModel, DefinitionModel,
};
use crate::text::{decimal, first_place, number_value, number_value_bounds, trimmed, NumberError};
use crate::word_laws::{
    digits_in, is_digit_below, numbers_are_read_by_their_places, sum_of_places,
    trimmed_is_without_white_space_around,
};

/// Whether a text is a number in digits below the radix.
pub open spec fn reads_number(text: Seq<char>, radix: int, number: int) -> bool {
    &&& text.len() > 0
    &&& number == sum_of_places(digits_in(text), radix)
    &&& forall|i: int|
        0 <= i < digits_in(text).len() ==> is_digit_below(#[trigger] digits_in(text)[i], radix)
}

/// Whether a text is a mask: a hexadecimal number behind "0x" or "0X", or a decimal one, with or
/// without white space around it.
pub open spec fn reads_mask(text: Seq<char>, mask: int) -> bool {
    let core = trimmed(text);
    &&& mask <= u64::MAX
    &&& if "0x"@.is_prefix_of(core) || "0X"@.is_prefix_of(core) {
        reads_number(core.skip(2), 16, mask)
    } else {
        reads_number(core, 10, mask)
    }
}

/// A cell is read as a mask just where its text is one.
pub proof fn masks_are_read_as_written(text: Seq<char>, mask: int)
    ensures
        mask_value(text) == Ok::<int, NumberError>(mask) <==> reads_mask(text, mask),
{
    let core = trimmed(text);
    reveal_strlit("0x");
    reveal_strlit("0X");
    assert("0x"@.is_prefix_of(core) <==> core.len() >= 2 && core.take(2) == "0x"@);
    assert("0X"@.is_prefix_of(core) <==> core.len() >= 2 && core.take(2) == "0X"@);
    numbers_are_read_by_their_places(core, 10, u64::MAX as int);
    numbers_are_read_by_their_places(core.skip(2), 16, u64::MAX as int);
}

/// Whether a text is a color: number signs, and three pairs of hexadecimal digits for red, green
/// and blue, with or without white space around it.
pub open spec fn reads_color(text: Seq<char>, color: StateColor) -> bool {
    exists|signs: Seq<char>, digits: Seq<char>| #[trigger]
        is_color_text(trimmed(text), signs, digits, color)
}

/// Whether a text is made of number signs and of the digits of a color.
pub open spec fn is_color_text(
    text: Seq<char>,
    signs: Seq<char>,
    digits: Seq<char>,
    color: StateColor,
) -> bool {
    &&& text == signs + digits
    &&& forall|k: int| 0 <= k < signs.len() ==> #[trigger] signs[k] == '#'
    &&& digits.len() == 6
    &&& digits[0] != '#'
    &&& reads_number(digits.subrange(0, 2), 16, color.0 as int)
    &&& reads_number(digits.subrange(2, 4), 16, color.1 as int)
    &&& reads_number(digits.subrange(4, 6), 16, color.2 as int)
}

proof fn signs_go(text: Seq<char>) -> (signs: Seq<char>)
    ensures
        text == signs + without_signs(text),
        forall|k: int| 0 <= k < signs.len() ==> #[trigger] signs[k] == '#',
        without_signs(text).len() > 0 ==> without_signs(text)[0] != '#',
    decreases text.len(),
{
    if text.len() > 0 && text[0] == '#' {
        let rest = text.drop_first();
        let others = signs_go(rest);
        let signs = seq!['#'] + others;
        assert(text == seq!['#'] + rest);
        assert(text == signs + without_signs(text));
        signs
    } else {
        assert(text == Seq::<char>::empty() + text);
        Seq::empty()
    }
}

proof fn signs_are_parted(signs: Seq<char>, rest: Seq<char>)
    requires
        forall|k: int| 0 <= k < signs.len() ==> #[trigger] signs[k] == '#',
        rest.len() > 0,
        rest[0] != '#',
    ensures
        without_signs(signs + rest) == rest,
    decreases signs.len(),
{
    if signs.len() == 0 {
        assert(signs + rest == rest);
    } else {
        assert((signs + rest)[0] == signs[0]);
        assert((signs + rest).drop_first() == signs.drop_first() + rest);
        signs_are_parted(signs.drop_first(), rest);
    }
}

proof fn digits_are_single_bytes(digits: Seq<char>)
    requires
        forall|k: int| 0 <= k < digits.len() ==> (#[trigger] digits[k] as u32) < 0x80,
    ensures
        text_bytes(digits) == digits.len(),
    decreases digits.len(),
{
    if digits.len() > 0 {
        let rest = digits.drop_last();
        assert forall|k: int| 0 <= k < rest.len() implies (#[trigger] rest[k] as u32) < 0x80 by {
            assert(rest[k] == digits[k]);
        }
        digits_are_single_bytes(rest);
        assert((digits[digits.len() - 1] as u32) < 0x80);
    }
}

proof fn two_digits(pair: Seq<char>, number: int)
    requires
        pair.len() == 2,
    ensures
        number_value(pair, 16, 255) == Ok::<int, NumberError>(number) <==> number <= 255
            && reads_number(pair, 16, number),
        number <= 255 && reads_number(pair, 16, number) ==> (pair[0] as u32) < 0x80 && (
        pair[1] as u32) < 0x80,
{
    numbers_are_read_by_their_places(pair, 16, 255);
    if reads_number(pair, 16, number) {
        let digits = digits_in(pair);
        if pair[0] == '+' {
            assert(is_digit_below(digits[0], 16));
            assert(digits[0] == pair[1]);
        } else {
            assert(is_digit_below(digits[0], 16));
            assert(is_digit_below(digits[1], 16));
        }
    }
}

/// A text is read as a color just where it is one. An empty one, and one that is not six
/// characters long, are refused by messages of their own.
pub proof fn colors_are_read_as_written(text: Seq<char>, color: StateColor)
    ensures
        color_of(text) == Ok::<StateColor, Seq<char>>(color) <==> reads_color(text, color),
{
    let core = trimmed(text);
    let value = without_signs(core);
    let signs = signs_go(core);
    if color_of(text) == Ok::<StateColor, Seq<char>>(color) {
        two_digits(value.subrange(0, 2), color.0 as int);
        two_digits(value.subrange(2, 4), color.1 as int);
        two_digits(value.subrange(4, 6), color.2 as int);
        let red = number_value(value.subrange(0, 2), 16, 255)->Ok_0;
        let green = number_value(value.subrange(2, 4), 16, 255)->Ok_0;
        let blue = number_value(value.subrange(4, 6), 16, 255)->Ok_0;
        two_digits(value.subrange(0, 2), red);
        two_digits(value.subrange(2, 4), green);
        two_digits(value.subrange(4, 6), blue);
        number_value_bounds(value.subrange(0, 2), 16, 255);
        number_value_bounds(value.subrange(2, 4), 16, 255);
        number_value_bounds(value.subrange(4, 6), 16, 255);
        assert(is_color_text(core, signs, value, color));
    }
    if reads_color(text, color) {
        let (front, digits) = choose|front: Seq<char>, digits: Seq<char>| #[trigger]
            is_color_text(core, front, digits, color);
        signs_are_parted(front, digits);
        two_digits(digits.subrange(0, 2), color.0 as int);
        two_digits(digits.subrange(2, 4), color.1 as int);
        two_digits(digits.subrange(4, 6), color.2 as int);
        assert forall|k: int| 0 <= k < digits.len() implies (#[trigger] digits[k] as u32)
            < 0x80 by {
            let pair = k / 2;
            if pair == 0 {
                assert(digits.subrange(0, 2)[k] == digits[k]);
            } else if pair == 1 {
                assert(digits.subrange(2, 4)[k - 2] == digits[k]);
            } else {
                assert(digits.subrange(4, 6)[k - 4] == digits[k]);
            }
        }
        digits_are_single_bytes(digits);
    }
}

/// What is said of a color that cannot be read for its length.
pub proof fn short_colors_are_told(text: Seq<char>)
    ensures
        (forall|k: int| 0 <= k < trimmed(text).len() ==> #[trigger] trimmed(text)[k] == '#')
            ==> color_of(text) == Err::<StateColor, Seq<char>>("state color must not be empty"@),
{
    let core = trimmed(text);
    let signs = signs_go(core);
    if forall|k: int| 0 <= k < core.len() ==> #[trigger] core[k] == '#' {
        let value = without_signs(core);
        if value.len() > 0 {
            assert(core[signs.len() as int] == value[0]);
        }
    }
}

/// Whether a row defines a state: its bit, its name, and its color, where there is none that of
/// its place.
pub open spec fn defines(
    definition: DefinitionModel,
    row: Seq<Seq<char>>,
    bit_at: int,
    label_at: int,
    color_at: Option<int>,
    place: int,
) -> bool {
    &&& bit_at < row.len()
    &&& reads_mask(row[bit_at], definition.bit as int)
    &&& is_one_bit(definition.bit)
    &&& label_at < row.len()
    &&& definition.label == trimmed(row[label_at])
    &&& definition.label.len() > 0
    &&& match color_at {
        Some(at) => at < row.len() && if trimmed(row[at]).len() == 0 {
            definition.color == color_of_place(place)
        } else {
            reads_color(row[at], definition.color)
        },
        None => definition.color == color_of_place(place),
    }
}

/// The colors of the first, the second and the third state where none are given.
pub open spec fn color_of_place(place: int) -> StateColor {
    seq![StateColor(225, 87, 89), StateColor(80, 170, 220), StateColor(244, 180, 0)][place]
}

proof fn row_defines(
    row: Seq<Seq<char>>,
    bit_at: int,
    label_at: int,
    color_at: Option<int>,
    place: int,
    bits: Seq<u64>,
)
    requires
        0 <= place < 3,
        0 <= bit_at,
        0 <= label_at,
    ensures
        definition_of(row, bit_at, label_at, color_at, place, bits) matches Ok(definition)
            ==> defines(definition, row, bit_at, label_at, color_at, place) && !bits.contains(
            definition.bit,
        ),
{
    if let Ok(definition) = definition_of(row, bit_at, label_at, color_at, place, bits) {
        let number = mask_value(row[bit_at])->Ok_0;
        masks_are_read_as_written(row[bit_at], number);
        number_value_bounds(trimmed(row[bit_at]), 10, u64::MAX as int);
        number_value_bounds(trimmed(row[bit_at]).skip(2), 16, u64::MAX as int);
        if let Some(at) = color_at {
            colors_are_read_as_written(row[at], definition.color);
        }
    }
}

proof fn rows_define(
    rows: Seq<Seq<Seq<char>>>,
    bit_at: int,
    label_at: int,
    color_at: Option<int>,
    count: int,
)
    requires
        0 <= count <= 3,
        0 <= bit_at,
        0 <= label_at,
    ensures
        definitions_upto(rows, bit_at, label_at, color_at, count) matches Ok(definitions) ==> {
            &&& definitions.len() == count
            &&& forall|i: int|
                0 <= i < count ==> defines(
                    #[trigger] definitions[i],
                    rows[i],
                    bit_at,
                    label_at,
                    color_at,
                    i,
                )
        },
    decreases count,
{
    if count > 0 {
        rows_define(rows, bit_at, label_at, color_at, count - 1);
        if let Ok(definitions) = definitions_upto(rows, bit_at, label_at, color_at, count) {
            let before = definitions_upto(rows, bit_at, label_at, color_at, count - 1)->Ok_0;
            row_defines(rows[count - 1], bit_at, label_at, color_at, count - 1, bits_of(before));
            assert forall|i: int| 0 <= i < count implies defines(
                #[trigger] definitions[i],
                rows[i],
                bit_at,
                label_at,
                color_at,
                i,
            ) by {
                if i < count - 1 {
                    assert(definitions[i] == before[i]);
                }
            }
        }
    }
}

/// Each row of a table of states defines one, in order: by the first columns "bit" and "label",
/// and by the first column "color" where there is one.
pub proof fn rows_define_the_states(csv: CsvModel, bit_at: int, label_at: int, color_at: int)
    requires
        is_first_at(csv.headers, "bit"@, bit_at),
        is_first_at(csv.headers, "label"@, label_at),
        csv.headers.contains("color"@) ==> is_first_at(csv.headers, "color"@, color_at),
    ensures
        definitions_in(csv) matches Ok(definitions) ==> {
            &&& 1 <= csv.rows.len() <= 3
            &&& definitions.len() == csv.rows.len()
            &&& forall|i: int|
                0 <= i < definitions.len() ==> defines(
                    #[trigger] definitions[i],
                    csv.rows[i],
                    bit_at,
                    label_at,
                    if csv.headers.contains("color"@) {
                        Some(color_at)
                    } else {
                        None
                    },
                    i,
                )
        },
        csv.rows.len() == 0 ==> definitions_in(csv) == Err::<Seq<DefinitionModel>, Seq<char>>(
            "state CSV requires at least one state definition"@,
        ),
        csv.rows.len() > 3 ==> definitions_in(csv) == Err::<Seq<DefinitionModel>, Seq<char>>(
            "state CSV supports at most 3 state definitions"@,
        ),
{
    assert(csv.headers.contains("bit"@) && csv.headers.contains("label"@));
    found_at_first_place(csv.headers, "bit"@);
    found_at_first_place(csv.headers, "label"@);
    found_at_first_place(csv.headers, "color"@);
    first_is_unique(csv.headers, "bit"@, bit_at, first_place(csv.headers, "bit"@));
    first_is_unique(csv.headers, "label"@, label_at, first_place(csv.headers, "label"@));
    let color = place_in(csv.headers, "color"@);
    if csv.headers.contains("color"@) {
        first_is_unique(csv.headers, "color"@, color_at, first_place(csv.headers, "color"@));
    }
    if csv.rows.len() <= 3 {
        rows_define(csv.rows, bit_at, label_at, color, csv.rows.len() as int);
    }
    reveal_strlit("state CSV supports at most ");
    reveal_strlit(" state definitions");
    reveal_strlit("state CSV supports at most 3 state definitions");
    assert(decimal(3) == seq!['3']);
    assert("state CSV supports at most "@ + decimal(3) + " state definitions"@
        == "state CSV supports at most 3 state definitions"@);
}

/// Whether a row has a mask under a column, all bits of which are known.
pub open spec fn has_mask(mask: u64, row: Seq<Seq<char>>, at: int, known: u64) -> bool {
    at < row.len() && reads_mask(row[at], mask as int) && mask & !known == 0
}

proof fn trimmed_twice(text: Seq<char>)
    ensures
        trimmed(trimmed(text)) == trimmed(text),
{
    let cut = trimmed_is_without_white_space_around(text);
    let core = trimmed(text);
    let again = trimmed_is_without_white_space_around(core);
    if core.len() == 0 {
        assert(trimmed(core).len() == 0);
        assert(trimmed(core) == core);
    } else {
        if again.0.len() > 0 {
            assert(core[0] == again.0[0]);
        }
        if again.1.len() > 0 {
            assert(core[core.len() - 1] == again.1[again.1.len() - 1]);
        }
        assert(trimmed(core) == core);
    }
}

proof fn masks_are_those_of_the_rows(
    rows: Seq<Seq<Seq<char>>>,
    at: int,
    column: Seq<char>,
    known: u64,
    count: int,
)
    requires
        0 <= count,
        0 <= at,
    ensures
        masks_upto(rows, at, column, known, count) matches Ok(masks) ==> {
            &&& masks.len() == count
            &&& forall|i: int|
                0 <= i < count ==> has_mask(#[trigger] masks[i], rows[i], at, known)
        },
    decreases count,
{
    if count > 0 {
        masks_are_those_of_the_rows(rows, at, column, known, count - 1);
        if let Ok(masks) = masks_upto(rows, at, column, known, count) {
            let before = masks_upto(rows, at, column, known, count - 1)->Ok_0;
            let text = rows[count - 1][at];
            trimmed_twice(text);
            let number = mask_value(trimmed(text))->Ok_0;
            masks_are_read_as_written(trimmed(text), number);
            number_value_bounds(trimmed(text), 10, u64::MAX as int);
            number_value_bounds(trimmed(text).skip(2), 16, u64::MAX as int);
            assert forall|i: int| 0 <= i < count implies has_mask(
                #[trigger] masks[i],
                rows[i],
                at,
                known,
            ) by {
                if i < count - 1 {
                    assert(masks[i] == before[i]);
                }
            }
        }
    }
}

/// The bits of the states are known.
proof fn bits_are_known(definitions: Seq<DefinitionModel>, d: int)
    requires
        0 <= d < definitions.len(),
    ensures
        known_bits(definitions) & definitions[d].bit == definitions[d].bit,
    decreases definitions.len(),
{
    let before = known_bits(definitions.drop_last());
    let last = definitions.last().bit;
    let own = definitions[d].bit;
    if d < definitions.len() - 1 {
        bits_are_known(definitions.drop_last(), d);
        assert(definitions.drop_last()[d] == definitions[d]);
        assert((before | last) & own == own) by (bit_vector)
            requires
                before & own == own,
        ;
    } else {
        assert((before | last) & last == last) by (bit_vector);
    }
}

/// The states of a plot are those of the table of states; the masks are those in the first column
/// with the name, row by row, each at the place of its row.
pub proof fn states_are_read_from_the_rows(
    csv: CsvModel,
    places: Seq<i64>,
    labels: Option<Seq<Seq<char>>>,
    column: Seq<char>,
    state_csv: Result<CsvModel, Seq<char>>,
    at: int,
) -> (masks: Seq<u64>)
    requires
        is_first_at(csv.headers, column, at),
    ensures
        bands_of(csv, places, labels, column, state_csv) matches Ok(bands) ==> {
            &&& state_csv matches Ok(table) && definitions_in(table) == Ok::<
                Seq<DefinitionModel>,
                Seq<char>,
            >(bands.definitions)
            &&& masks.len() == csv.rows.len()
            &&& forall|i: int|
                0 <= i < masks.len() ==> has_mask(
                    #[trigger] masks[i],
                    csv.rows[i],
                    at,
                    known_bits(bands.definitions),
                )
            &&& bands.tracks == tracks_of(
                Seq::new(places.len(), |i: int| (places[i], masks[i])),
                labels,
            )
            &&& forall|d: int|
                0 <= d < bands.definitions.len() ==> known_bits(bands.definitions) & (
                #[trigger] bands.definitions[d]).bit == bands.definitions[d].bit
        },
{
    assert(csv.headers.contains(column));
    found_at_first_place(csv.headers, column);
    first_is_unique(csv.headers, column, at, first_place(csv.headers, column));
    let definitions = definitions_in(state_csv->Ok_0)->Ok_0;
    let known = known_bits(definitions);
    let masks = masks_upto(csv.rows, at, column, known, csv.rows.len() as int)->Ok_0;
    if let Ok(bands) = bands_of(csv, places, labels, column, state_csv) {
        masks_are_those_of_the_rows(csv.rows, at, column, known, csv.rows.len() as int);
        assert(pairs(places, masks) == Seq::new(places.len(), |i: int| (places[i], masks[i])));
        assert forall|d: int| 0 <= d < bands.definitions.len() implies known_bits(bands.definitions)
            & (#[trigger] bands.definitions[d]).bit == bands.definitions[d].bit by {
            bits_are_known(bands.definitions, d);
        }
    }
    masks
}

/// The lanes go through the tracks, and in each through the states.
pub proof fn lanes_go_track_by_track(tracks: int, definitions: int, lane: int)
    requires
        0 <= tracks <= usize::MAX,
        0 <= definitions <= usize::MAX,
    ensures
        lanes_upto(tracks, definitions).len() == tracks * definitions,
        0 <= lane < tracks * definitions ==> lanes_upto(tracks, definitions)[lane] == (
            (lane / definitions) as usize,
            (lane % definitions) as usize,
        ) && 0 <= lane / definitions < tracks && 0 <= lane % definitions < definitions,
    decreases tracks,
{
    if tracks > 0 {
        assert((tracks - 1) * definitions + definitions == tracks * definitions) by (nonlinear_arith);
        lanes_go_track_by_track(tracks - 1, definitions, lane);
        if 0 <= lane < tracks * definitions && lane >= (tracks - 1) * definitions {
            let rest = lane - (tracks - 1) * definitions;
            assert(lane / definitions == tracks - 1 && lane % definitions == rest)
                by (nonlinear_arith)
                requires
                    0 <= rest < definitions,
                    lane == (tracks - 1) * definitions + rest,
                    tracks > 0,
            ;
        } else if 0 <= lane < tracks * definitions {
            assert(lanes_upto(tracks, definitions)[lane] == lanes_upto(
                tracks - 1,
                definitions,
            )[lane]);
        }
    } else {
        assert(tracks * definitions == 0) by (nonlinear_arith)
            requires
                tracks == 0,
        ;
    }
}

/// The label of a lane is that of its state, behind that of its track and a slash where the track
/// has one.
pub proof fn lanes_are_labeled(bands: BandsModel, lane: int)
    requires
        bands.tracks.len() <= usize::MAX,
        bands.definitions.len() <= usize::MAX,
        0 <= lane < bands.tracks.len() * bands.definitions.len(),
    ensures
        lane_labels(bands).len() == bands.tracks.len() * bands.definitions.len(),
        ({
            let track = bands.tracks[lane / (bands.definitions.len() as int)];
            let definition = bands.definitions[lane % (bands.definitions.len() as int)];
            lane_labels(bands)[lane] == (match track.label {
                Some(label) => label + " / "@ + definition.label,
                None => definition.label,
            })
        }),
{
    lanes_go_track_by_track(bands.tracks.len() as int, bands.definitions.len() as int, lane);
}

proof fn stretches_have_their_lane(
    lane: usize,
    points: Seq<(i64, u64)>,
    bit: u64,
    bounds: (i64, i64),
    count: int,
)
    ensures
        forall|s: int|
            0 <= s < stretches_upto(lane, points, bit, bounds, count).len() ==> (
            #[trigger] stretches_upto(lane, points, bit, bounds, count)[s]).lane == lane,
    decreases count,
{
    if count > 0 {
        stretches_have_their_lane(lane, points, bit, bounds, count - 1);
        let before = stretches_upto(lane, points, bit, bounds, count - 1);
        let all = stretches_upto(lane, points, bit, bounds, count);
        assert forall|s: int| 0 <= s < all.len() implies (#[trigger] all[s]).lane == lane by {
            if s < before.len() {
                assert(all[s] == before[s]);
            }
        }
    }
}

spec fn own_stretches(bands: BandsModel, bounds: (i64, i64), lane: int) -> Seq<Stretch> {
    let (track, definition) = lanes_upto(
        bands.tracks.len() as int,
        bands.definitions.len() as int,
    )[lane];
    let points = bands.tracks[track as int].points;
    stretches_upto(
        lane as usize,
        points,
        bands.definitions[definition as int].bit,
        bounds,
        points.len() as int,
    )
}

proof fn lanes_keep_their_stretches(bands: BandsModel, bounds: (i64, i64), count: int, stretch: Stretch)
    requires
        0 <= count <= usize::MAX,
    ensures
        lanes_stretches(bands, bounds, count).contains(stretch) <==> stretch.lane < count
            && own_stretches(bands, bounds, stretch.lane as int).contains(stretch),
    decreases count,
{
    if count > 0 {
        lanes_keep_their_stretches(bands, bounds, count - 1, stretch);
        let before = lanes_stretches(bands, bounds, count - 1);
        let own = own_stretches(bands, bounds, count - 1);
        let all = lanes_stretches(bands, bounds, count);
        assert(all == before + own);
        let (track, definition) = lanes_upto(
            bands.tracks.len() as int,
            bands.definitions.len() as int,
        )[count - 1];
        let points = bands.tracks[track as int].points;
        stretches_have_their_lane(
            (count - 1) as usize,
            points,
            bands.definitions[definition as int].bit,
            bounds,
            points.len() as int,
        );
        if all.contains(stretch) {
            let k = choose|k: int| 0 <= k < all.len() && all[k] == stretch;
            if k < before.len() {
                assert(before[k] == stretch);
                assert(before.contains(stretch));
            } else {
                assert(own[k - before.len()] == stretch);
                assert(own.contains(stretch));
            }
        }
        if before.contains(stretch) {
            let k = choose|k: int| 0 <= k < before.len() && before[k] == stretch;
            assert(all[k] == stretch);
        }
        if stretch.lane == count - 1 && own.contains(stretch) {
            let k = choose|k: int| 0 <= k < own.len() && own[k] == stretch;
            assert(all[before.len() + k] == stretch);
        }
    }
}

/// A place in view is covered by a stretch of a lane just where the state of the lane holds there:
/// the bit of the state is set in the mask of the lane's track.
pub proof fn lanes_are_covered_where_their_state_holds(
    bands: BandsModel,
    points: Seq<Seq<(i64, u64)>>,
    labels: Seq<Option<Seq<char>>>,
    bounds: (i64, i64),
    lane: int,
    place: i64,
)
    requires
        bands.tracks.len() * bands.definitions.len() <= usize::MAX,
        bands.tracks.len() <= usize::MAX,
        bands.definitions.len() <= usize::MAX,
        bands.tracks == Seq::new(points.len(), |i: int| track_of(labels[i], points[i])),
        0 <= lane < bands.tracks.len() * bands.definitions.len(),
        at_most(bounds.0, place),
        !at_most(bounds.1, place),
    ensures
        ({
            let all = lanes_stretches(
                bands,
                bounds,
                (bands.tracks.len() * bands.definitions.len()) as int,
            );
            let track = bands.tracks[lane / (bands.definitions.len() as int)];
            let definition = bands.definitions[lane % (bands.definitions.len() as int)];
            (exists|s: int|
                0 <= s < all.len() && (#[trigger] all[s]).lane == lane && covers(all[s], place))
                <==> mask_at(track.points, place) & definition.bit != 0
        }),
{
    let width = bands.definitions.len() as int;
    let count = (bands.tracks.len() * bands.definitions.len()) as int;
    let all = lanes_stretches(bands, bounds, count);
    lanes_go_track_by_track(bands.tracks.len() as int, width, lane);
    let t = lane / width;
    let definition = bands.definitions[lane % width];
    let own = own_stretches(bands, bounds, lane);
    stretches_cover_where_the_state_holds(
        lane as usize,
        labels[t],
        points[t],
        definition.bit,
        bounds,
        place,
    );
    stretches_have_their_lane(
        lane as usize,
        bands.tracks[t].points,
        definition.bit,
        bounds,
        bands.tracks[t].points.len() as int,
    );
    if exists|s: int|
        0 <= s < all.len() && (#[trigger] all[s]).lane == lane && covers(all[s], place) {
        let s = choose|s: int|
            0 <= s < all.len() && (#[trigger] all[s]).lane == lane && covers(all[s], place);
        assert(all.contains(all[s]));
        lanes_keep_their_stretches(bands, bounds, count, all[s]);
        let k = choose|k: int| 0 <= k < own.len() && own[k] == all[s];
        assert(covers(own[k], place));
    }
    if exists|s: int| 0 <= s < own.len() && covers(#[trigger] own[s], place) {
        let k = choose|s: int| 0 <= s < own.len() && covers(#[trigger] own[s], place);
        assert(own.contains(own[k]));
        lanes_keep_their_stretches(bands, bounds, count, own[k]);
        let s = choose|s: int| 0 <= s < all.len() && all[s] == own[k];
        assert(all[s].lane == lane && covers(all[s], place));
    }
}

proof fn last_places_are_equal(points: Seq<(i64, u64)>)
    requires
        points.len() > 0,
    ensures
        merged(points).len() > 0,
        equals(merged(points).last().0, points.last().0),
    decreases points.len(),
{
    if points.len() > 1 {
        last_places_are_equal(points.drop_last());
    }
}

/// Whether a point lies at the place of the one before it.
pub open spec fn repeats_the_place(points: Seq<(i64, u64)>) -> spec_fn(int) -> bool {
    |k: int| k > 0 && equals(points[k - 1].0, points[k].0)
}

/// The places at which rows are combined are those of all points that lie at the place of the one
/// before them, in order.
pub proof fn repeated_places_are_combined(points: Seq<(i64, u64)>) -> (places: Seq<int>)
    ensures
        are_all_wanted(places, points.len() as int, repeats_the_place(points)),
        combined(points).len() == places.len(),
        forall|i: int|
            0 <= i < places.len() ==> #[trigger] combined(points)[i] == points[places[i]].0,
        merged(points).len() + combined(points).len() == points.len(),
    decreases points.len(),
{
    let wanted = repeats_the_place(points);
    let found = combined(points);
    if points.len() == 0 {
        let places = Seq::<int>::empty();
        assert(are_all_wanted(places, 0, wanted));
        places
    } else {
        let rest = points.drop_last();
        let last = points.len() - 1;
        let before = repeated_places_are_combined(rest);
        let below = repeats_the_place(rest);
        if rest.len() > 0 {
            last_places_are_equal(rest);
            assert(rest.last() == points[last - 1]);
        }
        let places = if wanted(last) {
            before.push(last)
        } else {
            before
        };
        assert forall|i: int| 0 <= i < places.len() implies 0 <= #[trigger] places[i]
            < points.len() && wanted(places[i]) by {
            if i < before.len() {
                assert(below(before[i]));
                assert(rest[before[i]] == points[before[i]]);
                assert(rest[before[i] - 1] == points[before[i] - 1]);
            }
        }
        assert forall|k: int| 0 <= k < points.len() && #[trigger] wanted(k) implies places.contains(
            k,
        ) by {
            if k < last {
                assert(rest[k] == points[k]);
                assert(rest[k - 1] == points[k - 1]);
                assert(below(k));
                let m = choose|m: int| 0 <= m < before.len() && before[m] == k;
                assert(places[m] == k);
            } else {
                assert(places[places.len() - 1] == k);
            }
        }
        assert forall|i: int| 0 <= i < places.len() implies #[trigger] found[i]
            == points[places[i]].0 by {
            if i < before.len() {
                assert(combined(rest)[i] == rest[before[i]].0);
                assert(found[i] == combined(rest)[i]);
            }
        }
        assert(are_all_wanted(places, points.len() as int, wanted));
        places
    }
}

/// A column of states and a table that defines them are given together or not at all.
pub proof fn states_are_asked_for_together(
    column: Option<Seq<char>>,
    table: Option<Result<CsvModel, Seq<char>>>,
)
    ensures
        config_of(column, table) is Ok <==> (column is Some <==> table is Some),
        config_of(column, table) matches Ok(config) ==> (config is Some <==> column is Some) && (
        config matches Some(found) ==> column == Some(found.0) && table == Some(found.1)),
        config_of(column, table) matches Err(message) ==> message
            == "--state-column and --state-csv must be specified together"@,
{
}

/// What is said of a row that ends before the column of states, or whose mask has a bit that no state
/// has. The rows are counted from one.
pub proof fn wrong_masks_are_told(
    row: Seq<Seq<char>>,
    at: int,
    column: Seq<char>,
    known: u64,
    row_index: nat,
    mask: u64,
)
    requires
        0 <= at,
    ensures
        at >= row.len() ==> mask_in(row, at, column, known, row_index as int) == Err::<
            u64,
            Seq<char>,
        >("row "@ + decimal(row_index + 1) + " is missing column value: "@ + column),
        at < row.len() && reads_mask(row[at], mask as int) ==> mask_in(
            row,
            at,
            column,
            known,
            row_index as int,
        ) == (if mask & !known == 0 {
            Ok::<u64, Seq<char>>(mask)
        } else {
            Err(
                "row "@ + decimal(row_index + 1) + " column "@ + column
                    + " contains bits missing from the state CSV"@,
            )
        }),
{
    if at < row.len() {
        trimmed_twice(row[at]);
        masks_are_read_as_written(trimmed(row[at]), mask as int);
    }
}

/// What is said of a state whose bit is none, or more than one, or that of another state, or whose
/// name is empty. The rows are counted from one.
pub proof fn wrong_states_are_told(
    row: Seq<Seq<char>>,
    bit_at: int,
    label_at: int,
    color_at: Option<int>,
    row_index: nat,
    bits: Seq<u64>,
    bit: u64,
)
    requires
        0 <= bit_at < row.len(),
        0 <= label_at < row.len(),
        reads_mask(row[bit_at], bit as int),
    ensures
        ({
            let result = definition_of(row, bit_at, label_at, color_at, row_index as int, bits);
            &&& !is_one_bit(bit) ==> result == Err::<DefinitionModel, Seq<char>>(
                "row "@ + decimal(row_index + 1) + " column bit must contain one bit"@,
            )
            &&& is_one_bit(bit) && bits.contains(bit) ==> result == Err::<
                DefinitionModel,
                Seq<char>,
            >("duplicate state bit: "@ + decimal(bit as nat))
            &&& is_one_bit(bit) && !bits.contains(bit) && trimmed(row[label_at]).len() == 0
                ==> result == Err::<DefinitionModel, Seq<char>>(
                "row "@ + decimal(row_index + 1) + " column label must not be empty"@,
            )
        }),
{
    masks_are_read_as_written(row[bit_at], bit as int);
}

} // verus!
