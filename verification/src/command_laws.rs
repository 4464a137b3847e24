//! What holds of the commands that the arguments of the program ask for.
use std::path::PathBuf;
use vstd::prelude::*;

use crate::cli::{Given, ValueKind};

verus! {

use crate::cli::{
    all_texts, command_of, given_from, last_path, last_size, last_text, last_value, names_in,
    plot_args_of, plot_command, plot_kinds, plot_names, usage_text, value_error, with_names,
    ArgModel, CommandModel, PlotModel, StateModel,
};
use crate::csv_key_diff::distinct;
use crate::list_laws::{are_all_wanted, found_at_first_place};
use crate::state_laws::reads_number;
use crate::task_schedule::kept_names;
use crate::text::{first_place, number_value, number_value_bounds, split, trimmed};
use crate::word_laws::numbers_are_read_by_their_places;

/// Whether an argument is the name of an option: those are every second one, from a place on.
pub open spec fn is_flag_at(args: Seq<ArgModel>, from: int, at: int, name: Seq<char>) -> bool {
    from <= at < args.len() && (at - from) % 2 == 0 && args[at].text == Some(name)
}

/// Whether an argument is the last that is the name of an option.
pub open spec fn is_last_flag(args: Seq<ArgModel>, from: int, at: int, name: Seq<char>) -> bool {
    &&& is_flag_at(args, from, at, name)
    &&& forall|later: int| at < later ==> !#[trigger] is_flag_at(args, from, later, name)
}

/// Whether no argument is the name of an option.
pub open spec fn lacks_flag(args: Seq<ArgModel>, from: int, name: Seq<char>) -> bool {
    forall|at: int| !#[trigger] is_flag_at(args, from, at, name)
}

/// Whether a text is what stands behind the last name of an option.
pub open spec fn text_is_given(
    args: Seq<ArgModel>,
    from: int,
    name: Seq<char>,
    text: Seq<char>,
) -> bool {
    exists|at: int| #[trigger]
        is_last_flag(args, from, at, name) && at + 1 < args.len() && args[at + 1].text == Some(text)
}

/// Whether a path is what stands behind the last name of an option, or there is none.
pub open spec fn path_is_given(
    args: Seq<ArgModel>,
    from: int,
    name: Seq<char>,
    path: Option<PathBuf>,
) -> bool {
    match path {
        Some(path) => exists|at: int| #[trigger]
            is_last_flag(args, from, at, name) && at + 1 < args.len() && args[at + 1].path == path,
        None => lacks_flag(args, from, name),
    }
}

/// Whether a size is what stands behind the last name of an option, or there is none.
pub open spec fn size_is_given(
    args: Seq<ArgModel>,
    from: int,
    name: Seq<char>,
    size: Option<u32>,
) -> bool {
    match size {
        Some(size) => exists|at: int| #[trigger]
            is_last_flag(args, from, at, name) && at + 1 < args.len() && args[at + 1].text is Some
                && reads_number(args[at + 1].text->0, 10, size as int),
        None => lacks_flag(args, from, name),
    }
}

/// Whether the pair of arguments at a place has the name of an option, by its number.
pub open spec fn is_pair_of(args: Seq<ArgModel>, from: int, name: Seq<char>) -> spec_fn(int) -> bool {
    |i: int| args[from + 2 * i].text == Some(name)
}

/// Whether texts are all those that stand behind names of an option, in order.
pub open spec fn texts_are_given(
    args: Seq<ArgModel>,
    from: int,
    name: Seq<char>,
    texts: Seq<Seq<char>>,
) -> bool {
    exists|places: Seq<int>|
        #![trigger are_all_wanted(places, (args.len() - from) / 2, is_pair_of(args, from, name))]
        are_all_wanted(places, (args.len() - from) / 2, is_pair_of(args, from, name))
            && are_texts_behind(args, from, places, texts)
}

/// Whether texts stand behind the names of the pairs at places.
pub open spec fn are_texts_behind(
    args: Seq<ArgModel>,
    from: int,
    places: Seq<int>,
    texts: Seq<Seq<char>>,
) -> bool {
    &&& texts.len() == places.len()
    &&& forall|i: int|
        0 <= i < places.len() ==> args[from + 2 * places[i] + 1].text == Some(#[trigger] texts[i])
}

/// Whether a value can stand for what an option takes.
pub open spec fn value_is_fine(value: ArgModel, kind: ValueKind) -> bool {
    match kind {
        ValueKind::Path => true,
        ValueKind::Text => value.text is Some,
        ValueKind::Number => value.text is Some && value.number_error is None,
        ValueKind::Size => value.text matches Some(text) && number_value(
            text,
            10,
            u32::MAX as int,
        ) is Ok,
    }
}

/// Whether the pair of arguments at a place is the name of one of the options and a value for it.
pub open spec fn pair_is_fine(
    args: Seq<ArgModel>,
    at: int,
    names: Seq<Seq<char>>,
    kinds: Seq<ValueKind>,
) -> bool {
    args[at].text is Some && exists|o: int|
        0 <= o < names.len() && #[trigger] names[o] == args[at].text->0 && value_is_fine(
            args[at + 1],
            kinds[o],
        )
}

/// Whether all arguments from a place on are names of options, each with a value.
pub open spec fn pairs_are_fine(
    args: Seq<ArgModel>,
    from: int,
    names: Seq<Seq<char>>,
    kinds: Seq<ValueKind>,
) -> bool {
    &&& from <= args.len()
    &&& (args.len() - from) % 2 == 0
    &&& forall|i: int|
        0 <= i < (args.len() - from) / 2 ==> pair_is_fine(
            args,
            #[trigger] pair_place(from, i),
            names,
            kinds,
        )
}

/// The place of a pair of arguments.
pub open spec fn pair_place(from: int, i: int) -> int {
    from + 2 * i
}

/// Whether what is given is what the pairs of arguments say.
spec fn is_given(
    given: Seq<Given>,
    args: Seq<ArgModel>,
    from: int,
    names: Seq<Seq<char>>,
    kinds: Seq<ValueKind>,
) -> bool {
    &&& args.len() == from + 2 * given.len()
    &&& forall|i: int|
        0 <= i < given.len() ==> is_given_at(#[trigger] given[i], args, from + 2 * i, names, kinds)
}

spec fn is_given_at(
    given: Given,
    args: Seq<ArgModel>,
    at: int,
    names: Seq<Seq<char>>,
    kinds: Seq<ValueKind>,
) -> bool {
    &&& given.option < names.len()
    &&& given.value == at + 1
    &&& args[at].text == Some(names[given.option as int])
    &&& value_is_fine(args[at + 1], kinds[given.option as int])
}

proof fn pairs_are_given(
    args: Seq<ArgModel>,
    from: int,
    command: Seq<char>,
    names: Seq<Seq<char>>,
    kinds: Seq<ValueKind>,
)
    requires
        0 <= from <= args.len() <= usize::MAX,
        names.no_duplicates(),
        names.len() <= usize::MAX,
    ensures
        given_from(args, from, command, names, kinds) matches Ok(given) ==> is_given(
            given,
            args,
            from,
            names,
            kinds,
        ),
        given_from(args, from, command, names, kinds) is Ok <==> pairs_are_fine(
            args,
            from,
            names,
            kinds,
        ),
    decreases args.len() - from,
{
    if from < args.len() {
        if from + 2 <= args.len() {
            pairs_are_given(args, from + 2, command, names, kinds);
        }
        let count = (args.len() - from) / 2;
        if let Ok(given) = given_from(args, from, command, names, kinds) {
            let name = args[from].text->0;
            found_at_first_place(names, name);
            let option = first_place(names, name);
            let others = given_from(args, from + 2, command, names, kinds)->Ok_0;
            assert(value_is_fine(args[from + 1], kinds[option]));
            assert forall|i: int| 0 <= i < given.len() implies is_given_at(
                #[trigger] given[i],
                args,
                from + 2 * i,
                names,
                kinds,
            ) by {
                if i > 0 {
                    assert(given[i] == others[i - 1]);
                    assert(is_given_at(others[i - 1], args, from + 2 + 2 * (i - 1), names, kinds));
                }
            }
            assert forall|i: int| 0 <= i < count implies pair_is_fine(
                args,
                #[trigger] pair_place(from, i),
                names,
                kinds,
            ) by {
                if i > 0 {
                    assert(pair_is_fine(args, pair_place(from + 2, i - 1), names, kinds));
                } else {
                    assert(names[option] == name);
                }
            }
        }
        if pairs_are_fine(args, from, names, kinds) {
            assert(pair_is_fine(args, pair_place(from, 0), names, kinds));
            let o = choose|o: int|
                0 <= o < names.len() && #[trigger] names[o] == args[from].text->0 && value_is_fine(
                    args[from + 1],
                    kinds[o],
                );
            let name = args[from].text->0;
            assert(names.contains(names[o]));
            found_at_first_place(names, name);
            assert(first_place(names, name) == o);
            assert forall|i: int| 0 <= i < (args.len() - (from + 2)) / 2 implies pair_is_fine(
                args,
                #[trigger] pair_place(from + 2, i),
                names,
                kinds,
            ) by {
                assert(pair_is_fine(args, pair_place(from, i + 1), names, kinds));
            }
            assert(value_error(args[from + 1], name, kinds[o]) is None);
        }
    }
}

proof fn last_value_is_behind_the_last_flag(
    given: Seq<Given>,
    args: Seq<ArgModel>,
    from: int,
    names: Seq<Seq<char>>,
    kinds: Seq<ValueKind>,
    option: int,
    count: int,
)
    requires
        is_given(given, args, from, names, kinds),
        names.no_duplicates(),
        0 <= option < names.len(),
        0 <= count <= given.len(),
        0 <= from,
        forall|at: int|
            from + 2 * count <= at ==> !#[trigger] is_flag_at(args, from, at, names[option]),
    ensures
        match last_value(given.take(count), option) {
            Some(value) => is_last_flag(args, from, value - 1, names[option]) && 0 <= value
                < args.len() && value_is_fine(args[value], kinds[option]),
            None => lacks_flag(args, from, names[option]),
        },
    decreases count,
{
    let some = given.take(count);
    if count > 0 {
        let last = given[count - 1];
        assert(some.last() == last);
        assert(some.drop_last() == given.take(count - 1));
        assert(is_given_at(last, args, from + 2 * (count - 1), names, kinds));
        let place = from + 2 * (count - 1);
        if last.option == option {
            assert(is_flag_at(args, from, place, names[option]));
            assert forall|later: int| place < later implies !#[trigger] is_flag_at(
                args,
                from,
                later,
                names[option],
            ) by {
                if later == place + 1 {
                    assert((later - from) % 2 == 1);
                }
            }
        } else {
            assert(names[last.option as int] != names[option]);
            assert forall|at: int| from + 2 * (count - 1) <= at implies !#[trigger] is_flag_at(
                args,
                from,
                at,
                names[option],
            ) by {
                if at == place + 1 {
                    assert((at - from) % 2 == 1);
                }
            }
            last_value_is_behind_the_last_flag(
                given,
                args,
                from,
                names,
                kinds,
                option,
                count - 1,
            );
        }
    } else {
        assert(some == Seq::<Given>::empty());
        assert forall|at: int| !#[trigger] is_flag_at(args, from, at, names[option]) by {
            if at >= from {
                assert(from + 2 * count <= at);
            }
        }
    }
}

/// What is read of an option from the pairs of arguments.
proof fn option_is_read(
    given: Seq<Given>,
    args: Seq<ArgModel>,
    from: int,
    names: Seq<Seq<char>>,
    kinds: Seq<ValueKind>,
    option: int,
)
    requires
        is_given(given, args, from, names, kinds),
        names.no_duplicates(),
        0 <= option < names.len(),
        0 <= from,
    ensures
        kinds[option] != ValueKind::Path ==> match last_text(args, given, option) {
            Some(text) => text_is_given(args, from, names[option], text),
            None => lacks_flag(args, from, names[option]),
        },
        path_is_given(args, from, names[option], last_path(args, given, option)),
        kinds[option] == ValueKind::Size ==> size_is_given(
            args,
            from,
            names[option],
            last_size(args, given, option),
        ),
        kinds[option] != ValueKind::Path ==> texts_are_given(
            args,
            from,
            names[option],
            all_texts(args, given, option),
        ),
{
    let name = names[option];
    let count = given.len() as int;
    assert(given.take(count) == given);
    last_value_is_behind_the_last_flag(given, args, from, names, kinds, option, count);
    if let Some(value) = last_value(given, option) {
        assert(is_last_flag(args, from, value - 1, name));
        if kinds[option] == ValueKind::Size {
            let text = args[value].text->0;
            numbers_are_read_by_their_places(text, 10, u32::MAX as int);
            number_value_bounds(text, 10, u32::MAX as int);
        }
    }
    if kinds[option] != ValueKind::Path {
        let places = texts_stand_behind(given, args, from, names, kinds, option, count);
        assert((args.len() - from) / 2 == count);
    }
}

proof fn texts_stand_behind(
    given: Seq<Given>,
    args: Seq<ArgModel>,
    from: int,
    names: Seq<Seq<char>>,
    kinds: Seq<ValueKind>,
    option: int,
    count: int,
) -> (places: Seq<int>)
    requires
        is_given(given, args, from, names, kinds),
        names.no_duplicates(),
        0 <= option < names.len(),
        0 <= count <= given.len(),
        kinds[option] != ValueKind::Path,
    ensures
        are_all_wanted(places, count, is_pair_of(args, from, names[option])),
        are_texts_behind(args, from, places, all_texts(args, given.take(count), option)),
    decreases count,
{
    let wanted = is_pair_of(args, from, names[option]);
    let texts = all_texts(args, given.take(count), option);
    if count == 0 {
        let places = Seq::<int>::empty();
        assert(given.take(0) == Seq::<Given>::empty());
        assert(are_all_wanted(places, 0, wanted));
        places
    } else {
        let before = texts_stand_behind(given, args, from, names, kinds, option, count - 1);
        let last = given[count - 1];
        assert(given.take(count).last() == last);
        assert(given.take(count).drop_last() == given.take(count - 1));
        let earlier = all_texts(args, given.take(count - 1), option);
        assert(is_given_at(last, args, from + 2 * (count - 1), names, kinds));
        let places = if last.option == option {
            before.push(count - 1)
        } else {
            before
        };
        assert(wanted(count - 1) <==> last.option == option) by {
            if last.option != option {
                assert(names[last.option as int] != names[option]);
            }
        }
        assert forall|k: int| 0 <= k < count && #[trigger] wanted(k) implies places.contains(k) by {
            if k < count - 1 {
                let m = choose|m: int| 0 <= m < before.len() && before[m] == k;
                assert(places[m] == k);
            } else {
                assert(places[places.len() - 1] == k);
            }
        }
        assert forall|i: int| 0 <= i < places.len() implies args[from + 2 * places[i] + 1].text
            == Some(#[trigger] texts[i]) by {
            if i < before.len() {
                assert(texts[i] == earlier[i]);
            }
        }
        assert(are_all_wanted(places, count, wanted));
        places
    }
}

/// The pieces of lists between commas, one list after another.
pub open spec fn pieces_of(lists: Seq<Seq<char>>) -> Seq<Seq<char>>
    decreases lists.len(),
{
    if lists.len() == 0 {
        Seq::empty()
    } else {
        split(lists[0], ',') + pieces_of(lists.drop_first())
    }
}

proof fn pieces_with_last(lists: Seq<Seq<char>>, last: Seq<char>)
    ensures
        pieces_of(lists.push(last)) == pieces_of(lists) + split(last, ','),
    decreases lists.len(),
{
    let more = lists.push(last);
    if lists.len() == 0 {
        assert(more.drop_first() == Seq::<Seq<char>>::empty());
        assert(pieces_of(more.drop_first()) == Seq::<Seq<char>>::empty());
        assert(pieces_of(more) == split(last, ','));
    } else {
        assert(more.drop_first() == lists.drop_first().push(last));
        pieces_with_last(lists.drop_first(), last);
        assert(pieces_of(more) == pieces_of(lists) + split(last, ','));
    }
}

proof fn names_of_both(first: Seq<Seq<char>>, second: Seq<Seq<char>>)
    ensures
        kept_names(first + second) == kept_names(first) + kept_names(second),
    decreases second.len(),
{
    if second.len() == 0 {
        assert(first + second == first);
        assert(kept_names(first) + kept_names(second) == kept_names(first));
    } else {
        let rest = second.drop_last();
        names_of_both(first, rest);
        assert((first + second).drop_last() == first + rest);
        assert((first + second).last() == second.last());
        assert(kept_names(first + second) == kept_names(first) + kept_names(second));
    }
}

proof fn added_names_are_distinct(names: Seq<Seq<char>>, pieces: Seq<Seq<char>>)
    ensures
        with_names(distinct(names), pieces) == distinct(names + kept_names(pieces)),
    decreases pieces.len(),
{
    if pieces.len() == 0 {
        assert(names + kept_names(pieces) == names);
    } else {
        let rest = pieces.drop_last();
        added_names_are_distinct(names, rest);
        let name = trimmed(pieces.last());
        if name.len() > 0 {
            let all = names + kept_names(pieces);
            assert(all.drop_last() == names + kept_names(rest));
            assert(all.last() == name);
        }
    }
}

/// The names in lists are all pieces between commas that are more than white space, without the
/// white space around them, each once, in the order in which they first stand there.
pub proof fn names_are_the_distinct_pieces(lists: Seq<Seq<char>>)
    ensures
        names_in(lists) == distinct(kept_names(pieces_of(lists))),
    decreases lists.len(),
{
    if lists.len() > 0 {
        let rest = lists.drop_last();
        names_are_the_distinct_pieces(rest);
        assert(rest.push(lists.last()) == lists);
        pieces_with_last(rest, lists.last());
        names_of_both(pieces_of(rest), split(lists.last(), ','));
        added_names_are_distinct(kept_names(pieces_of(rest)), split(lists.last(), ','));
    }
}

/// Whether names are those in the lists behind the names of an option.
pub open spec fn names_are_given(
    args: Seq<ArgModel>,
    from: int,
    name: Seq<char>,
    names: Seq<Seq<char>>,
) -> bool {
    exists|lists: Seq<Seq<char>>| #[trigger]
        texts_are_given(args, from, name, lists) && names == distinct(kept_names(pieces_of(lists)))
}

proof fn two_names_differ(first: Seq<char>, second: Seq<char>)
    requires
        first.len() > 2,
        second.len() > 2,
        first.len() != second.len() || first[2] != second[2],
    ensures
        seq![first, second].no_duplicates(),
{
    let names = seq![first, second];
    assert(names[0] == first && names[1] == second);
}

/// The command to compare two tables takes their paths and the key columns, one behind each "--key",
/// of which there is one at least.
pub proof fn key_diff_is_asked_for(args: Seq<ArgModel>)
    requires
        0 < args.len() <= usize::MAX,
        args[0].text == Some("csv_key_diff"@),
    ensures
        ({
            let rest = args.skip(1);
            let result = command_of(args);
            &&& result matches Ok(command) ==> (command matches CommandModel::KeyDiff {
                left,
                right,
                keys,
            } && left == args[1].path && right == args[2].path && keys.len() > 0
                && texts_are_given(rest, 2, "--key"@, keys))
            &&& result is Ok <==> args.len() >= 3 && pairs_are_fine(
                rest,
                2,
                seq!["--key"@],
                seq![ValueKind::Text],
            ) && !lacks_flag(rest, 2, "--key"@)
        }),
{
    let rest = args.skip(1);
    let names = seq!["--key"@];
    let kinds = seq![ValueKind::Text];
    if rest.len() >= 2 {
        assert(names.no_duplicates());
        pairs_are_given(rest, 2, "csv_key_diff"@, names, kinds);
        if let Ok(given) = given_from(rest, 2, "csv_key_diff"@, names, kinds) {
            option_is_read(given, rest, 2, names, kinds, 0);
            texts_are_there(given, rest, 2, names, kinds, 0, given.len() as int);
            assert(given.take(given.len() as int) == given);
        }
    }
}

proof fn texts_are_there(
    given: Seq<Given>,
    args: Seq<ArgModel>,
    from: int,
    names: Seq<Seq<char>>,
    kinds: Seq<ValueKind>,
    option: int,
    count: int,
)
    requires
        0 <= count <= given.len(),
    ensures
        all_texts(args, given.take(count), option).len() > 0 <==> last_value(
            given.take(count),
            option,
        ) is Some,
    decreases count,
{
    if count > 0 {
        texts_are_there(given, args, from, names, kinds, option, count - 1);
        assert(given.take(count).drop_last() == given.take(count - 1));
    } else {
        assert(given.take(0) == Seq::<Given>::empty());
    }
}

/// The command to extract differing rows takes the paths of the two tables and of the report, and
/// the paths behind "--output_left" and "--output_right".
pub proof fn key_diff_extract_is_asked_for(args: Seq<ArgModel>)
    requires
        0 < args.len() <= usize::MAX,
        args[0].text == Some("csv_key_diff_extract"@),
    ensures
        ({
            let rest = args.skip(1);
            let result = command_of(args);
            &&& result matches Ok(command) ==> (command matches CommandModel::KeyDiffExtract {
                left,
                right,
                diff,
                output_left,
                output_right,
            } && left == args[1].path && right == args[2].path && diff == args[3].path
                && path_is_given(rest, 3, "--output_left"@, Some(output_left)) && path_is_given(
                rest,
                3,
                "--output_right"@,
                Some(output_right),
            ))
            &&& result is Ok <==> args.len() >= 4 && pairs_are_fine(
                rest,
                3,
                seq!["--output_left"@, "--output_right"@],
                seq![ValueKind::Path, ValueKind::Path],
            ) && !lacks_flag(rest, 3, "--output_left"@) && !lacks_flag(
                rest,
                3,
                "--output_right"@,
            )
        }),
{
    let rest = args.skip(1);
    let names = seq!["--output_left"@, "--output_right"@];
    let kinds = seq![ValueKind::Path, ValueKind::Path];
    commands_differ();
    reveal_strlit("--output_left");
    reveal_strlit("--output_right");
    two_names_differ("--output_left"@, "--output_right"@);
    if rest.len() >= 3 {
        pairs_are_given(rest, 3, "csv_key_diff_extract"@, names, kinds);
        if let Ok(given) = given_from(rest, 3, "csv_key_diff_extract"@, names, kinds) {
            option_is_read(given, rest, 3, names, kinds, 0);
            option_is_read(given, rest, 3, names, kinds, 1);
            options_are_there(given, rest, 3, names, kinds);
        }
    }
}

/// An option has a value just where its name stands among the arguments.
proof fn options_are_there(
    given: Seq<Given>,
    args: Seq<ArgModel>,
    from: int,
    names: Seq<Seq<char>>,
    kinds: Seq<ValueKind>,
)
    requires
        is_given(given, args, from, names, kinds),
        names.no_duplicates(),
        0 <= from,
    ensures
        forall|option: int|
            0 <= option < names.len() ==> (last_value(given, option) is Some <==> !lacks_flag(
                args,
                from,
                #[trigger] names[option],
            )),
{
    assert forall|option: int| 0 <= option < names.len() implies (last_value(given, option) is Some
        <==> !lacks_flag(args, from, #[trigger] names[option])) by {
        let count = given.len() as int;
        assert(given.take(count) == given);
        last_value_is_behind_the_last_flag(given, args, from, names, kinds, option, count);
    }
}

/// The names of the commands are all different.
proof fn commands_differ()
    ensures
        "csv_key_diff"@ != "csv_key_diff_extract"@,
        "csv_pseudo_diff"@ != "csv_key_diff"@,
        "csv_pseudo_diff"@ != "csv_key_diff_extract"@,
        "csv_anomaly_detect"@ != "csv_key_diff"@,
        "csv_anomaly_detect"@ != "csv_key_diff_extract"@,
        "csv_anomaly_detect"@ != "csv_pseudo_diff"@,
        "csv_label_split"@ != "csv_key_diff"@,
        "csv_label_split"@ != "csv_key_diff_extract"@,
        "csv_label_split"@ != "csv_pseudo_diff"@,
        "csv_label_split"@ != "csv_anomaly_detect"@,
        "csv_plot"@ != "csv_key_diff"@,
        "csv_plot"@ != "csv_key_diff_extract"@,
        "csv_plot"@ != "csv_pseudo_diff"@,
        "csv_plot"@ != "csv_anomaly_detect"@,
        "csv_plot"@ != "csv_label_split"@,
        "csv_plot_image"@ != "csv_key_diff"@,
        "csv_plot_image"@ != "csv_key_diff_extract"@,
        "csv_plot_image"@ != "csv_pseudo_diff"@,
        "csv_plot_image"@ != "csv_anomaly_detect"@,
        "csv_plot_image"@ != "csv_label_split"@,
        "csv_plot_image"@ != "csv_plot"@,
        "csv_power_spectrum"@ != "csv_key_diff"@,
        "csv_power_spectrum"@ != "csv_key_diff_extract"@,
        "csv_power_spectrum"@ != "csv_pseudo_diff"@,
        "csv_power_spectrum"@ != "csv_anomaly_detect"@,
        "csv_power_spectrum"@ != "csv_label_split"@,
        "csv_power_spectrum"@ != "csv_plot"@,
        "csv_power_spectrum"@ != "csv_plot_image"@,
{
    reveal_strlit("csv_key_diff");
    reveal_strlit("csv_key_diff_extract");
    reveal_strlit("csv_pseudo_diff");
    reveal_strlit("csv_anomaly_detect");
    reveal_strlit("csv_label_split");
    reveal_strlit("csv_plot");
    reveal_strlit("csv_plot_image");
    reveal_strlit("csv_power_spectrum");
    assert("csv_key_diff"@.len() == 12 && "csv_key_diff_extract"@.len() == 20);
    assert("csv_pseudo_diff"@.len() == 15 && "csv_anomaly_detect"@.len() == 18);
    assert("csv_label_split"@.len() == 15 && "csv_plot"@.len() == 8);
    assert("csv_plot_image"@.len() == 14 && "csv_power_spectrum"@.len() == 18);
    assert("csv_pseudo_diff"@[4] == 'p' && "csv_label_split"@[4] == 'l');
    assert("csv_anomaly_detect"@[4] == 'a' && "csv_power_spectrum"@[4] == 'p');
}

/// The command to split a table takes its path, the column behind "--label-column", and the path
/// behind "--output-dir" where there is one.
pub proof fn label_split_is_asked_for(args: Seq<ArgModel>)
    requires
        0 < args.len() <= usize::MAX,
        args[0].text == Some("csv_label_split"@),
    ensures
        ({
            let rest = args.skip(1);
            let result = command_of(args);
            &&& result matches Ok(command) ==> (command matches CommandModel::LabelSplit {
                input,
                label_column,
                output_dir,
            } && input == args[1].path && text_is_given(rest, 1, "--label-column"@, label_column)
                && path_is_given(rest, 1, "--output-dir"@, output_dir))
            &&& result is Ok <==> args.len() >= 2 && pairs_are_fine(
                rest,
                1,
                seq!["--label-column"@, "--output-dir"@],
                seq![ValueKind::Text, ValueKind::Path],
            ) && !lacks_flag(rest, 1, "--label-column"@)
        }),
{
    let rest = args.skip(1);
    let names = seq!["--label-column"@, "--output-dir"@];
    let kinds = seq![ValueKind::Text, ValueKind::Path];
    commands_differ();
    reveal_strlit("--label-column");
    reveal_strlit("--output-dir");
    two_names_differ("--label-column"@, "--output-dir"@);
    if rest.len() >= 1 {
        pairs_are_given(rest, 1, "csv_label_split"@, names, kinds);
        if let Ok(given) = given_from(rest, 1, "csv_label_split"@, names, kinds) {
            option_is_read(given, rest, 1, names, kinds, 0);
            option_is_read(given, rest, 1, names, kinds, 1);
            flag_is_not_lacking(rest, 1, "--label-column"@);
        }
    }
}

proof fn flag_is_not_lacking(args: Seq<ArgModel>, from: int, name: Seq<char>)
    ensures
        forall|text: Seq<char>| #[trigger]
            text_is_given(args, from, name, text) ==> !lacks_flag(args, from, name),
        forall|path: PathBuf| #[trigger]
            path_is_given(args, from, name, Some(path)) ==> !lacks_flag(args, from, name),
{
    assert forall|text: Seq<char>| #[trigger] text_is_given(args, from, name, text) implies
        !lacks_flag(args, from, name) by {
        let at = choose|at: int| #[trigger]
            is_last_flag(args, from, at, name) && at + 1 < args.len() && args[at + 1].text == Some(
                text,
            );
        assert(is_flag_at(args, from, at, name));
    }
    assert forall|path: PathBuf| #[trigger] path_is_given(args, from, name, Some(path)) implies
        !lacks_flag(args, from, name) by {
        let at = choose|at: int| #[trigger]
            is_last_flag(args, from, at, name) && at + 1 < args.len() && args[at + 1].path == path;
        assert(is_flag_at(args, from, at, name));
    }
}

/// The command to draw a map of frequencies takes the path of a table and the columns behind
/// "--x-column" and "--y-column".
pub proof fn power_spectrum_is_asked_for(args: Seq<ArgModel>)
    requires
        0 < args.len() <= usize::MAX,
        args[0].text == Some("csv_power_spectrum"@),
    ensures
        ({
            let rest = args.skip(1);
            let result = command_of(args);
            &&& result matches Ok(command) ==> (command matches CommandModel::PowerSpectrum {
                input,
                x_column,
                y_column,
            } && input == args[1].path && text_is_given(rest, 1, "--x-column"@, x_column)
                && text_is_given(rest, 1, "--y-column"@, y_column))
            &&& result is Ok <==> args.len() >= 2 && pairs_are_fine(
                rest,
                1,
                seq!["--x-column"@, "--y-column"@],
                seq![ValueKind::Text, ValueKind::Text],
            ) && !lacks_flag(rest, 1, "--x-column"@) && !lacks_flag(rest, 1, "--y-column"@)
        }),
{
    let rest = args.skip(1);
    let names = seq!["--x-column"@, "--y-column"@];
    let kinds = seq![ValueKind::Text, ValueKind::Text];
    commands_differ();
    reveal_strlit("--x-column");
    reveal_strlit("--y-column");
    two_names_differ("--x-column"@, "--y-column"@);
    if rest.len() >= 1 {
        pairs_are_given(rest, 1, "csv_power_spectrum"@, names, kinds);
        if let Ok(given) = given_from(rest, 1, "csv_power_spectrum"@, names, kinds) {
            option_is_read(given, rest, 1, names, kinds, 0);
            option_is_read(given, rest, 1, names, kinds, 1);
            flag_is_not_lacking(rest, 1, "--x-column"@);
            flag_is_not_lacking(rest, 1, "--y-column"@);
        }
    }
}

/// The command to look for anomalies takes the path of a table, the column behind "--x-column", and
/// the names in the lists behind "--y-columns", of which there is one at least.
pub proof fn anomaly_detect_is_asked_for(args: Seq<ArgModel>)
    requires
        0 < args.len() <= usize::MAX,
        args[0].text == Some("csv_anomaly_detect"@),
    ensures
        ({
            let rest = args.skip(1);
            command_of(args) matches Ok(command) ==> (command matches CommandModel::AnomalyDetect {
                input,
                x_column,
                y_columns,
            } && args.len() >= 2 && input == args[1].path && text_is_given(
                rest,
                1,
                "--x-column"@,
                x_column,
            ) && y_columns.len() > 0 && names_are_given(rest, 1, "--y-columns"@, y_columns)
                && pairs_are_fine(
                rest,
                1,
                seq!["--x-column"@, "--y-columns"@],
                seq![ValueKind::Text, ValueKind::Text],
            ))
        }),
{
    let rest = args.skip(1);
    let names = seq!["--x-column"@, "--y-columns"@];
    let kinds = seq![ValueKind::Text, ValueKind::Text];
    commands_differ();
    reveal_strlit("--x-column");
    reveal_strlit("--y-columns");
    two_names_differ("--x-column"@, "--y-columns"@);
    if rest.len() >= 1 {
        pairs_are_given(rest, 1, "csv_anomaly_detect"@, names, kinds);
        if let Ok(given) = given_from(rest, 1, "csv_anomaly_detect"@, names, kinds) {
            option_is_read(given, rest, 1, names, kinds, 0);
            option_is_read(given, rest, 1, names, kinds, 1);
            names_are_the_distinct_pieces(all_texts(rest, given, 1));
        }
    }
}

/// The command to take differences over time takes the path of a table, what stands behind
/// "--time-column", "--value-column" and "--time-scale", and the path behind "--output" where there
/// is one.
pub proof fn pseudo_diff_is_asked_for(args: Seq<ArgModel>)
    requires
        0 < args.len() <= usize::MAX,
        args[0].text == Some("csv_pseudo_diff"@),
    ensures
        ({
            let rest = args.skip(1);
            let result = command_of(args);
            &&& result matches Ok(command) ==> (command matches CommandModel::PseudoDiff {
                input,
                time_column,
                value_column,
                time_scale,
                output,
            } && input == args[1].path && text_is_given(rest, 1, "--time-column"@, time_column)
                && text_is_given(rest, 1, "--value-column"@, value_column) && text_is_given(
                rest,
                1,
                "--time-scale"@,
                time_scale,
            ) && path_is_given(rest, 1, "--output"@, output))
            &&& result is Ok <==> args.len() >= 2 && pairs_are_fine(
                rest,
                1,
                seq!["--time-column"@, "--value-column"@, "--time-scale"@, "--output"@],
                seq![ValueKind::Text, ValueKind::Text, ValueKind::Number, ValueKind::Path],
            ) && !lacks_flag(rest, 1, "--time-column"@) && !lacks_flag(rest, 1, "--value-column"@)
                && !lacks_flag(rest, 1, "--time-scale"@)
        }),
{
    let rest = args.skip(1);
    let names = seq!["--time-column"@, "--value-column"@, "--time-scale"@, "--output"@];
    let kinds = seq![ValueKind::Text, ValueKind::Text, ValueKind::Number, ValueKind::Path];
    commands_differ();
    reveal_strlit("--time-column");
    reveal_strlit("--value-column");
    reveal_strlit("--time-scale");
    reveal_strlit("--output");
    assert(names[0].len() == 13 && names[1].len() == 14 && names[2].len() == 12 && names[3].len()
        == 8);
    assert(names.no_duplicates());
    if rest.len() >= 1 {
        pairs_are_given(rest, 1, "csv_pseudo_diff"@, names, kinds);
        if let Ok(given) = given_from(rest, 1, "csv_pseudo_diff"@, names, kinds) {
            option_is_read(given, rest, 1, names, kinds, 0);
            option_is_read(given, rest, 1, names, kinds, 1);
            option_is_read(given, rest, 1, names, kinds, 2);
            option_is_read(given, rest, 1, names, kinds, 3);
            flag_is_not_lacking(rest, 1, "--time-column"@);
            flag_is_not_lacking(rest, 1, "--value-column"@);
            flag_is_not_lacking(rest, 1, "--time-scale"@);
        }
    }
}

/// Without a command the usage is told, and an unknown command is named before it.
pub proof fn unknown_commands_are_told(args: Seq<ArgModel>)
    ensures
        args.len() == 0 ==> command_of(args) == Err::<CommandModel, Seq<char>>(usage_text()),
        args.len() > 0 && args[0].text is None ==> command_of(args) == Err::<
            CommandModel,
            Seq<char>,
        >(usage_text()),
        args.len() > 0 && args[0].text is Some && !seq![
            "csv_anomaly_detect"@,
            "csv_key_diff"@,
            "csv_key_diff_extract"@,
            "csv_label_split"@,
            "csv_power_spectrum"@,
            "csv_pseudo_diff"@,
            "csv_plot"@,
            "csv_plot_image"@,
        ].contains(args[0].text->0) ==> command_of(args) == Err::<CommandModel, Seq<char>>(
            "unknown command: "@ + args[0].text->0 + "\n\n"@ + usage_text(),
        ),
{
    let known = seq![
        "csv_anomaly_detect"@,
        "csv_key_diff"@,
        "csv_key_diff_extract"@,
        "csv_label_split"@,
        "csv_power_spectrum"@,
        "csv_pseudo_diff"@,
        "csv_plot"@,
        "csv_plot_image"@,
    ];
    assert(known[0] == "csv_anomaly_detect"@ && known[1] == "csv_key_diff"@ && known[2]
        == "csv_key_diff_extract"@ && known[3] == "csv_label_split"@ && known[4]
        == "csv_power_spectrum"@ && known[5] == "csv_pseudo_diff"@ && known[6] == "csv_plot"@
        && known[7] == "csv_plot_image"@);
}

/// Whether a column of states and the path of their table are given, or neither is.
pub open spec fn states_are_given(args: Seq<ArgModel>, state: Option<StateModel>) -> bool {
    match state {
        Some(state) => text_is_given(args, 1, "--state-column"@, state.column) && path_is_given(
            args,
            1,
            "--state-csv"@,
            Some(state.definitions),
        ),
        None => lacks_flag(args, 1, "--state-column"@) && lacks_flag(args, 1, "--state-csv"@),
    }
}

/// Whether a plot is asked for as it is: with an x column and names of y columns and none of the
/// options of labeled series, or with these and neither an x column nor y columns.
pub open spec fn plot_is_given(args: Seq<ArgModel>, mode: PlotModel) -> bool {
    match mode {
        PlotModel::XY { x_column, y_columns, state } => {
            &&& text_is_given(args, 1, "--x-column"@, x_column)
            &&& y_columns.len() > 0
            &&& names_are_given(args, 1, "--y-columns"@, y_columns)
            &&& lacks_flag(args, 1, "--label-column"@)
            &&& lacks_flag(args, 1, "--timestamp-column"@)
            &&& lacks_flag(args, 1, "--value-column"@)
            &&& states_are_given(args, state)
        },
        PlotModel::LabeledSeries { label_column, timestamp_column, value_column, state } => {
            &&& lacks_flag(args, 1, "--x-column"@)
            &&& names_are_given(args, 1, "--y-columns"@, Seq::empty())
            &&& text_is_given(args, 1, "--label-column"@, label_column)
            &&& text_is_given(args, 1, "--timestamp-column"@, timestamp_column)
            &&& text_is_given(args, 1, "--value-column"@, value_column)
            &&& states_are_given(args, state)
        },
    }
}

proof fn plot_names_differ(image: bool)
    ensures
        plot_names(image).no_duplicates(),
{
    reveal_strlit("--x-column");
    reveal_strlit("--y-columns");
    reveal_strlit("--label-column");
    reveal_strlit("--timestamp-column");
    reveal_strlit("--value-column");
    reveal_strlit("--state-column");
    reveal_strlit("--state-csv");
    reveal_strlit("--output");
    reveal_strlit("--width");
    reveal_strlit("--height");
    let names = plot_names(image);
    assert(names[0].len() == 10 && names[1].len() == 11 && names[2].len() == 14 && names[3].len()
        == 18 && names[4].len() == 14 && names[5].len() == 14 && names[6].len() == 11);
    assert(names[1][2] == 'y' && names[6][2] == 's' && names[2][2] == 'l' && names[4][2] == 'v'
        && names[5][2] == 's');
    if image {
        assert(names[7].len() == 8 && names[8].len() == 7 && names[9].len() == 8);
        assert(names[7][2] == 'o' && names[9][2] == 'h');
    }
    assert forall|i: int, j: int| 0 <= i < names.len() && 0 <= j < names.len() && i != j implies
        names[i] != names[j] by {
        assert(i == 0 || i == 1 || i == 2 || i == 3 || i == 4 || i == 5 || i == 6 || i == 7 || i == 8
            || i == 9);
        assert(j == 0 || j == 1 || j == 2 || j == 3 || j == 4 || j == 5 || j == 6 || j == 7 || j == 8
            || j == 9);
    }
}

#[verifier::rlimit(40)]
proof fn plot_arguments_are_read(args: Seq<ArgModel>, image: bool)
    requires
        args.len() <= usize::MAX,
    ensures
        plot_args_of(args, image) matches Ok(plot) ==> {
            &&& args.len() >= 1
            &&& plot.input == args[0].path
            &&& plot_is_given(args, plot.mode)
            &&& image ==> path_is_given(args, 1, "--output"@, plot.output)
            &&& image ==> size_is_given(args, 1, "--width"@, plot.width)
            &&& image ==> size_is_given(args, 1, "--height"@, plot.height)
        },
{
    let names = plot_names(image);
    let kinds = plot_kinds(image);
    if args.len() >= 1 {
        plot_names_differ(image);
        pairs_are_given(args, 1, plot_command(image), names, kinds);
        if let Ok(given) = given_from(args, 1, plot_command(image), names, kinds) {
            option_is_read(given, args, 1, names, kinds, 0);
            option_is_read(given, args, 1, names, kinds, 1);
            option_is_read(given, args, 1, names, kinds, 2);
            option_is_read(given, args, 1, names, kinds, 3);
            option_is_read(given, args, 1, names, kinds, 4);
            option_is_read(given, args, 1, names, kinds, 5);
            option_is_read(given, args, 1, names, kinds, 6);
            if image {
                option_is_read(given, args, 1, names, kinds, 7);
                option_is_read(given, args, 1, names, kinds, 8);
                option_is_read(given, args, 1, names, kinds, 9);
            }
            let lists = all_texts(args, given, 1);
            names_are_the_distinct_pieces(lists);
            assert(texts_are_given(args, 1, "--y-columns"@, lists));
            assert(names_are_given(args, 1, "--y-columns"@, names_in(lists)));
            if names_in(lists).len() == 0 {
                assert(names_in(lists) == Seq::<Seq<char>>::empty());
            }
        }
    }
}

/// The command to plot a table takes its path, and the plot as it is asked for.
pub proof fn plot_is_asked_for(args: Seq<ArgModel>)
    requires
        0 < args.len() <= usize::MAX,
        args[0].text == Some("csv_plot"@),
    ensures
        command_of(args) matches Ok(command) ==> (command matches CommandModel::Plot {
            input,
            mode,
        } && args.len() >= 2 && input == args[1].path && plot_is_given(args.skip(1), mode)),
{
    commands_differ();
    plot_arguments_are_read(args.skip(1), false);
}

/// The command to draw an image of a plot takes the path of a table, the plot as it is asked for,
/// and the path behind "--output". A size is asked for where "--width" or "--height" stands among
/// the arguments; the one that does not is 1600 or 900.
pub proof fn plot_image_is_asked_for(args: Seq<ArgModel>)
    requires
        0 < args.len() <= usize::MAX,
        args[0].text == Some("csv_plot_image"@),
    ensures
        command_of(args) matches Ok(command) ==> image_is_given(args, command),
{
    commands_differ();
    plot_arguments_are_read(args.skip(1), true);
}

/// Whether a command asks for an image as the arguments do.
pub open spec fn image_is_given(args: Seq<ArgModel>, command: CommandModel) -> bool {
    let rest = args.skip(1);
    match command {
        CommandModel::PlotImage { input, mode, output } => {
            &&& args.len() >= 2
            &&& input == args[1].path
            &&& plot_is_given(rest, mode)
            &&& path_is_given(rest, 1, "--output"@, Some(output))
            &&& lacks_flag(rest, 1, "--width"@)
            &&& lacks_flag(rest, 1, "--height"@)
        },
        CommandModel::PlotImageSized { input, mode, output, width, height } => {
            &&& args.len() >= 2
            &&& input == args[1].path
            &&& plot_is_given(rest, mode)
            &&& path_is_given(rest, 1, "--output"@, Some(output))
            &&& size_is_given(rest, 1, "--width"@, Some(width)) || lacks_flag(rest, 1, "--width"@)
                && width == 1600
            &&& size_is_given(rest, 1, "--height"@, Some(height)) || lacks_flag(
                rest,
                1,
                "--height"@,
            ) && height == 900
        },
        _ => false,
    }
}

} // verus!
