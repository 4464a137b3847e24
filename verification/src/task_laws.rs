//! What holds of the tasks that a table lists, and of the table and the chart of their schedule.
use vstd::prelude::*;

use crate::schedule_model::{Phase, PhaseKind, ScheduleEntry, MAX_SEARCH_NODES};
use crate::task_schedule::TaskColumns;

verus! {

use vstd::seq_lib::{to_multiset_contains, to_multiset_len};
use crate::csv_key_diff::CsvModel;
use crate::csv_text::records_text;
use crate::list_laws::{are_all_wanted, first_is_unique, found_at_first_place, is_first_at};
use crate::ordering::{text_before, texts_before};
use crate::schedule_model::{
    better, failure_text, latest, manual_ids, schedule_of, weight, weighted_sum, ScheduleFailure,
    ScheduleModel, StateModel, TaskModel,
};
use crate::state_laws::reads_number;
use crate::task_schedule::{
    chart_cells, chart_head, chart_line, chart_text, chart_upto, column_of, columns_of, ids_of,
    kept_names, kind_of, label_width, linked_tasks, longest_id, minutes_per_column, phase_list_of,
    phase_of, phases_of, places_of, raw_task_of, raw_tasks_of, schedule_csv, schedule_rows,
    sorted_by_id, sorted_by_id_is_sorted, sorted_entries, sorted_entries_are_sorted, tasks_of,
    truncated, RawModel,
};
use crate::text::{
    decimal, first_place, first_place_is_first, number_value_bounds, padded_right, parted, repeated,
    split, trimmed,
};
use crate::word_laws::numbers_are_read_by_their_places;

/// Whether a text without white space around it is a phase: its kind, a colon, and its minutes.
pub open spec fn is_phase_text(
    text: Seq<char>,
    word: Seq<char>,
    minutes: Seq<char>,
    phase: Phase,
) -> bool {
    &&& text == word + seq![':'] + minutes
    &&& !word.contains(':')
    &&& match phase.kind {
        PhaseKind::Manual => trimmed(word) == "manual"@ || trimmed(word) == "m"@,
        PhaseKind::Auto => trimmed(word) == "auto"@ || trimmed(word) == "a"@,
    }
    &&& reads_number(trimmed(minutes), 10, phase.duration_minutes as int)
    &&& phase.duration_minutes > 0
}

/// Whether a text is a phase: "manual" or "m", "auto" or "a", a colon, and its minutes, which are
/// more than none; white space around the parts does not count.
pub open spec fn reads_phase(text: Seq<char>, phase: Phase) -> bool {
    exists|word: Seq<char>, minutes: Seq<char>| #[trigger]
        is_phase_text(trimmed(text), word, minutes, phase)
}

proof fn parted_at_the_first(text: Seq<char>, separator: char, before: Seq<char>, behind: Seq<char>)
    ensures
        parted(text, separator) == Some((before, behind)) <==> text == before + seq![separator]
            + behind && !before.contains(separator),
{
    first_place_is_first(text, separator);
    let place = first_place(text, separator);
    if parted(text, separator) == Some((before, behind)) {
        assert(text[place] == separator);
        assert(text == before + seq![separator] + behind);
        if before.contains(separator) {
            let k = choose|k: int| 0 <= k < before.len() && before[k] == separator;
            assert(text[k] == separator);
        }
    }
    if text == before + seq![separator] + behind && !before.contains(separator) {
        let at = before.len() as int;
        assert(text[at] == separator);
        assert(text.contains(separator));
        if place < at {
            assert(before[place] == separator);
        }
        assert(place == at);
        assert(text.take(at) == before);
        assert(text.skip(at + 1) == behind);
    }
}

proof fn words_name_the_kinds(word: Seq<char>)
    ensures
        kind_of(word) == Some(PhaseKind::Manual) <==> word == "manual"@ || word == "m"@,
        kind_of(word) == Some(PhaseKind::Auto) <==> word == "auto"@ || word == "a"@,
{
    reveal_strlit("manual");
    reveal_strlit("m");
    reveal_strlit("auto");
    reveal_strlit("a");
    assert("manual"@[0] == 'm' && "m"@[0] == 'm' && "auto"@[0] == 'a' && "a"@[0] == 'a');
}

/// A text is read as a phase just where it is one.
pub proof fn phases_are_read_as_written(text: Seq<char>, row_index: int, phase: Phase)
    ensures
        phase_of(text, row_index) == Ok::<Phase, Seq<char>>(phase) <==> reads_phase(text, phase),
{
    let core = trimmed(text);
    if phase_of(text, row_index) == Ok::<Phase, Seq<char>>(phase) {
        let (word, minutes) = parted(core, ':')->0;
        parted_at_the_first(core, ':', word, minutes);
        words_name_the_kinds(trimmed(word));
        numbers_are_read_by_their_places(trimmed(minutes), 10, u64::MAX as int);
        number_value_bounds(trimmed(minutes), 10, u64::MAX as int);
        assert(is_phase_text(core, word, minutes, phase));
    }
    if reads_phase(text, phase) {
        let (word, minutes) = choose|word: Seq<char>, minutes: Seq<char>| #[trigger]
            is_phase_text(core, word, minutes, phase);
        parted_at_the_first(core, ':', word, minutes);
        words_name_the_kinds(trimmed(word));
        numbers_are_read_by_their_places(trimmed(minutes), 10, u64::MAX as int);
    }
}

/// Whether phases are those of the pieces, one by one.
pub open spec fn are_phases_of(phases: Seq<Phase>, pieces: Seq<Seq<char>>) -> bool {
    &&& phases.len() == pieces.len()
    &&& forall|i: int| 0 <= i < phases.len() ==> reads_phase(pieces[i], #[trigger] phases[i])
}

proof fn pieces_are_read(pieces: Seq<Seq<char>>, row_index: int)
    ensures
        phases_of(pieces, row_index) matches Ok(phases) ==> are_phases_of(phases, pieces),
    decreases pieces.len(),
{
    if pieces.len() > 0 {
        let rest = pieces.drop_last();
        pieces_are_read(rest, row_index);
        if let Ok(phases) = phases_of(pieces, row_index) {
            let before = phases_of(rest, row_index)->Ok_0;
            phases_are_read_as_written(pieces.last(), row_index, phases.last());
            assert forall|i: int| 0 <= i < phases.len() implies reads_phase(
                pieces[i],
                #[trigger] phases[i],
            ) by {
                if i < before.len() {
                    assert(phases[i] == before[i]);
                    assert(rest[i] == pieces[i]);
                }
            }
        }
    }
}

proof fn readable_pieces_are_read(pieces: Seq<Seq<char>>, row_index: int, phases: Seq<Phase>)
    requires
        are_phases_of(phases, pieces),
    ensures
        phases_of(pieces, row_index) == Ok::<Seq<Phase>, Seq<char>>(phases),
    decreases pieces.len(),
{
    if pieces.len() > 0 {
        let rest = pieces.drop_last();
        let before = phases.drop_last();
        assert forall|i: int| 0 <= i < before.len() implies reads_phase(
            rest[i],
            #[trigger] before[i],
        ) by {
            assert(before[i] == phases[i]);
        }
        readable_pieces_are_read(rest, row_index, before);
        assert(reads_phase(pieces[pieces.len() - 1], phases[pieces.len() - 1]));
        phases_are_read_as_written(pieces.last(), row_index, phases.last());
        assert(before.push(phases.last()) == phases);
    } else {
        assert(phases == Seq::<Phase>::empty());
    }
}

/// Whether phases of the same kind never follow each other.
pub open spec fn kinds_take_turns(phases: Seq<Phase>) -> bool {
    forall|i: int, j: int|
        0 <= i < j < phases.len() && i + 1 == j ==> (#[trigger] phases[i]).kind != (
        #[trigger] phases[j]).kind
}

/// The phases of a task are read from the pieces of a cell between bars, each of which must be a
/// phase, and the kinds must take turns.
pub proof fn phase_lists_are_read_as_written(value: Seq<char>, row_index: int, phases: Seq<Phase>)
    ensures
        phase_list_of(value, row_index) == Ok::<Seq<Phase>, Seq<char>>(phases) <==> are_phases_of(
            phases,
            split(value, '|'),
        ) && kinds_take_turns(phases),
{
    pieces_are_read(split(value, '|'), row_index);
    if are_phases_of(phases, split(value, '|')) {
        readable_pieces_are_read(split(value, '|'), row_index, phases);
    }
}

/// Whether a piece is more than white space, by its place.
pub open spec fn is_name(pieces: Seq<Seq<char>>) -> spec_fn(int) -> bool {
    |k: int| trimmed(pieces[k]).len() > 0
}

/// The names in a list are all its pieces that are more than white space, in order, without the
/// white space around them.
pub proof fn blank_pieces_name_nothing(pieces: Seq<Seq<char>>) -> (places: Seq<int>)
    ensures
        are_all_wanted(places, pieces.len() as int, is_name(pieces)),
        kept_names(pieces).len() == places.len(),
        forall|i: int|
            0 <= i < places.len() ==> #[trigger] kept_names(pieces)[i] == trimmed(
                pieces[places[i]],
            ),
    decreases pieces.len(),
{
    let wanted = is_name(pieces);
    let names = kept_names(pieces);
    if pieces.len() == 0 {
        let places = Seq::<int>::empty();
        assert(are_all_wanted(places, 0, wanted));
        places
    } else {
        let rest = pieces.drop_last();
        let last = pieces.len() - 1;
        let before = blank_pieces_name_nothing(rest);
        let below = is_name(rest);
        let places = if trimmed(pieces.last()).len() > 0 {
            before.push(last)
        } else {
            before
        };
        assert forall|i: int| 0 <= i < places.len() implies 0 <= #[trigger] places[i]
            < pieces.len() && wanted(places[i]) by {
            if i < before.len() {
                assert(below(before[i]));
                assert(rest[before[i]] == pieces[before[i]]);
            }
        }
        assert forall|k: int| 0 <= k < pieces.len() && #[trigger] wanted(k) implies places.contains(
            k,
        ) by {
            if k < last {
                assert(rest[k] == pieces[k]);
                assert(below(k));
                let m = choose|m: int| 0 <= m < before.len() && before[m] == k;
                assert(places[m] == k);
            } else {
                assert(places[places.len() - 1] == k);
            }
        }
        assert forall|i: int| 0 <= i < places.len() implies #[trigger] names[i] == trimmed(
            pieces[places[i]],
        ) by {
            if i < before.len() {
                assert(kept_names(rest)[i] == trimmed(rest[before[i]]));
            }
        }
        assert(are_all_wanted(places, pieces.len() as int, wanted));
        places
    }
}

/// Where a table of tasks has its columns.
pub struct TaskPlaces {
    pub id: int,
    pub priority: int,
    pub dependencies: int,
    pub phases: int,
}

/// Whether a table of tasks has its columns at the places: each in the first column of its name.
pub open spec fn are_task_columns(headers: Seq<Seq<char>>, places: TaskPlaces) -> bool {
    &&& is_first_at(headers, "id"@, places.id)
    &&& is_first_at(headers, "priority"@, places.priority)
    &&& is_first_at(headers, "dependencies"@, places.dependencies)
    &&& is_first_at(headers, "phases"@, places.phases)
}

/// Whether a row says what a task is, but for what it depends on.
pub open spec fn describes(
    row: Seq<Seq<char>>,
    places: TaskPlaces,
    id: Seq<char>,
    priority: u8,
    phases: Seq<Phase>,
) -> bool {
    &&& places.id < row.len()
    &&& id == trimmed(row[places.id])
    &&& id.len() > 0
    &&& places.priority < row.len()
    &&& reads_number(trimmed(row[places.priority]), 10, priority as int)
    &&& 1 <= priority <= 5
    &&& places.phases < row.len()
    &&& are_phases_of(phases, split(row[places.phases], '|'))
    &&& kinds_take_turns(phases)
}

/// Whether the names that a task depends on are those in a row.
pub open spec fn names_are_listed(
    row: Seq<Seq<char>>,
    places: TaskPlaces,
    names: Seq<Seq<char>>,
) -> bool {
    places.dependencies < row.len() && names == kept_names(split(row[places.dependencies], ';'))
}

spec fn is_raw_task_of(task: RawModel, row: Seq<Seq<char>>, places: TaskPlaces) -> bool {
    &&& describes(row, places, task.id, task.priority, task.phases)
    &&& names_are_listed(row, places, task.dependencies)
}

proof fn rows_say_what_tasks_are(
    rows: Seq<Seq<Seq<char>>>,
    columns: TaskColumns,
    places: TaskPlaces,
)
    requires
        places.id == columns.id,
        places.priority == columns.priority,
        places.dependencies == columns.dependencies,
        places.phases == columns.phases,
    ensures
        raw_tasks_of(rows, columns) matches Ok(tasks) ==> tasks.len() == rows.len() && forall|
            i: int,
        |
            0 <= i < tasks.len() ==> is_raw_task_of(#[trigger] tasks[i], rows[i], places),
    decreases rows.len(),
{
    if rows.len() > 0 {
        let rest = rows.drop_last();
        rows_say_what_tasks_are(rest, columns, places);
        if let Ok(tasks) = raw_tasks_of(rows, columns) {
            let before = raw_tasks_of(rest, columns)->Ok_0;
            let row = rows.last();
            let task = tasks.last();
            let text = trimmed(row[places.priority]);
            numbers_are_read_by_their_places(text, 10, u8::MAX as int);
            number_value_bounds(text, 10, u8::MAX as int);
            phase_lists_are_read_as_written(row[places.phases], rows.len() - 1, task.phases);
            assert(is_raw_task_of(task, row, places));
            assert forall|i: int| 0 <= i < tasks.len() implies is_raw_task_of(
                #[trigger] tasks[i],
                rows[i],
                places,
            ) by {
                if i < before.len() {
                    assert(tasks[i] == before[i]);
                    assert(rest[i] == rows[i]);
                }
            }
        }
    }
}

/// Whether a row says what a task is: its id, its priority, its phases, and the ids of the tasks
/// that it depends on.
pub open spec fn is_task_of(
    tasks: Seq<TaskModel>,
    i: int,
    row: Seq<Seq<char>>,
    places: TaskPlaces,
) -> bool {
    &&& describes(row, places, tasks[i].id, tasks[i].priority, tasks[i].phases)
    &&& names_are_listed(
        row,
        places,
        Seq::new(
            tasks[i].dependencies.len(),
            |j: int| tasks[tasks[i].dependencies[j] as int].id,
        ),
    )
    &&& forall|j: int|
        0 <= j < tasks[i].dependencies.len() ==> #[trigger] tasks[i].dependencies[j] < tasks.len()
            && tasks[i].dependencies[j] != i
}

proof fn places_have_the_names(ids: Seq<Seq<char>>, index: int, names: Seq<Seq<char>>)
    requires
        ids.len() <= usize::MAX,
    ensures
        places_of(ids, index, names) matches Ok(found) ==> found.len() == names.len() && forall|
            j: int,
        |
            0 <= j < found.len() ==> has_name(ids, index, #[trigger] found[j], names[j]),
    decreases names.len(),
{
    if names.len() > 0 {
        let rest = names.drop_last();
        places_have_the_names(ids, index, rest);
        first_place_is_first(ids, names.last());
        if let Ok(found) = places_of(ids, index, names) {
            let before = places_of(ids, index, rest)->Ok_0;
            assert forall|j: int| 0 <= j < found.len() implies has_name(
                ids,
                index,
                #[trigger] found[j],
                names[j],
            ) by {
                if j < before.len() {
                    assert(found[j] == before[j]);
                    assert(rest[j] == names[j]);
                }
            }
        }
    }
}

spec fn has_name(ids: Seq<Seq<char>>, index: int, place: usize, name: Seq<char>) -> bool {
    place < ids.len() && place != index && ids[place as int] == name
}

spec fn is_linked(task: TaskModel, raws: Seq<RawModel>, i: int) -> bool {
    &&& task.id == raws[i].id
    &&& task.priority == raws[i].priority
    &&& task.phases == raws[i].phases
    &&& task.dependencies.len() == raws[i].dependencies.len()
    &&& forall|j: int|
        0 <= j < task.dependencies.len() ==> has_name(
            ids_of(raws),
            i,
            #[trigger] task.dependencies[j],
            raws[i].dependencies[j],
        )
}

proof fn links_have_the_names(raws: Seq<RawModel>, count: int)
    requires
        0 <= count <= raws.len() <= usize::MAX,
    ensures
        linked_tasks(raws, count) matches Ok(tasks) ==> tasks.len() == count && forall|i: int|
            0 <= i < count ==> is_linked(#[trigger] tasks[i], raws, i),
    decreases count,
{
    if count > 0 {
        links_have_the_names(raws, count - 1);
        if let Ok(tasks) = linked_tasks(raws, count) {
            let before = linked_tasks(raws, count - 1)->Ok_0;
            places_have_the_names(ids_of(raws), count - 1, raws[count - 1].dependencies);
            assert(is_linked(tasks.last(), raws, count - 1));
            assert forall|i: int| 0 <= i < count implies is_linked(#[trigger] tasks[i], raws, i) by {
                if i < count - 1 {
                    assert(tasks[i] == before[i]);
                }
            }
        }
    }
}

proof fn linked_is_task(
    tasks: Seq<TaskModel>,
    raws: Seq<RawModel>,
    i: int,
    row: Seq<Seq<char>>,
    places: TaskPlaces,
)
    requires
        tasks.len() == raws.len(),
        0 <= i < tasks.len(),
        forall|k: int| 0 <= k < tasks.len() ==> is_linked(#[trigger] tasks[k], raws, k),
        is_raw_task_of(raws[i], row, places),
    ensures
        is_task_of(tasks, i, row, places),
{
    let task = tasks[i];
    assert(is_linked(task, raws, i));
    let names = Seq::new(task.dependencies.len(), |j: int| tasks[task.dependencies[j] as int].id);
    assert forall|j: int| 0 <= j < task.dependencies.len() implies #[trigger] task.dependencies[j]
        < tasks.len() && task.dependencies[j] != i && names[j] == raws[i].dependencies[j] by {
        let place = task.dependencies[j];
        assert(has_name(ids_of(raws), i, place, raws[i].dependencies[j]));
        assert(is_linked(tasks[place as int], raws, place as int));
    }
    assert(names == raws[i].dependencies) by {
        assert forall|j: int| 0 <= j < names.len() implies #[trigger] names[j]
            == raws[i].dependencies[j] by {
            assert(task.dependencies[j] < tasks.len());
        }
    }
}

/// Whether some row says what a task is.
pub open spec fn has_row(tasks: Seq<TaskModel>, i: int, csv: CsvModel, places: TaskPlaces) -> bool {
    exists|row: int|
        0 <= row < csv.rows.len() && is_task_of(tasks, i, #[trigger] csv.rows[row], places)
}

/// Whether some task is what a row says.
pub open spec fn has_task(tasks: Seq<TaskModel>, row: Seq<Seq<char>>, places: TaskPlaces) -> bool {
    exists|i: int| 0 <= i < tasks.len() && #[trigger] is_task_of(tasks, i, row, places)
}

/// A table lists one task for each row, and no others: each has the id, the priority and the phases
/// of its row, and depends on the tasks whose ids the row lists.
pub proof fn tasks_are_those_of_the_rows(csv: CsvModel, places: TaskPlaces)
    requires
        are_task_columns(csv.headers, places),
        csv.headers.len() <= usize::MAX,
    ensures
        tasks_of(csv) matches Ok(tasks) ==> {
            &&& 1 <= csv.rows.len() <= 15
            &&& tasks.len() == csv.rows.len()
            &&& forall|i: int|
                0 <= i < tasks.len() ==> #[trigger] has_row(tasks, i, csv, places)
            &&& forall|row: int|
                0 <= row < csv.rows.len() ==> has_task(tasks, #[trigger] csv.rows[row], places)
        },
        csv.rows.len() == 0 ==> tasks_of(csv) == Err::<Seq<TaskModel>, Seq<char>>(
            "task CSV requires at least one task"@,
        ),
        csv.rows.len() > 15 ==> tasks_of(csv) == Err::<Seq<TaskModel>, Seq<char>>(
            "task_schedule supports at most 15 tasks for exact optimization"@,
        ),
{
    let headers = csv.headers;
    assert(headers.contains("id"@) && headers.contains("priority"@) && headers.contains(
        "dependencies"@,
    ) && headers.contains("phases"@));
    found_at_first_place(headers, "id"@);
    found_at_first_place(headers, "priority"@);
    found_at_first_place(headers, "dependencies"@);
    found_at_first_place(headers, "phases"@);
    first_is_unique(headers, "id"@, places.id, first_place(headers, "id"@));
    first_is_unique(headers, "priority"@, places.priority, first_place(headers, "priority"@));
    first_is_unique(
        headers,
        "dependencies"@,
        places.dependencies,
        first_place(headers, "dependencies"@),
    );
    first_is_unique(headers, "phases"@, places.phases, first_place(headers, "phases"@));
    if let Ok(tasks) = tasks_of(csv) {
        let columns = columns_of(headers)->Ok_0;
        let raws = raw_tasks_of(csv.rows, columns)->Ok_0;
        let ordered = sorted_by_id(raws);
        rows_say_what_tasks_are(csv.rows, columns, places);
        sorted_by_id_is_sorted(raws);
        to_multiset_len(raws);
        to_multiset_len(ordered);
        assert(ordered.len() == raws.len());
        links_have_the_names(ordered, raws.len() as int);
        assert forall|i: int| 0 <= i < tasks.len() implies #[trigger] has_row(
            tasks,
            i,
            csv,
            places,
        ) by {
            assert(ordered.contains(ordered[i]));
            to_multiset_contains(ordered, ordered[i]);
            to_multiset_contains(raws, ordered[i]);
            let row = choose|row: int| 0 <= row < raws.len() && raws[row] == ordered[i];
            assert(is_raw_task_of(raws[row], csv.rows[row], places));
            linked_is_task(tasks, ordered, i, csv.rows[row], places);
        }
        assert forall|row: int| 0 <= row < csv.rows.len() implies has_task(
            tasks,
            #[trigger] csv.rows[row],
            places,
        ) by {
            assert(raws.contains(raws[row]));
            to_multiset_contains(raws, raws[row]);
            to_multiset_contains(ordered, raws[row]);
            let i = choose|i: int| 0 <= i < ordered.len() && ordered[i] == raws[row];
            assert(is_raw_task_of(raws[row], csv.rows[row], places));
            linked_is_task(tasks, ordered, i, csv.rows[row], places);
        }
    }
}

/// A table that lacks a column lists no tasks; the message names the first that is missing.
pub proof fn lacking_task_columns_are_told(csv: CsvModel)
    ensures
        !csv.headers.contains("id"@) ==> tasks_of(csv) == Err::<Seq<TaskModel>, Seq<char>>(
            "task CSV is missing required column: id"@,
        ),
        csv.headers.contains("id"@) && !csv.headers.contains("priority"@) ==> tasks_of(csv)
            == Err::<Seq<TaskModel>, Seq<char>>("task CSV is missing required column: priority"@),
        csv.headers.contains("id"@) && csv.headers.contains("priority"@) && !csv.headers.contains(
            "dependencies"@,
        ) ==> tasks_of(csv) == Err::<Seq<TaskModel>, Seq<char>>(
            "task CSV is missing required column: dependencies"@,
        ),
        csv.headers.contains("id"@) && csv.headers.contains("priority"@) && csv.headers.contains(
            "dependencies"@,
        ) && !csv.headers.contains("phases"@) ==> tasks_of(csv) == Err::<
            Seq<TaskModel>,
            Seq<char>,
        >("task CSV is missing required column: phases"@),
{
    reveal_strlit("task CSV is missing required column: ");
    reveal_strlit("id");
    reveal_strlit("priority");
    reveal_strlit("dependencies");
    reveal_strlit("phases");
    reveal_strlit("task CSV is missing required column: id");
    reveal_strlit("task CSV is missing required column: priority");
    reveal_strlit("task CSV is missing required column: dependencies");
    reveal_strlit("task CSV is missing required column: phases");
    assert("task CSV is missing required column: "@ + "id"@
        == "task CSV is missing required column: id"@);
    assert("task CSV is missing required column: "@ + "priority"@
        == "task CSV is missing required column: priority"@);
    assert("task CSV is missing required column: "@ + "dependencies"@
        == "task CSV is missing required column: dependencies"@);
    assert("task CSV is missing required column: "@ + "phases"@
        == "task CSV is missing required column: phases"@);
}

/// A step of priority makes a task three times as heavy: the weights of the priorities are 1, 3, 9,
/// 27 and 81.
pub proof fn weights_are_powers_of_three(priority: int)
    requires
        1 <= priority <= 5,
    ensures
        weight(priority) == seq![1int, 3, 9, 27, 81][priority - 1],
{
    reveal_with_fuel(weight, 6);
}

/// The latest of the completion times is that of a task, and no task is completed later.
pub proof fn makespan_is_the_latest_completion(completion: Seq<u64>)
    ensures
        completion.len() > 0 ==> completion.contains(latest(completion)),
        completion.len() == 0 ==> latest(completion) == 0,
        forall|i: int| 0 <= i < completion.len() ==> #[trigger] completion[i] <= latest(completion),
    decreases completion.len(),
{
    if completion.len() > 0 {
        let rest = completion.drop_last();
        let last = completion.len() - 1;
        makespan_is_the_latest_completion(rest);
        assert(completion[last] == completion.last());
        assert forall|i: int| 0 <= i < completion.len() implies #[trigger] completion[i] <= latest(
            completion,
        ) by {
            if i < last {
                assert(rest[i] == completion[i]);
            }
        }
        if latest(completion) == completion.last() {
            assert(completion[last] == latest(completion));
        } else {
            let k = choose|k: int| 0 <= k < rest.len() && rest[k] == latest(rest);
            assert(completion[k] == latest(completion));
        }
    }
}

/// One minute more until a task is completed adds its weight to the weighted sum.
pub proof fn later_completion_weighs_more(
    tasks: Seq<TaskModel>,
    completion: Seq<u64>,
    count: int,
    task: int,
    minutes: u64,
)
    requires
        0 <= task < count <= completion.len(),
    ensures
        weighted_sum(tasks, completion.update(task, minutes), count) - weighted_sum(
            tasks,
            completion,
            count,
        ) == weight(tasks[task].priority as int) * (minutes - completion[task]),
    decreases count,
{
    let changed = completion.update(task, minutes);
    if task < count - 1 {
        later_completion_weighs_more(tasks, completion, count - 1, task, minutes);
        assert(changed[count - 1] == completion[count - 1]);
    } else {
        earlier_completions_weigh_the_same(tasks, completion, changed, count - 1);
        let own = weight(tasks[task].priority as int);
        assert(own * minutes - own * completion[task] == own * (minutes - completion[task]))
            by (nonlinear_arith);
    }
}

proof fn earlier_completions_weigh_the_same(
    tasks: Seq<TaskModel>,
    left: Seq<u64>,
    right: Seq<u64>,
    count: int,
)
    requires
        0 <= count <= left.len(),
        count <= right.len(),
        forall|i: int| 0 <= i < count ==> #[trigger] left[i] == right[i],
    ensures
        weighted_sum(tasks, left, count) == weighted_sum(tasks, right, count),
    decreases count,
{
    if count > 0 {
        earlier_completions_weigh_the_same(tasks, left, right, count - 1);
        assert(left[count - 1] == right[count - 1]);
    }
}

/// Tasks that are all completed at once have no weighted sum.
pub proof fn no_time_weighs_nothing(tasks: Seq<TaskModel>, completion: Seq<u64>, count: int)
    requires
        0 <= count <= completion.len(),
        forall|i: int| 0 <= i < count ==> #[trigger] completion[i] == 0,
    ensures
        weighted_sum(tasks, completion, count) == 0,
    decreases count,
{
    if count > 0 {
        no_time_weighs_nothing(tasks, completion, count - 1);
        assert(completion[count - 1] == 0);
    }
}

/// Whether a row tells of an entry of a schedule.
pub open spec fn tells_of_entry(
    row: Seq<Seq<char>>,
    tasks: Seq<TaskModel>,
    entry: ScheduleEntry,
) -> bool {
    let task = tasks[entry.task_index as int];
    &&& row.len() == 7
    &&& row[0] == "phase"@
    &&& row[1] == task.id
    &&& row[2] == decimal(task.priority as nat)
    &&& row[3] == decimal(entry.phase_index as nat)
    &&& row[4] == (if entry.kind == PhaseKind::Manual {
        "manual"@
    } else {
        "auto"@
    })
    &&& row[5] == decimal(entry.start_minutes as nat)
    &&& row[6] == decimal(entry.end_minutes as nat)
}

/// Whether a row tells when a task is completed.
pub open spec fn tells_of_completion(
    row: Seq<Seq<char>>,
    task: TaskModel,
    completion: u64,
) -> bool {
    &&& row.len() == 7
    &&& row[0] == "task_complete"@
    &&& row[1] == task.id
    &&& row[2] == decimal(task.priority as nat)
    &&& row[3].len() == 0
    &&& row[4].len() == 0
    &&& row[5].len() == 0
    &&& row[6] == decimal(completion as nat)
}

/// Whether an entry comes before another: by the start, then the end, then the task, then the
/// phase.
pub open spec fn begins_before(left: ScheduleEntry, right: ScheduleEntry) -> bool {
    if left.start_minutes != right.start_minutes {
        left.start_minutes < right.start_minutes
    } else if left.end_minutes != right.end_minutes {
        left.end_minutes < right.end_minutes
    } else if left.task_index != right.task_index {
        left.task_index < right.task_index
    } else {
        left.phase_index < right.phase_index
    }
}

/// The table of a schedule has a row for each entry, in the order in which they begin, and behind
/// them one for the completion of each task, in the order of the tasks.
pub proof fn rows_tell_of_the_schedule(tasks: Seq<TaskModel>, schedule: ScheduleModel) -> (order: Seq<
    ScheduleEntry,
>)
    requires
        schedule.completion.len() == tasks.len(),
    ensures
        order.to_multiset() == schedule.entries.to_multiset(),
        order.len() == schedule.entries.len(),
        forall|i: int, j: int|
            0 <= i < j < order.len() ==> !begins_before(#[trigger] order[j], #[trigger] order[i]),
        schedule_rows(tasks, schedule).len() == order.len() + tasks.len(),
        forall|i: int|
            0 <= i < order.len() ==> tells_of_entry(
                #[trigger] schedule_rows(tasks, schedule)[i],
                tasks,
                order[i],
            ),
        forall|t: int|
            0 <= t < tasks.len() ==> #[trigger] completion_is_told(
                schedule_rows(tasks, schedule),
                order.len() as int,
                tasks,
                schedule,
                t,
            ),
{
    let order = sorted_entries(schedule.entries);
    sorted_entries_are_sorted(schedule.entries);
    to_multiset_len(order);
    to_multiset_len(schedule.entries);
    let rows = schedule_rows(tasks, schedule);
    assert forall|t: int| 0 <= t < tasks.len() implies #[trigger] completion_is_told(
        rows,
        order.len() as int,
        tasks,
        schedule,
        t,
    ) by {
        assert(tells_of_completion(rows[order.len() + t], tasks[t], schedule.completion[t]));
    }
    order
}

/// Whether the row of a task behind the others tells of its completion.
pub open spec fn completion_is_told(
    rows: Seq<Seq<Seq<char>>>,
    from: int,
    tasks: Seq<TaskModel>,
    schedule: ScheduleModel,
    task: int,
) -> bool {
    tells_of_completion(rows[from + task], tasks[task], schedule.completion[task])
}

/// The text of the table of a schedule is that of its columns and its rows.
pub proof fn schedule_is_written_under_its_columns(tasks: Seq<TaskModel>, schedule: ScheduleModel)
    ensures
        schedule_csv(tasks, schedule) == records_text(
            seq![
                seq![
                    "record_type"@,
                    "task_id"@,
                    "priority"@,
                    "phase_index"@,
                    "phase_kind"@,
                    "start_minutes"@,
                    "end_minutes"@,
                ],
            ] + schedule_rows(tasks, schedule),
        ),
{
}

/// A column of a chart stands for as few minutes as let the whole schedule fit, and for one at
/// least.
pub proof fn columns_are_as_fine_as_they_can_be(makespan: int, width: int)
    requires
        0 <= makespan,
        1 <= width,
    ensures
        minutes_per_column(makespan, width) >= 1,
        minutes_per_column(makespan, width) * width >= makespan,
        minutes_per_column(makespan, width) > 1 ==> (minutes_per_column(makespan, width) - 1)
            * width < makespan,
{
    let up = (makespan + width - 1) / width;
    assert(up * width >= makespan && (up - 1) * width < makespan) by (nonlinear_arith)
        requires
            0 <= makespan,
            1 <= width,
            up == (makespan + width - 1) / width,
    ;
    if up < 1 {
        assert(makespan == 0) by (nonlinear_arith)
            requires
                0 <= makespan,
                1 <= width,
                up * width >= makespan,
                up < 1,
        ;
    }
}

/// Whether a minute is drawn in a column: that of its place, or the last where it lies behind it.
pub open spec fn is_drawn_in(minute: int, per_column: int, width: int, column: int) -> bool {
    minute / per_column == column || minute / per_column >= width && column == width - 1
}

/// Whether an entry has a minute that is drawn in a column.
pub open spec fn reaches_column(
    entry: ScheduleEntry,
    per_column: int,
    width: int,
    column: int,
) -> bool {
    exists|minute: int|
        entry.start_minutes <= minute < entry.end_minutes && #[trigger] is_drawn_in(
            minute,
            per_column,
            width,
            column,
        )
}

proof fn columns_between_are_reached(
    entry: ScheduleEntry,
    per_column: int,
    width: int,
    column: int,
)
    requires
        entry.start_minutes < entry.end_minutes,
        per_column >= 1,
        0 <= column < width,
    ensures
        column_of(entry.start_minutes as int, per_column, width) <= column <= column_of(
            entry.end_minutes - 1,
            per_column,
            width,
        ) <==> reaches_column(entry, per_column, width, column),
{
    let start = entry.start_minutes as int;
    let end = entry.end_minutes - 1;
    let first = column_of(start, per_column, width);
    let last = column_of(end, per_column, width);
    if reaches_column(entry, per_column, width, column) {
        let minute = choose|minute: int|
            entry.start_minutes <= minute < entry.end_minutes && #[trigger] is_drawn_in(
                minute,
                per_column,
                width,
                column,
            );
        assert(start / per_column <= minute / per_column <= end / per_column) by (nonlinear_arith)
            requires
                start <= minute <= end,
                per_column >= 1,
        ;
    }
    if first <= column <= last {
        if start / per_column == column {
            assert(is_drawn_in(start, per_column, width, column));
        } else if start / per_column >= width {
            assert(is_drawn_in(start, per_column, width, column));
        } else if end / per_column >= width && column == width - 1 {
            assert(is_drawn_in(end, per_column, width, column));
        } else {
            let minute = column * per_column;
            assert(start <= minute <= end && minute / per_column == column) by (nonlinear_arith)
                requires
                    0 <= start,
                    per_column >= 1,
                    start / per_column < column,
                    column <= end / per_column,
                    minute == column * per_column,
            ;
            assert(is_drawn_in(minute, per_column, width, column));
        }
    }
}

/// Whether the entry at a place is the last of a task that reaches a column.
pub open spec fn is_last_to_reach(
    entries: Seq<ScheduleEntry>,
    at: int,
    task: int,
    per_column: int,
    width: int,
    column: int,
) -> bool {
    &&& 0 <= at < entries.len()
    &&& entries[at].task_index == task
    &&& reaches_column(entries[at], per_column, width, column)
    &&& forall|k: int|
        at < k < entries.len() && (#[trigger] entries[k]).task_index == task ==> !reaches_column(
            entries[k],
            per_column,
            width,
            column,
        )
}

/// The line of a task in a chart shows "#" in each column that a manual phase of it reaches, "=" in
/// each that an automatic one reaches, where two do the later entry, and a space in all others.
pub proof fn columns_show_the_phases(
    entries: Seq<ScheduleEntry>,
    task: int,
    per_column: int,
    width: int,
    column: int,
)
    requires
        per_column >= 1,
        0 <= column < width,
        forall|k: int|
            0 <= k < entries.len() ==> (#[trigger] entries[k]).start_minutes
                < entries[k].end_minutes,
    ensures
        chart_cells(entries, task, per_column, width).len() == width,
        forall|at: int| #[trigger]
            is_last_to_reach(entries, at, task, per_column, width, column) ==> chart_cells(
                entries,
                task,
                per_column,
                width,
            )[column] == (if entries[at].kind == PhaseKind::Manual {
                '#'
            } else {
                '='
            }),
        (forall|k: int|
            0 <= k < entries.len() && (#[trigger] entries[k]).task_index == task ==> !reaches_column(
                entries[k],
                per_column,
                width,
                column,
            )) ==> chart_cells(entries, task, per_column, width)[column] == ' ',
    decreases entries.len(),
{
    let cells = chart_cells(entries, task, per_column, width);
    if entries.len() > 0 {
        let rest = entries.drop_last();
        let last = entries.len() - 1;
        assert forall|k: int| 0 <= k < rest.len() implies (#[trigger] rest[k]).start_minutes
            < rest[k].end_minutes by {
            assert(rest[k] == entries[k]);
        }
        columns_show_the_phases(rest, task, per_column, width, column);
        assert(entries[last] == entries.last());
        columns_between_are_reached(entries[last], per_column, width, column);
        assert forall|at: int| #[trigger]
            is_last_to_reach(entries, at, task, per_column, width, column) implies cells[column]
            == (if entries[at].kind == PhaseKind::Manual {
            '#'
        } else {
            '='
        }) by {
            if at < last {
                assert(entries[last].task_index != task || !reaches_column(
                    entries[last],
                    per_column,
                    width,
                    column,
                ));
                assert forall|k: int|
                    at < k < rest.len() && (#[trigger] rest[k]).task_index == task implies
                    !reaches_column(rest[k], per_column, width, column) by {
                    assert(rest[k] == entries[k]);
                }
                assert(rest[at] == entries[at]);
                assert(is_last_to_reach(rest, at, task, per_column, width, column));
            }
        }
        if forall|k: int|
            0 <= k < entries.len() && (#[trigger] entries[k]).task_index == task ==> !reaches_column(
                entries[k],
                per_column,
                width,
                column,
            ) {
            assert forall|k: int|
                0 <= k < rest.len() && (#[trigger] rest[k]).task_index == task implies
                !reaches_column(rest[k], per_column, width, column) by {
                assert(rest[k] == entries[k]);
            }
        }
    }
}

/// The ids in a chart take as many characters as the longest of them, but not fewer than four and
/// not more than twenty-four.
pub proof fn ids_have_room(tasks: Seq<TaskModel>)
    ensures
        4 <= label_width(tasks) <= 24,
        forall|t: int|
            0 <= t < tasks.len() ==> (#[trigger] tasks[t]).id.len() <= label_width(tasks)
                || label_width(tasks) == 24,
        label_width(tasks) > 4 ==> exists|t: int|
            0 <= t < tasks.len() && (#[trigger] tasks[t]).id.len() >= label_width(tasks),
{
    longest_is_longest(tasks);
}

proof fn longest_is_longest(tasks: Seq<TaskModel>)
    ensures
        forall|t: int| 0 <= t < tasks.len() ==> (#[trigger] tasks[t]).id.len() <= longest_id(tasks),
        longest_id(tasks) > 0 ==> exists|t: int|
            0 <= t < tasks.len() && (#[trigger] tasks[t]).id.len() == longest_id(tasks),
    decreases tasks.len(),
{
    if tasks.len() > 0 {
        let rest = tasks.drop_last();
        let last = tasks.len() - 1;
        longest_is_longest(rest);
        assert(tasks[last] == tasks.last());
        assert forall|t: int| 0 <= t < tasks.len() implies (#[trigger] tasks[t]).id.len()
            <= longest_id(tasks) by {
            if t < last {
                assert(rest[t] == tasks[t]);
            }
        }
        if longest_id(tasks) > 0 && longest_id(tasks) != tasks[last].id.len() {
            let t = choose|t: int|
                0 <= t < rest.len() && (#[trigger] rest[t]).id.len() == longest_id(rest);
            assert(tasks[t].id.len() == longest_id(tasks));
        }
    }
}

/// A label that is too long is cut off, with a tilde for what is missing; else it stays.
pub proof fn long_labels_are_cut_off(label: Seq<char>, width: int)
    requires
        0 <= width,
    ensures
        truncated(label, width).len() <= width,
        label.len() <= width ==> truncated(label, width) == label,
        label.len() > width > 0 ==> truncated(label, width).len() == width && truncated(
            label,
            width,
        ).last() == '~' && truncated(label, width).drop_last().is_prefix_of(label),
{
    if label.len() > width > 0 {
        let cut = truncated(label, width);
        assert(cut.drop_last() == label.take(width - 1));
        assert(label.subrange(0, width - 1) == label.take(width - 1));
    }
}

/// Whether a line stands in a chart, right behind a line feed.
pub open spec fn stands_in_chart(chart: Seq<char>, line: Seq<char>) -> bool {
    exists|front: Seq<char>, behind: Seq<char>| #[trigger]
        is_between(chart, front, line, behind)
}

/// Whether a text is a line between what stands before it, up to a line feed, and what stands
/// behind it.
pub open spec fn is_between(
    chart: Seq<char>,
    front: Seq<char>,
    line: Seq<char>,
    behind: Seq<char>,
) -> bool {
    chart == front + line + behind && front.len() > 0 && front[front.len() - 1] == '\n'
}

proof fn chart_lines_end(tasks: Seq<TaskModel>, schedule: ScheduleModel, width: int, count: int)
    ensures
        chart_upto(tasks, schedule, width, count).len() > 0,
        chart_upto(tasks, schedule, width, count).last() == '\n',
    decreases count,
{
    reveal_strlit("| done\n");
    reveal_strlit(" min\n");
    if count > 0 {
        let line = chart_line(tasks, schedule, width, count - 1);
        assert(line.last() == '\n');
        let before = chart_upto(tasks, schedule, width, count - 1);
        assert((before + line).last() == line.last());
    } else {
        assert(chart_head(tasks, schedule, width).last() == '\n');
    }
}

proof fn chart_has_its_lines(
    tasks: Seq<TaskModel>,
    schedule: ScheduleModel,
    width: int,
    count: int,
    task: int,
)
    requires
        0 <= task < count,
    ensures
        stands_in_chart(
            chart_upto(tasks, schedule, width, count),
            chart_line(tasks, schedule, width, task),
        ),
    decreases count,
{
    let all = chart_upto(tasks, schedule, width, count);
    let before = chart_upto(tasks, schedule, width, count - 1);
    let line = chart_line(tasks, schedule, width, task);
    if task == count - 1 {
        chart_lines_end(tasks, schedule, width, count - 1);
        assert(all == before + line + Seq::<char>::empty());
        assert(is_between(all, before, line, Seq::empty()));
    } else {
        chart_has_its_lines(tasks, schedule, width, count - 1, task);
        let (front, behind) = choose|front: Seq<char>, behind: Seq<char>| #[trigger]
            is_between(before, front, line, behind);
        let more = behind + chart_line(tasks, schedule, width, count - 1);
        assert(all == front + line + more);
        assert(is_between(all, front, line, more));
    }
}

/// A chart has a line for each task: its id, its columns between bars, and when it is completed.
pub proof fn chart_has_a_line_for_each_task(
    tasks: Seq<TaskModel>,
    schedule: ScheduleModel,
    width: int,
    task: int,
)
    requires
        1 <= width,
        0 <= task < tasks.len(),
    ensures
        stands_in_chart(
            chart_text(tasks, schedule, width),
            padded_right(truncated(tasks[task].id, label_width(tasks)), label_width(tasks)) + " |"@
                + chart_cells(
                schedule.entries,
                task,
                minutes_per_column(schedule.makespan as int, width),
                width,
            ) + "| "@ + decimal(schedule.completion[task] as nat) + " min\n"@,
        ),
{
    chart_has_its_lines(tasks, schedule, width, tasks.len() as int, task);
}

proof fn chart_begins_with_its_head(
    tasks: Seq<TaskModel>,
    schedule: ScheduleModel,
    width: int,
    count: int,
)
    ensures
        chart_head(tasks, schedule, width).is_prefix_of(chart_upto(tasks, schedule, width, count)),
    decreases count,
{
    if count > 0 {
        chart_begins_with_its_head(tasks, schedule, width, count - 1);
        let head = chart_head(tasks, schedule, width);
        let before = chart_upto(tasks, schedule, width, count - 1);
        let all = chart_upto(tasks, schedule, width, count);
        assert(all.subrange(0, head.len() as int) == before.subrange(0, head.len() as int));
    } else {
        let head = chart_head(tasks, schedule, width);
        assert(head.subrange(0, head.len() as int) == head);
    }
}

/// A chart begins by saying what its signs mean, how long the schedule takes, and how long a column
/// is.
pub proof fn chart_says_what_it_shows(tasks: Seq<TaskModel>, schedule: ScheduleModel, width: int)
    requires
        1 <= width,
    ensures
        ("\ngantt chart (# manual, = auto)\ntime: 0.."@ + decimal(schedule.makespan as nat)
            + " min, 1 column = "@ + decimal(
            minutes_per_column(schedule.makespan as int, width) as nat,
        ) + " min\n"@ + padded_right("task"@, label_width(tasks)) + " |"@ + repeated('-', width)
            + "| done\n"@).is_prefix_of(chart_text(tasks, schedule, width)),
{
    chart_begins_with_its_head(tasks, schedule, width, tasks.len() as int);
}

/// Whether an entry is manual, by its place.
pub open spec fn is_manual_at(entries: Seq<ScheduleEntry>) -> spec_fn(int) -> bool {
    |k: int| entries[k].kind == PhaseKind::Manual
}

/// The ids of the manual phases are those of the tasks of all manual entries, in order.
pub proof fn manual_phases_are_named(entries: Seq<ScheduleEntry>, tasks: Seq<TaskModel>) -> (places: Seq<
    int,
>)
    ensures
        are_all_wanted(places, entries.len() as int, is_manual_at(entries)),
        manual_ids(entries, tasks).len() == places.len(),
        forall|i: int|
            0 <= i < places.len() ==> #[trigger] manual_ids(entries, tasks)[i]
                == tasks[entries[places[i]].task_index as int].id,
    decreases entries.len(),
{
    let wanted = is_manual_at(entries);
    let ids = manual_ids(entries, tasks);
    if entries.len() == 0 {
        let places = Seq::<int>::empty();
        assert(are_all_wanted(places, 0, wanted));
        places
    } else {
        let rest = entries.drop_last();
        let last = entries.len() - 1;
        let before = manual_phases_are_named(rest, tasks);
        let below = is_manual_at(rest);
        let places = if entries.last().kind == PhaseKind::Manual {
            before.push(last)
        } else {
            before
        };
        assert forall|i: int| 0 <= i < places.len() implies 0 <= #[trigger] places[i]
            < entries.len() && wanted(places[i]) by {
            if i < before.len() {
                assert(below(before[i]));
                assert(rest[before[i]] == entries[before[i]]);
            }
        }
        assert forall|k: int| 0 <= k < entries.len() && #[trigger] wanted(k) implies places.contains(
            k,
        ) by {
            if k < last {
                assert(rest[k] == entries[k]);
                assert(below(k));
                let m = choose|m: int| 0 <= m < before.len() && before[m] == k;
                assert(places[m] == k);
            } else {
                assert(places[places.len() - 1] == k);
            }
        }
        assert forall|i: int| 0 <= i < places.len() implies #[trigger] ids[i]
            == tasks[entries[places[i]].task_index as int].id by {
            if i < before.len() {
                assert(manual_ids(rest, tasks)[i] == tasks[rest[before[i]].task_index as int].id);
            }
        }
        assert(are_all_wanted(places, entries.len() as int, wanted));
        places
    }
}

/// Whether two lists of texts are the same up to a place, and the one ends there or has the text
/// that comes first.
pub open spec fn lists_part_at(left: Seq<Seq<char>>, right: Seq<Seq<char>>, at: int) -> bool {
    &&& 0 <= at <= left.len()
    &&& at < right.len()
    &&& forall|k: int| 0 <= k < at ==> #[trigger] left[k] == right[k]
    &&& at == left.len() || left[at] != right[at] && text_before(left[at], right[at])
}

proof fn lists_are_ordered_by_their_first_difference(left: Seq<Seq<char>>, right: Seq<Seq<char>>)
    ensures
        texts_before(left, right) <==> exists|at: int| #[trigger] lists_part_at(left, right, at),
    decreases left.len(),
{
    if right.len() == 0 {
        assert(forall|at: int| !#[trigger] lists_part_at(left, right, at));
    } else if left.len() == 0 {
        assert(lists_part_at(left, right, 0));
    } else if left[0] == right[0] {
        let short = left.drop_first();
        let other = right.drop_first();
        lists_are_ordered_by_their_first_difference(short, other);
        if texts_before(left, right) {
            let at = choose|at: int| #[trigger] lists_part_at(short, other, at);
            assert forall|k: int| 0 <= k < at + 1 implies #[trigger] left[k] == right[k] by {
                if k > 0 {
                    assert(short[k - 1] == left[k] && other[k - 1] == right[k]);
                }
            }
            assert(lists_part_at(left, right, at + 1));
        }
        if exists|at: int| #[trigger] lists_part_at(left, right, at) {
            let at = choose|at: int| #[trigger] lists_part_at(left, right, at);
            assert(at > 0);
            assert forall|k: int| 0 <= k < at - 1 implies #[trigger] short[k] == other[k] by {
                assert(left[k + 1] == right[k + 1]);
            }
            assert(lists_part_at(short, other, at - 1));
        }
    } else {
        if text_before(left[0], right[0]) {
            assert(lists_part_at(left, right, 0));
        }
        if exists|at: int| #[trigger] lists_part_at(left, right, at) {
            let at = choose|at: int| #[trigger] lists_part_at(left, right, at);
            if at > 0 {
                assert(left[0] == right[0]);
            }
        }
    }
}

/// A schedule is better than another by the smaller weighted sum; where these are the same, by the
/// smaller makespan; and where these are the same too, where the ids of its manual phases come first
/// at the first place at which they differ.
pub proof fn better_schedules_come_first(
    left: ScheduleModel,
    right: ScheduleModel,
    tasks: Seq<TaskModel>,
)
    ensures
        left.weighted != right.weighted ==> (better(left, right, tasks) <==> left.weighted
            < right.weighted),
        left.weighted == right.weighted && left.makespan != right.makespan ==> (better(
            left,
            right,
            tasks,
        ) <==> left.makespan < right.makespan),
        left.weighted == right.weighted && left.makespan == right.makespan ==> (better(
            left,
            right,
            tasks,
        ) <==> exists|at: int| #[trigger]
            lists_part_at(
                manual_ids(left.entries, tasks),
                manual_ids(right.entries, tasks),
                at,
            )),
{
    lists_are_ordered_by_their_first_difference(
        manual_ids(left.entries, tasks),
        manual_ids(right.entries, tasks),
    );
}

/// A schedule has the entries and the completion times of the state that it is made of; its weighted
/// sum is that of these times, and its makespan the latest of them.
pub proof fn schedules_add_up(tasks: Seq<TaskModel>, state: StateModel, task: int)
    requires
        0 <= task < state.completion.len(),
    ensures
        ({
            let schedule = schedule_of(tasks, state);
            &&& schedule.entries == state.entries
            &&& schedule.completion.len() == state.completion.len()
            &&& schedule.completion[task] == state.completion[task]->0
            &&& schedule.weighted == weighted_sum(tasks, schedule.completion, tasks.len() as int)
            &&& schedule.completion.contains(schedule.makespan)
            &&& schedule.completion[task] <= schedule.makespan
        }),
{
    makespan_is_the_latest_completion(schedule_of(tasks, state).completion);
}

/// What is said where no schedule is found. The search gives up after a million states.
pub proof fn failures_are_told()
    ensures
        failure_text(ScheduleFailure::TimeOverflow) == "schedule time overflow"@,
        failure_text(ScheduleFailure::Cycle) == "task dependencies contain a cycle"@,
        failure_text(ScheduleFailure::TooManyStates)
            == "task schedule optimization exceeded 1000000 search states"@,
        MAX_SEARCH_NODES == 1_000_000,
{
}

/// What is said of a cell that is no phase: it has no colon, its kind is unknown, or it takes no time.
/// The rows are counted from one.
pub proof fn wrong_phases_are_told(text: Seq<char>, row_index: nat, word: Seq<char>, minutes: Seq<char>)
    ensures
        !trimmed(text).contains(':') ==> phase_of(text, row_index as int) == Err::<Phase, Seq<char>>(
            "row "@ + decimal(row_index + 1)
                + " phases must use manual:MINUTES (m:MINUTES) or auto:MINUTES (a:MINUTES)"@,
        ),
        trimmed(text) == word + seq![':'] + minutes && !word.contains(':') && !seq![
            "manual"@,
            "m"@,
            "auto"@,
            "a"@,
        ].contains(trimmed(word)) ==> phase_of(text, row_index as int) == Err::<Phase, Seq<char>>(
            "row "@ + decimal(row_index + 1) + " has unsupported phase type: "@ + trimmed(word),
        ),
        trimmed(text) == word + seq![':'] + minutes && !word.contains(':') && seq![
            "manual"@,
            "m"@,
            "auto"@,
            "a"@,
        ].contains(trimmed(word)) && reads_number(trimmed(minutes), 10, 0) ==> phase_of(
            text,
            row_index as int,
        ) == Err::<Phase, Seq<char>>(
            "row "@ + decimal(row_index + 1) + " phase duration must be greater than zero"@,
        ),
{
    let core = trimmed(text);
    first_place_is_first(core, ':');
    parted_at_the_first(core, ':', word, minutes);
    words_name_the_kinds(trimmed(word));
    numbers_are_read_by_their_places(trimmed(minutes), 10, u64::MAX as int);
    let known = seq!["manual"@, "m"@, "auto"@, "a"@];
    assert(known[0] == "manual"@ && known[1] == "m"@ && known[2] == "auto"@ && known[3] == "a"@);
    if known.contains(trimmed(word)) {
        let k = choose|k: int| 0 <= k < known.len() && known[k] == trimmed(word);
        assert(k == 0 || k == 1 || k == 2 || k == 3);
    }
}

/// What is said of a row whose id is empty, or whose priority is out of range. The rows are counted
/// from one.
pub proof fn wrong_rows_are_told(
    row: Seq<Seq<char>>,
    columns: TaskColumns,
    row_index: nat,
    priority: int,
)
    ensures
        columns.id >= row.len() ==> raw_task_of(row, columns, row_index as int) == Err::<
            RawModel,
            Seq<char>,
        >("row "@ + decimal(row_index + 1) + " is missing column "@ + "id"@),
        columns.id < row.len() && trimmed(row[columns.id as int]).len() == 0 ==> raw_task_of(
            row,
            columns,
            row_index as int,
        ) == Err::<RawModel, Seq<char>>(
            "row "@ + decimal(row_index + 1) + " column id must not be empty"@,
        ),
        columns.id < row.len() && trimmed(row[columns.id as int]).len() > 0 && columns.priority
            < row.len() && reads_number(trimmed(row[columns.priority as int]), 10, priority)
            && priority <= 255 && !(1 <= priority <= 5) ==> raw_task_of(
            row,
            columns,
            row_index as int,
        ) == Err::<RawModel, Seq<char>>(
            "row "@ + decimal(row_index + 1) + " priority must be between 1 and 5"@,
        ),
{
    if columns.priority < row.len() {
        numbers_are_read_by_their_places(
            trimmed(row[columns.priority as int]),
            10,
            u8::MAX as int,
        );
    }
}

/// What is said of a task that depends on one that is not there, or on itself.
pub proof fn wrong_dependencies_are_told(
    ids: Seq<Seq<char>>,
    index: int,
    names: Seq<Seq<char>>,
    name: Seq<char>,
)
    requires
        0 <= index < ids.len(),
        places_of(ids, index, names) is Ok,
    ensures
        !ids.contains(name) ==> places_of(ids, index, names.push(name)) == Err::<
            Seq<usize>,
            Seq<char>,
        >("task "@ + ids[index] + " depends on unknown task "@ + name),
        is_first_at(ids, name, index) ==> places_of(ids, index, names.push(name)) == Err::<
            Seq<usize>,
            Seq<char>,
        >("task "@ + ids[index] + " must not depend on itself"@),
{
    let more = names.push(name);
    assert(more.drop_last() == names);
    if is_first_at(ids, name, index) {
        assert(ids.contains(name));
        found_at_first_place(ids, name);
        first_is_unique(ids, name, index, first_place(ids, name));
    }
}

/// What is said where two tasks have the same id.
pub proof fn repeated_ids_are_told(csv: CsvModel, places: TaskPlaces, first: int, second: int)
    requires
        are_task_columns(csv.headers, places),
        csv.headers.len() <= usize::MAX,
        0 <= first < second < csv.rows.len() <= 15,
        columns_of(csv.headers) matches Ok(columns) && raw_tasks_of(csv.rows, columns) is Ok,
        trimmed(csv.rows[first][places.id]) == trimmed(csv.rows[second][places.id]),
    ensures
        tasks_of(csv) == Err::<Seq<TaskModel>, Seq<char>>("task CSV contains duplicate id values"@),
{
    let headers = csv.headers;
    assert(headers.contains("id"@) && headers.contains("priority"@) && headers.contains(
        "dependencies"@,
    ) && headers.contains("phases"@));
    found_at_first_place(headers, "id"@);
    found_at_first_place(headers, "priority"@);
    found_at_first_place(headers, "dependencies"@);
    found_at_first_place(headers, "phases"@);
    first_is_unique(headers, "id"@, places.id, first_place(headers, "id"@));
    first_is_unique(headers, "priority"@, places.priority, first_place(headers, "priority"@));
    first_is_unique(
        headers,
        "dependencies"@,
        places.dependencies,
        first_place(headers, "dependencies"@),
    );
    first_is_unique(headers, "phases"@, places.phases, first_place(headers, "phases"@));
    let columns = columns_of(headers)->Ok_0;
    let raws = raw_tasks_of(csv.rows, columns)->Ok_0;
    let ordered = sorted_by_id(raws);
    rows_say_what_tasks_are(csv.rows, columns, places);
    assert(is_raw_task_of(raws[first], csv.rows[first], places));
    assert(is_raw_task_of(raws[second], csv.rows[second], places));
    sorted_by_id_is_sorted(raws);
    to_multiset_len(raws);
    to_multiset_len(ordered);
    if ids_of(ordered).no_duplicates() {
        let ids = ids_of(ordered);
        assert(ordered.no_duplicates()) by {
            assert forall|i: int, j: int| 0 <= i < ordered.len() && 0 <= j < ordered.len() && i != j
                implies ordered[i] != ordered[j] by {
                assert(ids[i] != ids[j]);
            }
        }
        ordered.lemma_multiset_has_no_duplicates();
        assert(raws.contains(raws[first]) && raws.contains(raws[second]));
        to_multiset_contains(raws, raws[first]);
        to_multiset_contains(raws, raws[second]);
        to_multiset_contains(ordered, raws[first]);
        to_multiset_contains(ordered, raws[second]);
        let i = choose|i: int| 0 <= i < ordered.len() && ordered[i] == raws[first];
        let j = choose|j: int| 0 <= j < ordered.len() && ordered[j] == raws[second];
        assert(ids[i] == ids[j]);
        assert(i == j);
        assert(raws[first] == raws[second]);
        raws.lemma_multiset_has_no_duplicates_conv();
        assert(raws.no_duplicates());
        assert(raws[first] != raws[second]);
    }
}

} // verus!
